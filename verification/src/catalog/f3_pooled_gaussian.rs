//! Pooled Gaussian regression: a linear model with a conjugate posterior, and group
//! effects that a Normal prior holds together. A group may also have a slope of its own on
//! a predictor, held to the population's in the same way.
//!
//! The library writes the design down, row by row and column by column, says which
//! coefficient carries which prior, and judges what the factorisation came back with.
use crate::catalog::common::{
    column_of_group, column_of_ones, named_columns, push_columns, ONE_BITS,
};
use crate::config::{Config, Entry, Scope, Section, Value};
use crate::data::{gather, gather_all, DataView};
use crate::double::Double;
use crate::draws::{push_coefficients, push_global, push_one_each, ParamId, ParamName};
use crate::errors::{BayesError, BayesResult, Fault, Message};
use crate::formula::{push_coordinates, Formula};
use crate::panel::{read_panel, PanelView};
use crate::readiness::{Readiness, Verdict};
use crate::reading::{read_columns, Entries, Reading};
use crate::text::{contains_text, decimal, push_text};
use crate::types::{global_group_key, EngineKind, FamilyCode, FitStatus};
use vstd::arithmetic::div_mod::*;
use vstd::prelude::*;

verus! {

/// The family of pooled Gaussian regressions.
#[derive(Debug)]
pub struct PooledGaussian;

pub const SLOTS: [&'static str; 11] = [
    "y",
    "x",
    "intercept",
    "group",
    "random_slopes",
    "pool_scale",
    "prior",
    "draws",
    "chains",
    "seed",
    "engine",
];

pub const PRIOR_SLOTS: [&'static str; 3] = ["beta_scale", "a0", "s0"];

pub const ID: &'static str = "pooled_gaussian";

pub const DESCRIPTION: &'static str =
    "Gaussian linear model with a conjugate Normal-Inverse-Gamma posterior and \
     optional partial pooling by group; the inference layer for difference-in-\
     differences and interrupted time series.";

pub const NOTHING_TO_ESTIMATE: &'static str =
    "a model with no predictors, no intercept and no groups has nothing to estimate";

pub const SLOPES_NEED_GROUPS: &'static str =
    "a slope of its own per group needs a `group` column to say what a group is";

pub const NOT_A_PREDICTOR: &'static str =
    "' is not one of the predictors in `x`: a group's slope is pooled toward the \
     population's, and there is none";

/// Prior hyperparameters, but for the spread of the group effects.
#[derive(Debug, Clone, Copy)]
pub struct Prior {
    /// The scale of the slopes, relative to the residual scale.
    pub beta_scale: Double,
    pub a0: Double,
    pub s0: Double,
}

impl Prior {
    /// The prior that a table of options asks for.
    pub open spec fn asked(cfg: Scope) -> Result<Prior, Fault> {
        let zero = Double { bits: 0 };
        let beta_scale = cfg.number("beta_scale"@, Double::spec_infinity());
        let a0 = cfg.number("a0"@, zero);
        let s0 = cfg.non_negative_number("s0"@, zero);
        if let Some(f) = cfg.unknown_slot(crate::text::words(PRIOR_SLOTS@)) {
            Err(f)
        } else if let Err(f) = beta_scale {
            Err(f)
        } else if beta_scale->Ok_0.le(zero) {
            Err(Fault::config("prior.beta_scale"@, "must be > 0"@))
        } else if let Err(f) = a0 {
            Err(f)
        } else if let Err(f) = s0 {
            Err(f)
        } else {
            Ok(Prior { beta_scale: beta_scale->Ok_0, a0: a0->Ok_0, s0: s0->Ok_0 })
        }
    }

    pub fn parse(cfg: &Section) -> (r: BayesResult<Prior>)
        ensures
            crate::errors::plain(r) == Prior::asked(cfg@),
    {
        cfg.reject_unknown(&PRIOR_SLOTS)?;
        let zero = Double::zero();
        let beta_scale = cfg.f64_or("beta_scale", Double::infinity())?;
        if beta_scale.at_most(zero) {
            return Err(BayesError::config("prior.beta_scale", "must be > 0"));
        }
        let a0 = cfg.f64_or("a0", zero)?;
        let s0 = cfg.non_negative_f64_or("s0", zero)?;
        Ok(Prior { beta_scale, a0, s0 })
    }
}

/// What a request asks for.
#[derive(Debug)]
pub struct Request {
    pub y: String,
    pub x: Vec<String>,
    pub intercept: bool,
    pub group: Option<String>,
    /// The predictors on which each group has a coefficient of its own.
    pub random_slopes: Vec<String>,
    pub pool_scale: Double,
    pub prior: Prior,
}

/// What a [`Request`] says.
#[verifier::ext_equal]
pub struct Asked {
    pub y: Seq<char>,
    pub x: Seq<Seq<char>>,
    pub intercept: bool,
    pub group: Option<Seq<char>>,
    pub random_slopes: Seq<Seq<char>>,
    pub pool_scale: Double,
    pub prior: Prior,
}

impl View for Request {
    type V = Asked;

    open spec fn view(&self) -> Asked {
        Asked {
            y: self.y@,
            x: crate::text::texts(self.x@),
            intercept: self.intercept,
            group: crate::data::name_of(self.group),
            random_slopes: crate::text::texts(self.random_slopes@),
            pool_scale: self.pool_scale,
            prior: self.prior,
        }
    }
}

/// Per random slope, what is wrong with it, if anything: it must be one of the predictors
/// and be named once.
pub open spec fn slope_checks(slopes: Seq<Seq<char>>, x: Seq<Seq<char>>) -> Seq<Option<Fault>> {
    Seq::new(
        slopes.len(),
        |i: int|
            if !x.contains(slopes[i]) {
                Some(Fault::config("random_slopes"@, "'"@ + slopes[i] + NOT_A_PREDICTOR@))
            } else if slopes.take(i).contains(slopes[i]) {
                Some(Fault::config("random_slopes"@, "'"@ + slopes[i] + "' is named twice"@))
            } else {
                None
            },
    )
}

fn check_slopes(slopes: &Vec<String>, x: &Vec<String>) -> (r: BayesResult<()>)
    ensures
        ({
            let checks = slope_checks(crate::text::texts(slopes@), crate::text::texts(x@));
            match r {
                Ok(_) => crate::data::first_fault(checks) is None,
                Err(e) => crate::data::first_fault(checks) == Some(e@),
            }
        }),
{
    let ghost all = crate::text::texts(slopes@);
    let ghost checks = slope_checks(all, crate::text::texts(x@));
    let mut seen: Vec<String> = Vec::new();
    let mut k: usize = 0;
    proof {
        assert(crate::text::texts(seen@) =~= all.take(0));
    }
    while k < slopes.len()
        invariant
            k <= slopes@.len(),
            all == crate::text::texts(slopes@),
            checks == slope_checks(all, crate::text::texts(x@)),
            crate::text::texts(seen@) == all.take(k as int),
            forall|i: int| 0 <= i < k ==> (#[trigger] checks[i]) is None,
        decreases slopes@.len() - k,
    {
        let name = slopes[k].as_str();
        proof {
            assert(all[k as int] == name@);
            crate::data::lemma_first_fault(checks, k as int);
        }
        if !contains_text(x, name) {
            return Err(
                BayesError::config(
                    "random_slopes",
                    "'".to_owned().concat(name).concat(NOT_A_PREDICTOR).as_str(),
                ),
            );
        }
        if contains_text(&seen, name) {
            return Err(
                BayesError::config(
                    "random_slopes",
                    "'".to_owned().concat(name).concat("' is named twice").as_str(),
                ),
            );
        }
        push_text(&mut seen, name);
        k += 1;
        proof {
            assert(crate::text::texts(seen@) =~= all.take(k as int));
        }
    }
    proof {
        crate::data::lemma_first_fault(checks, k as int);
    }
    Ok(())
}

impl Asked {
    /// The request that the options make, or the first thing wrong with them.
    pub open spec fn of(cfg: Scope) -> Result<Asked, Fault> {
        let one = Double { bits: ONE_BITS };
        let y = cfg.required_text("y"@);
        let x = cfg.text_list("x"@);
        let intercept = cfg.number("intercept"@, one);
        let group = cfg.optional_text("group"@);
        let slopes = cfg.text_list("random_slopes"@);
        let pool_scale = cfg.positive_number("pool_scale"@, one);
        let table = cfg.table("prior"@);
        let prior = Prior::asked(table->Ok_0);
        if let Some(f) = cfg.unknown_slot(crate::text::words(SLOTS@)) {
            Err(f)
        } else if let Err(f) = y {
            Err(f)
        } else if let Err(f) = x {
            Err(f)
        } else if let Err(f) = intercept {
            Err(f)
        } else if let Err(f) = group {
            Err(f)
        } else if let Err(f) = slopes {
            Err(f)
        } else if let Err(f) = pool_scale {
            Err(f)
        } else if let Err(f) = table {
            Err(f)
        } else if let Err(f) = prior {
            Err(f)
        } else if x->Ok_0.len() == 0 && intercept->Ok_0.same_value(Double { bits: 0 })
            && group->Ok_0 is None {
            Err(Fault::config("x"@, NOTHING_TO_ESTIMATE@))
        } else if slopes->Ok_0.len() > 0 && group->Ok_0 is None {
            Err(Fault::config("random_slopes"@, SLOPES_NEED_GROUPS@))
        } else if let Some(f) = crate::data::first_fault(slope_checks(slopes->Ok_0, x->Ok_0)) {
            Err(f)
        } else {
            Ok(
                Asked {
                    y: y->Ok_0,
                    x: x->Ok_0,
                    intercept: !intercept->Ok_0.same_value(Double { bits: 0 }),
                    group: group->Ok_0,
                    random_slopes: slopes->Ok_0,
                    pool_scale: pool_scale->Ok_0,
                    prior: prior->Ok_0,
                },
            )
        }
    }

    /// The number columns that the request reads.
    pub open spec fn columns(self) -> Seq<Seq<char>> {
        seq![self.y] + self.x
    }

    /// How many coefficients belong to no group.
    pub open spec fn n_fixed(self) -> int {
        self.x.len() + if self.intercept {
            1int
        } else {
            0int
        }
    }
}

impl Request {
    /// Reads a request from its options.
    pub fn parse(cfg: &Config) -> (r: BayesResult<Request>)
        ensures
            crate::errors::outcome(r) == Asked::of(cfg@),
    {
        let cfg = cfg.root();
        let one = Double { bits: ONE_BITS };
        cfg.reject_unknown(&SLOTS)?;
        let y = cfg.require_str("y")?;
        let x = cfg.str_list("x")?;
        let intercept = cfg.f64_or("intercept", one)?;
        let group = cfg.opt_str("group")?;
        let random_slopes = cfg.str_list("random_slopes")?;
        let pool_scale = cfg.positive_f64_or("pool_scale", one)?;
        let table = cfg.nested("prior")?;
        let prior = Prior::parse(&table)?;
        let intercept = !intercept.equals(Double::zero());
        proof {
            assert(crate::text::texts(x@).len() == x@.len());
            assert(crate::text::texts(random_slopes@).len() == random_slopes@.len());
        }
        if x.len() == 0 && !intercept && group.is_none() {
            return Err(BayesError::config("x", NOTHING_TO_ESTIMATE));
        }
        if random_slopes.len() > 0 && group.is_none() {
            return Err(BayesError::config("random_slopes", SLOPES_NEED_GROUPS));
        }
        check_slopes(&random_slopes, &x)?;
        Ok(Request { y, x, intercept, group, random_slopes, pool_scale, prior })
    }

    /// The number columns that the request reads.
    fn list_columns(&self) -> (r: Vec<String>)
        ensures
            crate::text::texts(r@) == self@.columns(),
    {
        named_columns(self.y.as_str(), &self.x)
    }
}

/// A design ready to be factored.
#[derive(Debug)]
pub struct PooledDesign {
    /// The coefficients in the order of the columns, then the residual scale.
    pub params: Vec<ParamName>,
    /// Response, group after group.
    pub y: Vec<Double>,
    /// The design, column by column: intercept, predictors, group indicators, and then,
    /// predictor after predictor, the slopes of the groups.
    pub x: Vec<Vec<Double>>,
    pub n_groups: usize,
    pub n_fixed: usize,
    pub intercept: bool,
    pub pool_scale: Double,
    pub prior: Prior,
}

/// What a [`PooledDesign`] holds.
#[verifier::ext_equal]
pub struct Read {
    pub params: Seq<ParamId>,
    pub y: Seq<Double>,
    pub x: Seq<Seq<Double>>,
    pub n_groups: int,
    pub n_fixed: int,
    pub intercept: bool,
    pub pool_scale: Double,
    pub prior: Prior,
}

impl View for PooledDesign {
    type V = Read;

    open spec fn view(&self) -> Read {
        Read {
            params: crate::draws::ids(self.params@),
            y: self.y@,
            x: crate::data::lists(self.x@),
            n_groups: self.n_groups as int,
            n_fixed: self.n_fixed as int,
            intercept: self.intercept,
            pool_scale: self.pool_scale,
            prior: self.prior,
        }
    }
}

/// The name of a group's own coefficient on a predictor.
pub open spec fn slope_name(predictor: Seq<char>) -> Seq<char> {
    "group_slope["@ + predictor + "]"@
}

/// The groups' own coefficients, predictor after predictor.
pub open spec fn slope_ids(slopes: Seq<Seq<char>>, keys: Seq<Seq<char>>) -> Seq<ParamId> {
    Seq::new(
        slopes.len() * keys.len(),
        |i: int|
            ParamId::grouped(
                keys[i % keys.len() as int],
                slope_name(slopes[i / keys.len() as int]),
            ),
    )
}

/// The coefficients, in the order of the columns.
pub open spec fn coefficient_ids(
    intercept: bool,
    x: Seq<Seq<char>>,
    keys: Seq<Seq<char>>,
    slopes: Seq<Seq<char>>,
) -> Seq<ParamId> {
    crate::catalog::common::intercept_ids(intercept) + crate::draws::coefficients(
        crate::types::global_group(),
        x,
    ) + crate::draws::one_each(keys, "group_effect"@) + slope_ids(slopes, keys)
}

/// The parameters, in the order in which draws report them: the residual scale last.
pub open spec fn param_ids(
    intercept: bool,
    x: Seq<Seq<char>>,
    keys: Seq<Seq<char>>,
    slopes: Seq<Seq<char>>,
) -> Seq<ParamId> {
    coefficient_ids(intercept, x, keys, slopes) + seq![ParamId::global("sigma"@)]
}

/// One indicator column per group.
pub open spec fn indicators(group_of: Seq<usize>, n_groups: int) -> Seq<Seq<Double>> {
    Seq::new(n_groups as nat, |g: int| crate::catalog::common::indicator(group_of, g))
}

/// A predictor in the rows of a group, and zero elsewhere.
pub open spec fn own_slope(values: Seq<Double>, group_of: Seq<usize>, group: int) -> Seq<Double> {
    Seq::new(
        group_of.len(),
        |i: int|
            if group_of[i] == group {
                values[i]
            } else {
                Double { bits: 0 }
            },
    )
}

/// The columns of the groups' own coefficients, predictor after predictor.
pub open spec fn slope_columns(
    predictors: Seq<Seq<Double>>,
    group_of: Seq<usize>,
    n_groups: int,
) -> Seq<Seq<Double>> {
    Seq::new(
        predictors.len() * n_groups as nat,
        |i: int| own_slope(predictors[i / n_groups], group_of, i % n_groups),
    )
}

/// The columns of a relation, group after group.
pub open spec fn predictors(data: DataView, names: Seq<Seq<char>>, panel: PanelView) -> Seq<
    Seq<Double>,
> {
    Seq::new(
        names.len(),
        |k: int| crate::data::gathered(data.column(names[k])->0, panel.order()),
    )
}

/// The keys that carry an effect: those of the groups that a column names.
pub open spec fn effect_keys(asked: Asked, panel: PanelView) -> Seq<Seq<char>> {
    if asked.group is Some {
        panel.keys()
    } else {
        Seq::empty()
    }
}

impl Read {
    pub open spec fn of(data: DataView, asked: Asked, panel: PanelView) -> Read {
        let keys = effect_keys(asked, panel);
        Read {
            params: param_ids(asked.intercept, asked.x, keys, asked.random_slopes),
            y: crate::data::gathered(data.column(asked.y)->0, panel.order()),
            x: crate::catalog::common::intercept_column(asked.intercept, panel.order().len())
                + predictors(data, asked.x, panel) + indicators(
                panel.group_of(),
                keys.len() as int,
            ) + slope_columns(
                predictors(data, asked.random_slopes, panel),
                panel.group_of(),
                keys.len() as int,
            ),
            n_groups: if keys.len() > 1 {
                keys.len() as int
            } else {
                1
            },
            n_fixed: asked.n_fixed(),
            intercept: asked.intercept,
            pool_scale: asked.pool_scale,
            prior: asked.prior,
        }
    }
}

/// How many coefficients there are: those of the population, and per group its level and
/// its slopes.
pub open spec fn coefficient_count(asked: Asked, n_groups: int) -> int {
    asked.n_fixed() + n_groups + asked.random_slopes.len() * n_groups
}

/// What a request makes of a relation: the design, or the first thing that stands in its
/// way.
pub open spec fn designed(cfg: Scope, data: DataView) -> Result<Read, Fault> {
    match Asked::of(cfg) {
        Err(f) => Err(f),
        Ok(asked) => match crate::panel::panel_of(data, asked.columns(), asked.group, false) {
            Err(f) => Err(f),
            Ok(panel) => {
                let n = panel.rows.len();
                let p = coefficient_count(asked, effect_keys(asked, panel).len() as int);
                if n <= p {
                    Err(
                        Fault::InsufficientData {
                            rows: n as usize,
                            params: if p <= usize::MAX {
                                p as usize
                            } else {
                                usize::MAX
                            },
                        },
                    )
                } else {
                    Ok(Read::of(data, asked, panel))
                }
            },
        },
    }
}

/// What a request reads of a relation, or the first thing wrong with its options and
/// columns.
pub open spec fn reads(cfg: Scope, data: DataView) -> Result<Entries, Fault> {
    match Asked::of(cfg) {
        Err(f) => Err(f),
        Ok(asked) => crate::reading::reading_of(
            data,
            asked.columns(),
            crate::panel::group_columns(asked.group),
        ),
    }
}

/// A fit has one response per row that was read.
pub proof fn a_fit_holds_every_row_read(cfg: Scope, data: DataView)
    ensures
        designed(cfg, data) matches Ok(model) ==> (reads(cfg, data) matches Ok(r) && model.y.len()
            == r.rows.len()),
{
    if let Ok(asked) = Asked::of(cfg) {
        crate::panel::a_panel_holds_each_row_read_once(
            data,
            asked.columns(),
            asked.group,
            false,
        );
    }
}

/// Two relations that were read alike give the same fit, wherever one of them gives any:
/// nothing else of a relation reaches it.
pub proof fn what_is_read_decides_the_fit(cfg: Scope, a: DataView, b: DataView)
    requires
        designed(cfg, a) is Ok,
        reads(cfg, b) is Ok,
        reads(cfg, a)->Ok_0.same_entries(reads(cfg, b)->Ok_0),
    ensures
        designed(cfg, a) == designed(cfg, b),
{
    let asked = Asked::of(cfg)->Ok_0;
    let columns = asked.columns();
    crate::reading::what_is_read_decides_the_panel(a, b, columns, asked.group, false);
    let m = designed(cfg, a)->Ok_0;
    let n = designed(cfg, b)->Ok_0;
    let mine = crate::panel::panel_of(a, columns, asked.group, false)->Ok_0;
    let theirs = crate::panel::panel_of(b, columns, asked.group, false)->Ok_0;
    assert(columns[0] == asked.y);
    assert forall|k: int| 0 <= k < asked.x.len() implies #[trigger] predictors(
        a,
        asked.x,
        mine,
    )[k] == predictors(b, asked.x, theirs)[k] by {
        assert(columns[1 + k] == asked.x[k]);
    }
    assert(predictors(a, asked.x, mine) =~= predictors(b, asked.x, theirs));
    let checks = slope_checks(asked.random_slopes, asked.x);
    crate::data::lemma_no_fault(checks);
    assert forall|k: int| 0 <= k < asked.random_slopes.len() implies #[trigger] predictors(
        a,
        asked.random_slopes,
        mine,
    )[k] == predictors(b, asked.random_slopes, theirs)[k] by {
        assert(checks[k] is None);
        let j = choose|j: int| 0 <= j < asked.x.len() && asked.x[j] == asked.random_slopes[k];
        assert(columns[1 + j] == asked.x[j]);
    }
    assert(predictors(a, asked.random_slopes, mine) =~= predictors(
        b,
        asked.random_slopes,
        theirs,
    ));
    assert(m =~= n);
}

/// Whether the table of a prior may be written as it is.
pub open spec fn prior_is_sound(entries: Seq<Entry>) -> bool {
    &&& crate::config::only(entries, seq!["beta_scale"@, "a0"@, "s0"@])
    &&& crate::config::takes_number(entries, "beta_scale"@)
    &&& crate::config::number_or(entries, "beta_scale"@, Double { bits: 0x7FF0_0000_0000_0000 }).scaled() > 0
    &&& crate::config::takes_number(entries, "a0"@)
    &&& crate::config::takes_non_negative(entries, "s0"@)
}

/// Whether a prior is the one that its table asks for: each number from the slot of its own
/// name, and its default where nothing is written.
pub open spec fn prior_is_as_written(entries: Seq<Entry>, prior: Prior) -> bool {
    &&& prior.beta_scale == crate::config::number_or(
        entries,
        "beta_scale"@,
        Double { bits: 0x7FF0_0000_0000_0000 },
    )
    &&& prior.a0 == crate::config::number_or(entries, "a0"@, Double { bits: 0 })
    &&& prior.s0 == crate::config::number_or(entries, "s0"@, Double { bits: 0 })
}

proof fn lemma_prior_asked(cfg: Scope)
    ensures
        Prior::asked(cfg) is Ok <==> prior_is_sound(cfg.entries),
        Prior::asked(cfg) matches Ok(prior) ==> prior_is_as_written(cfg.entries, prior),
{
    assert(crate::text::words(PRIOR_SLOTS@) =~= seq!["beta_scale"@, "a0"@, "s0"@]);
    crate::config::an_unknown_slot_is_named_by_its_path(cfg, crate::text::words(PRIOR_SLOTS@));
    crate::config::a_number_slot_gives_the_number_written(
        cfg,
        "beta_scale"@,
        Double { bits: 0x7FF0_0000_0000_0000 },
    );
    crate::config::a_number_slot_gives_the_number_written(cfg, "a0"@, Double { bits: 0 });
    crate::config::a_number_slot_gives_the_number_written(cfg, "s0"@, Double { bits: 0 });
    crate::double::zero_is_nothing();
    crate::double::the_bits_of_a_number_order_it(
        Double { bits: 0 },
        Double { bits: 0x7FF0_0000_0000_0000 },
    );
}

/// Whether the options of a request may be written as they are: there must be something to
/// estimate, and a predictor with a slope of its own per group must be one, named once, of a
/// grouped relation.
pub open spec fn request_is_sound(entries: Seq<Entry>) -> bool {
    let x = crate::config::texts_of(entries, "x"@);
    let slopes = crate::config::texts_of(entries, "random_slopes"@);
    &&& crate::config::only(
        entries,
        seq![
            "y"@,
            "x"@,
            "intercept"@,
            "group"@,
            "random_slopes"@,
            "pool_scale"@,
            "prior"@,
            "draws"@,
            "chains"@,
            "seed"@,
            "engine"@,
        ],
    )
    &&& crate::config::text_of(entries, "y"@) is Some
    &&& crate::config::takes_texts(entries, "x"@)
    &&& crate::config::takes_number(entries, "intercept"@)
    &&& crate::config::takes_text(entries, "group"@)
    &&& crate::config::takes_texts(entries, "random_slopes"@)
    &&& crate::config::takes_positive(entries, "pool_scale"@)
    &&& crate::config::takes_table(entries, "prior"@)
    &&& prior_is_sound(crate::config::table_of(entries, "prior"@))
    &&& x.len() > 0 || has_intercept(entries) || crate::config::text_of(entries, "group"@) is Some
    &&& slopes.len() > 0 ==> crate::config::text_of(entries, "group"@) is Some
    &&& forall|s: int| 0 <= s < slopes.len() ==> x.contains(#[trigger] slopes[s])
    &&& forall|s: int, t: int|
        0 <= s < t < slopes.len() ==> (#[trigger] slopes[s]) != (#[trigger] slopes[t])
}

/// Whether the options ask for an intercept: by any number but zero, or by none.
pub open spec fn has_intercept(entries: Seq<Entry>) -> bool {
    crate::config::number_or(
        entries,
        "intercept"@,
        Double { bits: 0x3FF0_0000_0000_0000 },
    ).scaled() != 0
}

/// A request is what its options say, each taken from the slot of its own name, and it is
/// served exactly when its options may be written as they are. The scale of the pooling is
/// the number written, and one where none is.
pub proof fn a_request_is_what_its_options_say(cfg: Scope)
    ensures
        Asked::of(cfg) is Ok <==> request_is_sound(cfg.entries),
        Asked::of(cfg) matches Ok(asked) ==> {
            let e = cfg.entries;
            &&& Some(asked.y) == crate::config::text_of(e, "y"@)
            &&& asked.x == crate::config::texts_of(e, "x"@)
            &&& asked.intercept == has_intercept(e)
            &&& asked.group == crate::config::text_of(e, "group"@)
            &&& asked.random_slopes == crate::config::texts_of(e, "random_slopes"@)
            &&& asked.pool_scale == crate::config::number_or(
                e,
                "pool_scale"@,
                Double { bits: 0x3FF0_0000_0000_0000 },
            )
            &&& prior_is_as_written(crate::config::table_of(e, "prior"@), asked.prior)
        },
{
    let one = Double { bits: 0x3FF0_0000_0000_0000 };
    let known = crate::text::words(SLOTS@);
    assert(known =~= seq![
        "y"@,
        "x"@,
        "intercept"@,
        "group"@,
        "random_slopes"@,
        "pool_scale"@,
        "prior"@,
        "draws"@,
        "chains"@,
        "seed"@,
        "engine"@,
    ]);
    crate::config::an_unknown_slot_is_named_by_its_path(cfg, known);
    crate::config::a_text_slot_gives_the_text_written(cfg, "y"@);
    crate::config::a_text_slot_gives_the_text_written(cfg, "x"@);
    crate::config::a_text_slot_gives_the_text_written(cfg, "group"@);
    crate::config::a_text_slot_gives_the_text_written(cfg, "random_slopes"@);
    crate::config::a_number_slot_gives_the_number_written(cfg, "intercept"@, one);
    crate::config::a_number_slot_gives_the_number_written(cfg, "pool_scale"@, one);
    crate::config::a_text_slot_gives_the_text_written(cfg, "prior"@);
    if let Ok(table) = cfg.table("prior"@) {
        lemma_prior_asked(table);
    }
    crate::double::zero_is_nothing();
    crate::double::the_bits_of_a_number_order_it(Double { bits: 0 }, one);
    let x = crate::config::texts_of(cfg.entries, "x"@);
    let slopes = crate::config::texts_of(cfg.entries, "random_slopes"@);
    lemma_slope_checks(slopes, x);
}

proof fn lemma_slope_checks(slopes: Seq<Seq<char>>, x: Seq<Seq<char>>)
    ensures
        crate::data::first_fault(slope_checks(slopes, x)) is None <==> (forall|s: int|
            0 <= s < slopes.len() ==> x.contains(#[trigger] slopes[s])) && (forall|s: int, t: int|
            0 <= s < t < slopes.len() ==> (#[trigger] slopes[s]) != (#[trigger] slopes[t])),
{
    let checks = slope_checks(slopes, x);
    if crate::data::first_fault(checks) is None {
        crate::data::lemma_no_fault(checks);
        assert forall|s: int| 0 <= s < slopes.len() implies x.contains(#[trigger] slopes[s]) by {
            assert(checks[s] is None);
        }
        assert forall|s: int, t: int| 0 <= s < t < slopes.len() implies (#[trigger] slopes[s]) != (
        #[trigger] slopes[t]) by {
            assert(checks[t] is None);
            assert(slopes.take(t)[s] == slopes[s]);
        }
    } else if (forall|s: int| 0 <= s < slopes.len() ==> x.contains(#[trigger] slopes[s])) && (
    forall|s: int, t: int|
        0 <= s < t < slopes.len() ==> (#[trigger] slopes[s]) != (#[trigger] slopes[t])) {
        assert forall|t: int| 0 <= t < checks.len() implies (#[trigger] checks[t]) is None by {
            assert(x.contains(slopes[t]));
            if slopes.take(t).contains(slopes[t]) {
                let s = choose|s: int| 0 <= s < t && slopes.take(t)[s] == slopes[t];
                assert(slopes[s] == slopes[t]);
            }
        }
        crate::data::lemma_first_fault(checks, checks.len() as int);
    }
}

/// The names of the number columns that a request names.
pub open spec fn columns_named(entries: Seq<Entry>) -> Seq<Seq<char>> {
    seq![crate::config::text_of(entries, "y"@)->0] + crate::config::texts_of(entries, "x"@)
}

/// The names of the label columns that a request names.
pub open spec fn keys_named(entries: Seq<Entry>) -> Seq<Seq<char>> {
    match crate::config::text_of(entries, "group"@) {
        Some(name) => seq![name],
        None => Seq::empty(),
    }
}

/// Whether rows and groups are those of the relation: every complete row once, and, where a
/// column of labels is named, each in the group of its own label.
pub open spec fn reads_the_rows(
    entries: Seq<Entry>,
    data: DataView,
    rows: Seq<usize>,
    group_of: Seq<usize>,
    labels: Seq<Seq<char>>,
) -> bool {
    &&& crate::panel::each_present_row_once(
        data,
        columns_named(entries),
        keys_named(entries),
        rows,
    )
    &&& match crate::config::text_of(entries, "group"@) {
        Some(name) => crate::panel::grouped_by_label(
            data.key_column(name)->0,
            rows,
            group_of,
            labels,
        ),
        None => labels.len() == 0 && forall|i: int, j: int|
            0 <= i < j < rows.len() ==> (#[trigger] rows[i]) < (#[trigger] rows[j]),
    }
}

/// Whether a column of a design is that of a parameter.
pub open spec fn is_column_of(
    design: PooledDesign,
    j: int,
    group: Seq<char>,
    name: Seq<char>,
    column: Seq<Double>,
) -> bool {
    &&& 0 <= j < design.x@.len()
    &&& design.params@[j].group_id@ == group
    &&& design.params@[j].name@ == name
    &&& design.x@[j]@ == column
}

/// Whether a design holds the values of those rows, in that order, column by column under
/// the name of the coefficient: ones for the intercept, the predictors, per group a one in
/// the rows of its own, and per predictor with slopes and group the predictor in those rows.
pub open spec fn holds_the_rows(
    entries: Seq<Entry>,
    data: DataView,
    design: PooledDesign,
    rows: Seq<usize>,
    group_of: Seq<usize>,
    labels: Seq<Seq<char>>,
) -> bool {
    let x = crate::config::texts_of(entries, "x"@);
    let slopes = crate::config::texts_of(entries, "random_slopes"@);
    let one = Double { bits: 0x3FF0_0000_0000_0000 };
    let zero = Double { bits: 0 };
    let first = if has_intercept(entries) {
        1int
    } else {
        0int
    };
    let fixed = first + x.len();
    let n = rows.len();
    let global = "__global__"@;
    &&& design.y@ == Seq::new(
        n,
        |i: int|
            data.column(crate::config::text_of(entries, "y"@)->0)->0.values@[rows[i] as int],
    )
    &&& design.x@.len() == fixed + labels.len() + slopes.len() * labels.len()
    &&& has_intercept(entries) ==> is_column_of(
        design,
        0,
        global,
        "intercept"@,
        Seq::new(n, |i: int| one),
    )
    &&& forall|k: int|
        #![trigger x[k]]
        0 <= k < x.len() ==> is_column_of(
            design,
            first + k,
            global,
            "beta["@ + x[k] + "]"@,
            Seq::new(n, |i: int| data.column(x[k])->0.values@[rows[i] as int]),
        )
    &&& forall|g: int|
        #![trigger labels[g]]
        0 <= g < labels.len() ==> is_column_of(
            design,
            fixed + g,
            labels[g],
            "group_effect"@,
            Seq::new(
                n,
                |i: int|
                    if group_of[i] == g {
                        one
                    } else {
                        zero
                    },
            ),
        )
    &&& forall|s: int, g: int|
        #![trigger slopes[s], labels[g]]
        0 <= s < slopes.len() && 0 <= g < labels.len() ==> is_column_of(
            design,
            fixed + labels.len() + s * labels.len() + g,
            labels[g],
            "group_slope["@ + slopes[s] + "]"@,
            Seq::new(
                n,
                |i: int|
                    if group_of[i] == g {
                        data.column(slopes[s])->0.values@[rows[i] as int]
                    } else {
                        zero
                    },
            ),
        )
    &&& design.params@.len() == design.x@.len() + 1
    &&& design.params@[design.x@.len() as int].group_id@ == global
    &&& design.params@[design.x@.len() as int].name@ == "sigma"@
}

proof fn lemma_rows_read(cfg: Config, data: DataView, panel: PanelView)
    requires
        Asked::of(cfg@) is Ok,
        crate::panel::panel_of(
            data,
            Asked::of(cfg@)->Ok_0.columns(),
            Asked::of(cfg@)->Ok_0.group,
            false,
        ) == Ok::<PanelView, Fault>(panel),
    ensures
        reads_the_rows(
            cfg.entries@,
            data,
            panel.order(),
            panel.group_of(),
            effect_keys(Asked::of(cfg@)->Ok_0, panel),
        ),
        panel.group_of().len() == panel.order().len(),
        panel.order().len() == panel.rows.len(),
{
    let e = cfg.entries@;
    a_request_is_what_its_options_say(cfg@);
    let asked = Asked::of(cfg@)->Ok_0;
    let columns = asked.columns();
    assert(columns =~= columns_named(e));
    crate::panel::a_panel_holds_each_row_read_once(data, columns, asked.group, false);
    match asked.group {
        Some(name) => {
            crate::panel::a_panel_puts_each_row_into_its_own_group(data, columns, name, false);
        },
        None => {
            crate::panel::an_ungrouped_panel_is_one_group(data, columns, false);
        },
    }
}

/// Each complete row of the relation is in the design once, with its own values: the
/// response, every predictor, and the columns of the group of its own label.
#[verifier::rlimit(40)]
pub proof fn a_row_keeps_its_own_values(cfg: Config, data: DataView, design: PooledDesign)
    requires
        designed(cfg@, data) == Ok::<Read, Fault>(design@),
    ensures
        exists|rows: Seq<usize>, group_of: Seq<usize>, labels: Seq<Seq<char>>|
            #[trigger] reads_the_rows(cfg.entries@, data, rows, group_of, labels)
                && holds_the_rows(cfg.entries@, data, design, rows, group_of, labels),
{
    let e = cfg.entries@;
    a_request_is_what_its_options_say(cfg@);
    let asked = Asked::of(cfg@)->Ok_0;
    let panel = crate::panel::panel_of(data, asked.columns(), asked.group, false)->Ok_0;
    lemma_rows_read(cfg, data, panel);
    let rows = panel.order();
    let group_of = panel.group_of();
    let labels = effect_keys(asked, panel);
    assert(design@ == Read::of(data, asked, panel));
    assert(design@.x.len() == design.x@.len());
    assert(design@.params.len() == design.params@.len());
    let n = rows.len();
    let x = asked.x;
    let slopes = asked.random_slopes;
    let m = labels.len() as int;
    let first = if asked.intercept {
        1int
    } else {
        0int
    };
    let fixed = first + x.len();
    let one = Double { bits: 0x3FF0_0000_0000_0000 };
    let zero = Double { bits: 0 };
    let own = slope_columns(predictors(data, slopes, panel), group_of, m);
    let ids = slope_ids(slopes, labels);
    assert(slopes.len() * m >= 0) by (nonlinear_arith)
        requires
            m >= 0,
    ;
    assert forall|j: int| 0 <= j < design.x@.len() implies (#[trigger] design.x@[j])@
        == design@.x[j] && design.params@[j]@ == design@.params[j] by {}
    assert(design.y@ =~= Seq::new(
        n,
        |i: int| data.column(asked.y)->0.values@[rows[i] as int],
    ));
    if asked.intercept {
        assert(design@.x[0] =~= Seq::new(n, |i: int| one));
        assert(design.params@[0]@ == design@.params[0]);
    }
    assert forall|k: int| #![trigger x[k]] 0 <= k < x.len() implies is_column_of(
        design,
        first + k,
        "__global__"@,
        "beta["@ + x[k] + "]"@,
        Seq::new(n, |i: int| data.column(x[k])->0.values@[rows[i] as int]),
    ) by {
        assert(design@.x[first + k] == predictors(data, x, panel)[k]);
        assert(design@.x[first + k] =~= Seq::new(
            n,
            |i: int| data.column(x[k])->0.values@[rows[i] as int],
        ));
        assert(design@.params[first + k] == crate::draws::coefficients(
            crate::types::global_group(),
            x,
        )[k]);
        assert(design.params@[first + k]@ == design@.params[first + k]);
        assert(design.x@[first + k]@ == design@.x[first + k]);
    }
    assert forall|g: int| #![trigger labels[g]] 0 <= g < m implies is_column_of(
        design,
        fixed + g,
        labels[g],
        "group_effect"@,
        Seq::new(
            n,
            |i: int|
                if group_of[i] == g {
                    one
                } else {
                    zero
                },
        ),
    ) by {
        assert(design@.x[fixed + g] == indicators(group_of, m)[g]);
        assert(design@.x[fixed + g] =~= Seq::new(
            n,
            |i: int|
                if group_of[i] == g {
                    one
                } else {
                    zero
                },
        ));
        assert(design@.params[fixed + g] == crate::draws::one_each(labels, "group_effect"@)[g]);
        assert(design.params@[fixed + g]@ == design@.params[fixed + g]);
        assert(design.x@[fixed + g]@ == design@.x[fixed + g]);
    }
    assert forall|s: int, g: int|
        #![trigger slopes[s], labels[g]]
        0 <= s < slopes.len() && 0 <= g < m implies is_column_of(
        design,
        fixed + m + s * m + g,
        labels[g],
        "group_slope["@ + slopes[s] + "]"@,
        Seq::new(
            n,
            |i: int|
                if group_of[i] == g {
                    data.column(slopes[s])->0.values@[rows[i] as int]
                } else {
                    zero
                },
        ),
    ) by {
        lemma_slope_place(s, g, m);
        let at = s * m + g;
        assert(0 <= at < slopes.len() * m) by (nonlinear_arith)
            requires
                at == s * m + g,
                0 <= s < slopes.len(),
                0 <= g < m,
        ;
        let j = fixed + m + at;
        assert(design@.x[j] == own[at]);
        assert(design@.x[j] =~= Seq::new(
            n,
            |i: int|
                if group_of[i] == g {
                    data.column(slopes[s])->0.values@[rows[i] as int]
                } else {
                    zero
                },
        ));
        assert(design@.params[j] == ids[at]);
        assert(design.params@[j]@ == design@.params[j]);
        assert(design.x@[j]@ == design@.x[j]);
    }
    let last = design.x@.len() as int;
    assert(design.params@[last]@ == design@.params[last]);
    assert(holds_the_rows(e, data, design, rows, group_of, labels));
}

/// Groups of the same rows by the same labels are as many.
proof fn lemma_as_many_labels(
    entries: Seq<Entry>,
    data: DataView,
    rows: Seq<usize>,
    group_of: Seq<usize>,
    labels: Seq<Seq<char>>,
    other_rows: Seq<usize>,
    other_group_of: Seq<usize>,
    other_labels: Seq<Seq<char>>,
)
    requires
        reads_the_rows(entries, data, rows, group_of, labels),
        reads_the_rows(entries, data, other_rows, other_group_of, other_labels),
    ensures
        labels.len() == other_labels.len(),
        rows.len() == other_rows.len(),
{
    crate::panel::lemma_same_rows_read(
        data,
        columns_named(entries),
        keys_named(entries),
        rows,
        other_rows,
    );
    if crate::config::text_of(entries, "group"@) is Some {
        let column = data.key_column(crate::config::text_of(entries, "group"@)->0)->0;
        crate::panel::lemma_as_many_labels(
            column,
            rows,
            group_of,
            labels,
            other_rows,
            other_group_of,
            other_labels,
        );
    }
}

/// A design is written exactly when the options are sound, the columns are there, and there
/// are more complete rows than coefficients: those of the population, one per group, and
/// one per group and predictor with slopes.
pub proof fn a_design_is_written_exactly_when_it_can_be(
    cfg: Config,
    data: DataView,
    rows: Seq<usize>,
    group_of: Seq<usize>,
    labels: Seq<Seq<char>>,
)
    requires
        reads_the_rows(cfg.entries@, data, rows, group_of, labels),
    ensures
        designed(cfg@, data) is Ok <==> {
            let e = cfg.entries@;
            let names = columns_named(e);
            let x = crate::config::texts_of(e, "x"@);
            let slopes = crate::config::texts_of(e, "random_slopes"@);
            &&& request_is_sound(e)
            &&& forall|c: int| 0 <= c < names.len() ==> data.column(#[trigger] names[c]) is Some
            &&& crate::config::text_of(e, "group"@) matches Some(name) ==> data.key_column(
                name,
            ) is Some
            &&& rows.len() > x.len() + (if has_intercept(e) {
                1int
            } else {
                0int
            }) + labels.len() + slopes.len() * labels.len()
        },
{
    let e = cfg.entries@;
    a_request_is_what_its_options_say(cfg@);
    if request_is_sound(e) {
        let asked = Asked::of(cfg@)->Ok_0;
        let columns = asked.columns();
        assert(columns =~= columns_named(e));
        match asked.group {
            Some(name) => {
                crate::panel::a_panel_is_read_exactly_when_it_can_be(data, columns, name, rows);
            },
            None => {
                crate::panel::the_rows_read_are_the_complete_ones(data, columns, Seq::empty());
            },
        }
        if let Ok(panel) = crate::panel::panel_of(data, columns, asked.group, false) {
            lemma_rows_read(cfg, data, panel);
            lemma_as_many_labels(
                e,
                data,
                rows,
                group_of,
                labels,
                panel.order(),
                panel.group_of(),
                effect_keys(asked, panel),
            );
        }
    }
}

/// A design has the scale of pooling and the prior that its options say: where a number is
/// written in the slot `pool_scale`, that number, and one only where none is. It counts the
/// coefficients of the population and the groups, and computes each coefficient as its own
/// coordinate and the residual scale as the exponential of the last.
pub proof fn a_design_carries_its_options(cfg: Config, data: DataView, design: PooledDesign)
    requires
        designed(cfg@, data) == Ok::<Read, Fault>(design@),
        design.wf(),
    ensures
        ({
            let e = cfg.entries@;
            let p = design.x@.len() as int;
            &&& match crate::config::written(e, "pool_scale"@) {
                Some(Value::Number(v)) => design.pool_scale == v && v.finite() && v.scaled() > 0,
                Some(_) => false,
                None => design.pool_scale == (Double { bits: 0x3FF0_0000_0000_0000 }),
            }
            &&& prior_is_as_written(crate::config::table_of(e, "prior"@), design.prior)
            &&& design.intercept == has_intercept(e)
            &&& design.n_fixed == crate::config::texts_of(e, "x"@).len() + (if has_intercept(e) {
                1int
            } else {
                0int
            })
            &&& formulas(p).len() == design.params@.len()
            &&& forall|j: int|
                0 <= j < p ==> (#[trigger] formulas(p)[j]) == (Formula::Coordinate {
                    at: j as usize,
                })
            &&& formulas(p)[p] == (Formula::Exp { at: p as usize })
        }),
{
    a_request_is_what_its_options_say(cfg@);
    crate::config::a_lookup_finds_what_is_written(cfg@, "pool_scale"@);
    let asked = Asked::of(cfg@)->Ok_0;
    let panel = crate::panel::panel_of(data, asked.columns(), asked.group, false)->Ok_0;
    assert(design@ == Read::of(data, asked, panel));
}

/// The intercept carries no prior, a predictor that of the slopes, and everything that
/// belongs to a group that of the groups.
pub proof fn a_coefficient_has_the_precision_of_its_kind(
    cfg: Config,
    data: DataView,
    design: PooledDesign,
    slope: Double,
    group: Double,
    j: int,
)
    requires
        designed(cfg@, data) == Ok::<Read, Fault>(design@),
        0 <= j < design.x@.len(),
    ensures
        ({
            let e = cfg.entries@;
            let p = precisions(
                design.intercept,
                design.n_fixed as int,
                design.x@.len() as int,
                slope,
                group,
            );
            let first = if has_intercept(e) {
                1int
            } else {
                0int
            };
            let fixed = first + crate::config::texts_of(e, "x"@).len();
            &&& p.len() == design.x@.len()
            &&& j < first ==> p[j] == (Double { bits: 0 })
            &&& first <= j < fixed ==> p[j] == slope
            &&& fixed <= j ==> p[j] == group
        }),
{
    a_request_is_what_its_options_say(cfg@);
    let asked = Asked::of(cfg@)->Ok_0;
    let panel = crate::panel::panel_of(data, asked.columns(), asked.group, false)->Ok_0;
    assert(design@ == Read::of(data, asked, panel));
}

fn push_indicators(x: &mut Vec<Vec<Double>>, group_of: &Vec<usize>, n_groups: usize)
    ensures
        crate::data::lists(final(x)@) == crate::data::lists(old(x)@) + indicators(
            group_of@,
            n_groups as int,
        ),
{
    let ghost before = crate::data::lists(x@);
    let mut g: usize = 0;
    proof {
        assert(before =~= before + indicators(group_of@, 0));
    }
    while g < n_groups
        invariant
            g <= n_groups,
            crate::data::lists(x@) == before + indicators(group_of@, g as int),
        decreases n_groups - g,
    {
        let ghost earlier = x@;
        x.push(column_of_group(group_of, g));
        g += 1;
        proof {
            assert(crate::data::lists(x@) =~= crate::data::lists(earlier).push(
                x@[x@.len() - 1]@,
            ));
            assert(crate::data::lists(x@) =~= before + indicators(group_of@, g as int));
        }
    }
}

/// A place within the block of a predictor belongs to that predictor and to its own group.
proof fn lemma_slope_place(s: int, g: int, n_groups: int)
    requires
        0 <= s,
        0 <= g < n_groups,
    ensures
        (s * n_groups + g) / n_groups == s,
        (s * n_groups + g) % n_groups == g,
{
    lemma_fundamental_div_mod_converse(s * n_groups + g, n_groups, s, g);
}

fn column_of_slope(values: &Vec<Double>, group_of: &Vec<usize>, group: usize) -> (r: Vec<Double>)
    requires
        values@.len() == group_of@.len(),
    ensures
        r@ == own_slope(values@, group_of@, group as int),
{
    let mut out: Vec<Double> = Vec::new();
    let mut k: usize = 0;
    while k < group_of.len()
        invariant
            k <= group_of@.len(),
            values@.len() == group_of@.len(),
            out@ == own_slope(values@, group_of@, group as int).take(k as int),
        decreases group_of@.len() - k,
    {
        if group_of[k] == group {
            out.push(values[k]);
        } else {
            out.push(Double { bits: 0 });
        }
        k += 1;
        proof {
            assert(out@ =~= own_slope(values@, group_of@, group as int).take(k as int));
        }
    }
    proof {
        assert(out@ =~= own_slope(values@, group_of@, group as int));
    }
    out
}

fn push_slope_columns(
    x: &mut Vec<Vec<Double>>,
    slopes: &Vec<Vec<Double>>,
    group_of: &Vec<usize>,
    n_groups: usize,
)
    requires
        forall|s: int| 0 <= s < slopes@.len() ==> (#[trigger] slopes@[s])@.len() == group_of@.len(),
    ensures
        crate::data::lists(final(x)@) == crate::data::lists(old(x)@) + slope_columns(
            crate::data::lists(slopes@),
            group_of@,
            n_groups as int,
        ),
{
    let ghost before = crate::data::lists(x@);
    let ghost values = crate::data::lists(slopes@);
    let ghost all = slope_columns(values, group_of@, n_groups as int);
    let mut s: usize = 0;
    proof {
        assert(0 * n_groups == 0);
        assert(before =~= before + all.take(0));
    }
    while s < slopes.len()
        invariant
            s <= slopes@.len(),
            forall|t: int|
                0 <= t < slopes@.len() ==> (#[trigger] slopes@[t])@.len() == group_of@.len(),
            values == crate::data::lists(slopes@),
            all == slope_columns(values, group_of@, n_groups as int),
            crate::data::lists(x@) == before + all.take(s * n_groups),
        decreases slopes@.len() - s,
    {
        let mut g: usize = 0;
        proof {
            assert((s + 1) * n_groups == s * n_groups + n_groups) by (nonlinear_arith);
            assert((s + 1) * n_groups <= slopes@.len() * n_groups) by (nonlinear_arith)
                requires
                    s + 1 <= slopes@.len(),
            ;
            assert(0 <= s * n_groups) by (nonlinear_arith);
        }
        while g < n_groups
            invariant
                g <= n_groups,
                s < slopes@.len(),
                slopes@[s as int]@.len() == group_of@.len(),
                values == crate::data::lists(slopes@),
                all == slope_columns(values, group_of@, n_groups as int),
                0 <= s * n_groups,
                s * n_groups + n_groups <= all.len(),
                crate::data::lists(x@) == before + all.take(s * n_groups + g),
            decreases n_groups - g,
        {
            let ghost earlier = x@;
            x.push(column_of_slope(&slopes[s], group_of, g));
            proof {
                lemma_slope_place(s as int, g as int, n_groups as int);
                assert(all[s * n_groups + g] == x@[x@.len() - 1]@);
                assert(crate::data::lists(x@) =~= crate::data::lists(earlier).push(
                    x@[x@.len() - 1]@,
                ));
                assert(crate::data::lists(x@) =~= before + all.take(s * n_groups + g + 1));
            }
            g += 1;
        }
        s += 1;
    }
    proof {
        assert(all.take(s * n_groups) =~= all);
    }
}

fn push_slope_names(params: &mut Vec<ParamName>, slopes: &Vec<String>, keys: &Vec<String>)
    ensures
        crate::draws::ids(final(params)@) == crate::draws::ids(old(params)@) + slope_ids(
            crate::text::texts(slopes@),
            crate::text::texts(keys@),
        ),
{
    let ghost before = crate::draws::ids(params@);
    let ghost names = crate::text::texts(slopes@);
    let ghost groups = crate::text::texts(keys@);
    let ghost all = slope_ids(names, groups);
    let ghost n = groups.len() as int;
    let mut s: usize = 0;
    proof {
        assert(0 * n == 0);
        assert(before =~= before + all.take(0));
    }
    while s < slopes.len()
        invariant
            s <= slopes@.len(),
            names == crate::text::texts(slopes@),
            groups == crate::text::texts(keys@),
            n == groups.len(),
            all == slope_ids(names, groups),
            crate::draws::ids(params@) == before + all.take(s * n),
        decreases slopes@.len() - s,
    {
        let name = "group_slope[".to_owned().concat(slopes[s].as_str()).concat("]");
        let ghost block = crate::draws::one_each(groups, name@);
        push_one_each(params, keys, name.as_str());
        proof {
            assert((s + 1) * n == s * n + n) by (nonlinear_arith);
            assert((s + 1) * n <= slopes@.len() * n) by (nonlinear_arith)
                requires
                    s + 1 <= slopes@.len(),
                    0 <= n,
            ;
            assert(0 <= s * n) by (nonlinear_arith)
                requires
                    0 <= n,
            ;
            assert forall|g: int| 0 <= g < n implies (#[trigger] block[g]) == all[s * n + g] by {
                lemma_slope_place(s as int, g, n);
                assert(names[s as int] == slopes@[s as int]@);
            }
            assert(all.take(s * n) + block =~= all.take((s + 1) * n));
            assert(before + all.take(s * n) + block =~= before + (all.take(s * n) + block));
        }
        s += 1;
    }
    proof {
        assert(all.take(s * n) =~= all);
    }
}

/// How many coefficients there are, as far as that can be counted.
fn count_coefficients(n_fixed: usize, n_groups: usize, n_slopes: usize) -> (r: usize)
    ensures
        ({
            let p = n_fixed + n_groups + n_slopes * n_groups;
            r == if p <= usize::MAX {
                p
            } else {
                usize::MAX as int
            }
        }),
{
    proof {
        assert(0 <= n_slopes * n_groups) by (nonlinear_arith);
    }
    match n_slopes.checked_mul(n_groups) {
        None => usize::MAX,
        Some(slopes) => match slopes.checked_add(n_groups) {
            None => usize::MAX,
            Some(own) => match own.checked_add(n_fixed) {
                None => usize::MAX,
                Some(p) => p,
            },
        },
    }
}

/// Reads a request and writes down the design it asks for.
pub fn design(cfg: &Config, data: &DataView) -> (r: BayesResult<PooledDesign>)
    requires
        data.wf(),
        cfg@.list_fits("x"@),
    ensures
        crate::errors::outcome(r) == designed(cfg@, *data),
        r matches Ok(d) ==> d.wf(),
{
    let request = Request::parse(cfg)?;
    let names = request.list_columns();
    let ghost all = crate::text::texts(names@);
    proof {
        assert(request.x@.len() == request@.x.len());
    }
    let panel = read_panel(data, &names, &request.group, false)?;
    proof {
        assert(names@[0]@ == all[0]);
        assert forall|k: int| 0 <= k < request.x@.len() implies data.column(
            (#[trigger] request.x@[k])@,
        ) is Some by {
            assert(names@[1 + k]@ == all[1 + k]);
        }
        let checks = slope_checks(request@.random_slopes, request@.x);
        crate::data::lemma_no_fault(checks);
        assert forall|k: int| 0 <= k < request.random_slopes@.len() implies data.column(
            (#[trigger] request.random_slopes@[k])@,
        ) is Some by {
            assert(checks[k] is None);
            let name = request@.random_slopes[k];
            let j = choose|j: int| 0 <= j < request@.x.len() && request@.x[j] == name;
            assert(request.x@[j]@ == name);
        }
        assert(request.random_slopes@.len() == request@.random_slopes.len());
    }
    let y_column = data.numeric(request.y.as_str())?;
    let x_columns = data.numerics(&request.x)?;
    let slope_sources = data.numerics(&request.random_slopes)?;
    let n = panel.rows.len();
    let none: Vec<String> = Vec::new();
    let keys: &Vec<String> = if request.group.is_some() {
        &panel.keys
    } else {
        &none
    };
    proof {
        assert(crate::text::texts(keys@) =~= effect_keys(request@, panel@));
        assert(crate::text::texts(keys@).len() == keys@.len());
    }
    let mut n_fixed: usize = request.x.len();
    if request.intercept {
        n_fixed += 1;
    }
    let p = count_coefficients(n_fixed, keys.len(), request.random_slopes.len());
    if n <= p {
        return Err(BayesError::InsufficientData { rows: n, params: p });
    }
    let y = gather(y_column, &panel.order);
    let mut x: Vec<Vec<Double>> = Vec::new();
    proof {
        assert(crate::data::lists(x@) =~= Seq::<Seq<Double>>::empty());
    }
    if request.intercept {
        x.push(column_of_ones(panel.order.len()));
    }
    proof {
        assert(crate::data::lists(x@) =~= crate::catalog::common::intercept_column(
            request.intercept,
            panel.order@.len(),
        ));
    }
    push_columns(&mut x, gather_all(&x_columns, &panel.order, data.n_rows));
    push_indicators(&mut x, &panel.group_of, keys.len());
    let slopes = gather_all(&slope_sources, &panel.order, data.n_rows);
    proof {
        assert(crate::data::gathered_all(x_columns@, panel.order@) =~= predictors(
            *data,
            request@.x,
            panel@,
        ));
        assert(crate::data::lists(slopes@) =~= predictors(
            *data,
            request@.random_slopes,
            panel@,
        ));
        assert forall|s: int| 0 <= s < slopes@.len() implies (#[trigger] slopes@[s])@.len()
            == panel.group_of@.len() by {
            assert(crate::data::lists(slopes@)[s] == slopes@[s]@);
        }
    }
    push_slope_columns(&mut x, &slopes, &panel.group_of, keys.len());
    let mut params: Vec<ParamName> = Vec::new();
    proof {
        assert(crate::draws::ids(params@) =~= Seq::<ParamId>::empty());
    }
    if request.intercept {
        push_global(&mut params, "intercept");
    }
    proof {
        assert(crate::draws::ids(params@)
            =~= crate::catalog::common::intercept_ids(request.intercept));
    }
    push_coefficients(&mut params, global_group_key(), &request.x);
    push_one_each(&mut params, keys, "group_effect");
    push_slope_names(&mut params, &request.random_slopes, keys);
    push_global(&mut params, "sigma");
    let n_groups: usize = if keys.len() > 1 {
        keys.len()
    } else {
        1
    };
    let r = PooledDesign {
        params,
        y,
        x,
        n_groups,
        n_fixed,
        intercept: request.intercept,
        pool_scale: request.pool_scale,
        prior: request.prior,
    };
    proof {
        assert(r@ =~= Read::of(*data, request@, panel@));
        assert(r.x@.len() == crate::data::lists(r.x@).len());
        assert(r.params@.len() == crate::draws::ids(r.params@).len());
    }
    Ok(r)
}

/// The prior precision of each of `p` coefficients: none for the intercept, that of the
/// slopes up to `n_fixed`, that of the groups from there on.
pub open spec fn precisions(
    intercept: bool,
    n_fixed: int,
    p: int,
    slope: Double,
    group: Double,
) -> Seq<Double> {
    Seq::new(
        p as nat,
        |j: int|
            if j == 0 && intercept {
                Double { bits: 0 }
            } else if j < n_fixed {
                slope
            } else {
                group
            },
    )
}

/// How many of the first `n` precisions are zero.
pub open spec fn flat_among(s: Seq<Double>, n: nat) -> nat
    decreases n,
{
    if n == 0 {
        0
    } else {
        flat_among(s, (n - 1) as nat) + if s[n - 1].same_value(Double { bits: 0 }) {
            1nat
        } else {
            0nat
        }
    }
}

/// How many coefficients carry a flat prior: each costs a degree of freedom.
pub fn n_flat(precision: &Vec<Double>) -> (r: usize)
    ensures
        r == flat_among(precision@, precision@.len()),
{
    let zero = Double::zero();
    let mut n: usize = 0;
    let mut k: usize = 0;
    while k < precision.len()
        invariant
            k <= precision@.len(),
            n <= k,
            zero.bits == 0,
            n == flat_among(precision@, k as nat),
        decreases precision@.len() - k,
    {
        if precision[k].equals(zero) {
            n += 1;
        }
        k += 1;
    }
    n
}

impl PooledDesign {
    pub open spec fn wf(self) -> bool {
        &&& self.params@.len() == self.x@.len() + 1
        &&& self.x@.len() < usize::MAX
        &&& self.n_fixed <= self.x@.len()
        &&& self.intercept ==> self.n_fixed >= 1
        &&& self.x@.len() < self.y@.len()
    }

    /// How many coefficients there are.
    pub fn n_coefficients(&self) -> (r: usize)
        ensures
            r == self.x@.len(),
    {
        self.x.len()
    }

    /// The prior precision of every coefficient, given the inverse squares of the scale of
    /// the slopes and of the groups. A scale without bound is no prior at all.
    pub fn precision(&self, slope_inverse_square: Double, group_inverse_square: Double) -> (r: Vec<
        Double,
    >)
        requires
            self.wf(),
        ensures
            r@ == precisions(
                self.intercept,
                self.n_fixed as int,
                self.x@.len() as int,
                if self.prior.beta_scale.finite() {
                    slope_inverse_square
                } else {
                    Double { bits: 0 }
                },
                group_inverse_square,
            ),
    {
        let slope = if self.prior.beta_scale.is_finite() {
            slope_inverse_square
        } else {
            Double::zero()
        };
        let p = self.x.len();
        let ghost all = precisions(
            self.intercept,
            self.n_fixed as int,
            p as int,
            slope,
            group_inverse_square,
        );
        let mut out: Vec<Double> = Vec::new();
        let mut j: usize = 0;
        proof {
            assert(out@ =~= all.take(0));
        }
        while j < p
            invariant
                j <= p,
                all == precisions(
                    self.intercept,
                    self.n_fixed as int,
                    p as int,
                    slope,
                    group_inverse_square,
                ),
                out@ == all.take(j as int),
            decreases p - j,
        {
            if j == 0 && self.intercept {
                out.push(Double::zero());
            } else if j < self.n_fixed {
                out.push(slope);
            } else {
                out.push(group_inverse_square);
            }
            j += 1;
            proof {
                assert(out@ =~= all.take(j as int));
            }
        }
        proof {
            assert(out@ =~= all);
        }
        out
    }

    /// Judges the posterior of the residual variance that the factored design gives, or
    /// refuses a design that could not be factored.
    pub fn judge(self, variance: Option<VariancePosterior>) -> (r: BayesResult<
        CompiledPooledGaussian,
    >)
        requires
            self.wf(),
        ensures
            match variance {
                None => r matches Err(e) && e@ == Fault::SingularMatrix,
                Some(v) => r matches Ok(m) && m.design == self && m.variance == v
                    && m.readiness@ == verdict_on(self@, v),
            },
    {
        match variance {
            None => Err(BayesError::SingularMatrix),
            Some(v) => {
                let zero = Double::zero();
                proof {
                    assert(self@.x.len() == self.x@.len());
                }
                let readiness = if v.a_n.at_most(zero) || v.s_n.at_most(zero) {
                    Readiness::degenerate(
                        Message::of(
                            "the response is perfectly explained by the design (".to_owned().concat(
                                decimal(self.y.len()).as_str(),
                            ).concat(" observations, ").concat(
                                decimal(self.x.len()).as_str(),
                            ).concat(
                                " parameters), so the residual variance is not estimable",
                            ),
                        ),
                    )
                } else {
                    Readiness::ready()
                };
                Ok(CompiledPooledGaussian { design: self, variance: v, readiness })
            },
        }
    }
}

/// The Inverse-Gamma posterior of the residual variance, by shape and scale.
#[derive(Debug, Clone, Copy, PartialEq, Eq, Structural)]
pub struct VariancePosterior {
    pub a_n: Double,
    pub s_n: Double,
}

impl VariancePosterior {
    /// Whether it is a distribution.
    pub open spec fn proper(self) -> bool {
        self.a_n.positive() && self.s_n.positive()
    }
}

/// The verdict on a design with that posterior of the residual variance.
pub open spec fn verdict_on(design: Read, v: VariancePosterior) -> Verdict {
    let zero = Double { bits: 0 };
    if v.a_n.le(zero) || v.s_n.le(zero) {
        Verdict::because(
            FitStatus::Degenerate,
            Message::saying(
                "the response is perfectly explained by the design ("@ + crate::text::numeral(
                    design.y.len(),
                ) + " observations, "@ + crate::text::numeral(design.x.len())
                    + " parameters), so the residual variance is not estimable"@,
            ),
        )
    } else {
        Verdict::ready()
    }
}

/// A compiled model.
#[derive(Debug)]
pub struct CompiledPooledGaussian {
    pub design: PooledDesign,
    pub variance: VariancePosterior,
    pub readiness: Readiness,
}

/// How the parameters are computed from the coordinates: the coefficients as they are,
/// the residual scale as the exponential of its own.
pub open spec fn formulas(p: int) -> Seq<Formula> {
    crate::formula::coordinates(0, p as nat) + seq![Formula::Exp { at: p as usize }]
}

impl CompiledPooledGaussian {
    pub fn n_obs(&self) -> (r: usize)
        ensures
            r == self.design.y@.len(),
    {
        self.design.y.len()
    }

    pub fn n_groups(&self) -> (r: usize)
        ensures
            r == self.design.n_groups,
    {
        self.design.n_groups
    }

    pub fn dim(&self) -> (r: usize)
        requires
            self.design.wf(),
        ensures
            r == self.design.x@.len() + 1,
    {
        self.design.x.len() + 1
    }

    /// Refuses buffers that do not hold one entry per coordinate.
    pub fn check_gradient_buffers(&self, theta: usize, out: usize) -> (r: BayesResult<()>)
        requires
            self.design.wf(),
        ensures
            r is Ok <==> theta == self.design.x@.len() + 1 && out == self.design.x@.len() + 1,
            r matches Err(e) ==> e@ == Fault::coordinates((self.design.x@.len() + 1) as nat, theta, out),
    {
        BayesError::check_coordinates(self.dim(), theta, out)
    }

    /// Refuses a draw buffer that does not hold one slot per parameter.
    pub fn check_draw_buffer(&self, slots: usize) -> (r: BayesResult<()>)
        ensures
            r is Ok <==> slots == self.design.params@.len(),
            r matches Err(e) ==> e@ == Fault::slots(self.design.params@.len(), slots as nat),
    {
        BayesError::check_slots(self.design.params.len(), slots)
    }

    /// Whether there is a posterior to draw from; where there is none, draws are absent.
    pub fn draws_exist(&self) -> (r: bool)
        ensures
            r == self.variance.proper(),
    {
        self.variance.a_n.is_positive() && self.variance.s_n.is_positive()
    }

    /// How each parameter is computed from the coordinates, in the order of the names.
    pub fn constrain(&self) -> (r: Vec<Formula>)
        requires
            self.design.wf(),
        ensures
            r@ == formulas(self.design.x@.len() as int),
    {
        let p = self.design.x.len();
        let mut out: Vec<Formula> = Vec::new();
        push_coordinates(&mut out, 0, p);
        out.push(Formula::Exp { at: p });
        proof {
            assert(out@ =~= formulas(p as int));
        }
        out
    }
}

/// Only coefficients without a prior cost a degree of freedom: where slopes and groups
/// carry one, that is the intercept alone; where the slopes do not, it is every
/// coefficient that belongs to no group.
pub proof fn only_flat_coefficients_cost_a_degree_of_freedom(
    intercept: bool,
    n_fixed: int,
    p: int,
    slope: Double,
    group: Double,
)
    requires
        0 <= n_fixed <= p,
        intercept ==> 1 <= n_fixed,
        !group.same_value(Double { bits: 0 }),
    ensures
        ({
            let flat = flat_among(precisions(intercept, n_fixed, p, slope, group), p as nat);
            if slope.same_value(Double { bits: 0 }) {
                flat == n_fixed
            } else {
                flat == if intercept {
                    1int
                } else {
                    0int
                }
            }
        }),
{
    lemma_flat(intercept, n_fixed, p, slope, group, p as nat);
}

proof fn lemma_flat(
    intercept: bool,
    n_fixed: int,
    p: int,
    slope: Double,
    group: Double,
    n: nat,
)
    requires
        0 <= n_fixed <= p,
        n <= p,
        intercept ==> 1 <= n_fixed,
        !group.same_value(Double { bits: 0 }),
    ensures
        ({
            let flat = flat_among(precisions(intercept, n_fixed, p, slope, group), n);
            if slope.same_value(Double { bits: 0 }) {
                flat == if n < n_fixed {
                    n as int
                } else {
                    n_fixed
                }
            } else {
                flat == if intercept && n > 0 {
                    1int
                } else {
                    0int
                }
            }
        }),
    decreases n,
{
    let zero = Double { bits: 0 };
    assert(zero.same_value(zero));
    if n > 0 {
        lemma_flat(intercept, n_fixed, p, slope, group, (n - 1) as nat);
    }
}

/// Every parameter has a formula, every formula reads a coordinate that exists, and the
/// parameter of that number is the one that reads it.
pub proof fn every_parameter_has_a_formula(
    intercept: bool,
    x: Seq<Seq<char>>,
    keys: Seq<Seq<char>>,
    slopes: Seq<Seq<char>>,
    i: int,
)
    requires
        coefficient_ids(intercept, x, keys, slopes).len() < usize::MAX,
        0 <= i < param_ids(intercept, x, keys, slopes).len(),
    ensures
        ({
            let p = coefficient_ids(intercept, x, keys, slopes).len() as int;
            &&& formulas(p).len() == param_ids(intercept, x, keys, slopes).len()
            &&& formulas(p)[i].reads_within(p + 1)
            &&& formulas(p)[i].reads(i)
        }),
{
}

/// The design has one column per coefficient and one entry per row in each.
pub proof fn the_design_has_a_column_per_coefficient(
    data: DataView,
    asked: Asked,
    panel: PanelView,
    j: int,
)
    requires
        panel.group_of().len() == panel.order().len(),
        0 <= j < Read::of(data, asked, panel).x.len(),
    ensures
        Read::of(data, asked, panel).x.len() == coefficient_count(
            asked,
            effect_keys(asked, panel).len() as int,
        ),
        Read::of(data, asked, panel).params.len() == Read::of(data, asked, panel).x.len() + 1,
        Read::of(data, asked, panel).x[j].len() == Read::of(data, asked, panel).y.len(),
{
}

/// A row of a grouped design carries a one in the column of its own group and a zero in
/// that of every other.
pub proof fn a_row_belongs_to_one_group_column(
    data: DataView,
    asked: Asked,
    panel: PanelView,
    row: int,
    g: int,
)
    requires
        asked.group is Some,
        panel.group_of().len() == panel.order().len(),
        0 <= row < panel.order().len(),
        0 <= g < panel.keys().len(),
    ensures
        Read::of(data, asked, panel).x[asked.n_fixed() + g][row] == if panel.group_of()[row] == g {
            Double { bits: ONE_BITS }
        } else {
            Double { bits: 0 }
        },
{
}

/// Where a group has a slope of its own, its column holds the predictor in the rows of the
/// group and zero in every other, its prior is that of the group effects, and its name is
/// the predictor's, under the key of the group.
pub proof fn a_random_slope_reads_its_own_group_alone(
    data: DataView,
    asked: Asked,
    panel: PanelView,
    s: int,
    g: int,
    row: int,
    slope: Double,
    group: Double,
)
    requires
        asked.group is Some,
        panel.group_of().len() == panel.order().len(),
        0 <= s < asked.random_slopes.len(),
        0 <= g < panel.keys().len(),
        0 <= row < panel.order().len(),
    ensures
        ({
            let read = Read::of(data, asked, panel);
            let j = asked.n_fixed() + panel.keys().len() + s * panel.keys().len() + g;
            &&& j < read.x.len()
            &&& read.x[j][row] == if panel.group_of()[row] == g {
                data.column(asked.random_slopes[s])->0.values@[panel.order()[row] as int]
            } else {
                Double { bits: 0 }
            }
            &&& precisions(
                asked.intercept,
                read.n_fixed,
                read.x.len() as int,
                slope,
                group,
            )[j] == group
            &&& read.params[j] == ParamId::grouped(
                panel.keys()[g],
                slope_name(asked.random_slopes[s]),
            )
        }),
{
    let n = panel.keys().len() as int;
    let m = asked.random_slopes.len() as int;
    lemma_slope_place(s, g, n);
    assert(s * n + g < m * n) by (nonlinear_arith)
        requires
            0 <= s < m,
            0 <= g < n,
    ;
    assert(0 <= s * n) by (nonlinear_arith)
        requires
            0 <= s,
            0 <= n,
    ;
}

/// Where the arithmetic stayed within the numbers, the verdict withholds a fit exactly
/// when there is no posterior to draw from.
pub proof fn draws_are_absent_exactly_when_the_fit_is_degenerate(
    design: Read,
    v: VariancePosterior,
)
    requires
        !v.a_n.nan(),
        !v.s_n.nan(),
    ensures
        verdict_on(design, v).status == FitStatus::Degenerate <==> !v.proper(),
{
    let zero = Double { bits: 0 };
    assert(zero.scaled() == 0 && !zero.nan());
}

/// A fit is degenerate exactly where the shape or the scale of the posterior of its residual
/// variance is a number that is not above zero, and ready otherwise.
pub proof fn a_fit_without_residual_variance_is_degenerate(design: Read, v: VariancePosterior)
    ensures
        ({
            let status = verdict_on(design, v).status;
            let spent = (!v.a_n.nan() && v.a_n.scaled() <= 0) || (!v.s_n.nan() && v.s_n.scaled()
                <= 0);
            status == if spent {
                FitStatus::Degenerate
            } else {
                FitStatus::Converged
            }
        }),
{
    crate::double::zero_is_nothing();
}

/// What is read for the identity of the data is what a fit is made of: every column that the
/// options name, at every complete row, and nothing else.
pub proof fn the_columns_read_are_the_ones_named(cfg: Config, data: DataView, reading: Reading)
    requires
        reads(cfg@, data) == Ok::<Entries, Fault>(reading@),
    ensures
        crate::reading::holds_the_columns(
            data,
            columns_named(cfg.entries@),
            keys_named(cfg.entries@),
            reading,
        ),
{
    a_request_is_what_its_options_say(cfg@);
    let asked = Asked::of(cfg@)->Ok_0;
    assert(asked.columns() =~= columns_named(cfg.entries@));
    assert(crate::panel::group_columns(asked.group) =~= keys_named(cfg.entries@));
    crate::reading::a_reading_holds_the_named_columns(
        data,
        columns_named(cfg.entries@),
        keys_named(cfg.entries@),
        reading,
    );
}

/// A sound request that a relation cannot serve is refused for a column that is not there, or
/// for fewer rows than it takes, with both numbers.
pub proof fn a_refusal_says_what_is_wrong(
    cfg: Config,
    data: DataView,
    rows: Seq<usize>,
    group_of: Seq<usize>,
    labels: Seq<Seq<char>>,
    e: BayesError,
)
    requires
        data.wf(),
        designed(cfg@, data) == Err::<Read, Fault>(e@),
        request_is_sound(cfg.entries@),
        reads_the_rows(cfg.entries@, data, rows, group_of, labels),
    ensures
        ({
            let entries = cfg.entries@;
            let names = columns_named(entries);
            let keys = keys_named(entries);
            let slopes = crate::config::texts_of(entries, "random_slopes"@);
            let coefficients = crate::config::texts_of(entries, "x"@).len() + (if has_intercept(
                entries,
            ) {
                1int
            } else {
                0int
            }) + labels.len() + slopes.len() * labels.len();
            if (exists|c: int| 0 <= c < names.len() && data.column(#[trigger] names[c]) is None) || (
            exists|c: int| 0 <= c < keys.len() && data.key_column(#[trigger] keys[c]) is None) {
                crate::panel::names_a_missing_column(data, names, keys, e)
            } else {
                e matches BayesError::InsufficientData { rows: n, params } && n == rows.len()
                    && params == if coefficients <= usize::MAX {
                    coefficients
                } else {
                    usize::MAX as int
                }
            }
        }),
{
    let entries = cfg.entries@;
    a_request_is_what_its_options_say(cfg@);
    let asked = Asked::of(cfg@)->Ok_0;
    let columns = asked.columns();
    assert(columns =~= columns_named(entries));
    let keys = crate::panel::group_columns(asked.group);
    assert(keys =~= keys_named(entries));
    crate::panel::the_rows_read_are_the_complete_ones(data, columns, keys);
    crate::errors::an_error_says_what_it_holds(e);
    match crate::panel::panel_of(data, columns, asked.group, false) {
        Err(f) => {
            crate::panel::a_panel_is_refused_for_what_is_missing(
                data,
                columns,
                asked.group,
                false,
                e,
            );
            if let Some(name) = asked.group {
                assert(keys[0] == name);
            }
        },
        Ok(panel) => {
            lemma_rows_read(cfg, data, panel);
            crate::data::usable_rows_are_no_more_than_rows(data, columns, keys);
            lemma_as_many_labels(
                entries,
                data,
                rows,
                group_of,
                labels,
                panel.order(),
                panel.group_of(),
                effect_keys(asked, panel),
            );
        },
    }
}

/// Whether the predictors with slopes are predictors, each named once.
pub open spec fn slopes_are_sound(entries: Seq<Entry>) -> bool {
    let x = crate::config::texts_of(entries, "x"@);
    let slopes = crate::config::texts_of(entries, "random_slopes"@);
    &&& forall|s: int| 0 <= s < slopes.len() ==> x.contains(#[trigger] slopes[s])
    &&& forall|s: int, t: int|
        0 <= s < t < slopes.len() ==> (#[trigger] slopes[s]) != (#[trigger] slopes[t])
}

/// Whether a slot of the options is at fault: it is not known, or what is written in it may not
/// stand there, or the prior is not sound.
pub open spec fn is_at_fault(entries: Seq<Entry>, slot: Seq<char>) -> bool {
    ||| exists|i: int|
        0 <= i < entries.len() && slot == (#[trigger] entries[i]).name@ && !seq![
            "y"@,
            "x"@,
            "intercept"@,
            "group"@,
            "random_slopes"@,
            "pool_scale"@,
            "prior"@,
            "draws"@,
            "chains"@,
            "seed"@,
            "engine"@,
        ].contains(slot)
    ||| slot == "y"@ && (crate::config::text_of(entries, "y"@) is None)
    ||| slot == "x"@ && ((!crate::config::takes_texts(entries, "x"@))
        || (crate::config::texts_of(entries, "x"@).len() == 0 && !has_intercept(entries) && crate::config::text_of(entries, "group"@) is None))
    ||| slot == "intercept"@ && (!crate::config::takes_number(entries, "intercept"@))
    ||| slot == "group"@ && (!crate::config::takes_text(entries, "group"@))
    ||| slot == "random_slopes"@ && ((!crate::config::takes_texts(entries, "random_slopes"@))
        || (crate::config::texts_of(entries, "random_slopes"@).len() > 0 && (crate::config::text_of(entries, "group"@) is None
        || !slopes_are_sound(entries))))
    ||| slot == "pool_scale"@ && (!crate::config::takes_positive(entries, "pool_scale"@))
    ||| !(crate::config::takes_table(entries, "prior"@) && prior_is_sound(
        crate::config::table_of(entries, "prior"@),
    ))
}

/// A request that is refused for its options names a slot that is at fault.
#[verifier::rlimit(40)]
pub proof fn the_slot_that_is_named_is_at_fault(cfg: Config)
    ensures
        Asked::of(cfg@) matches Err(f) ==> (f matches Fault::Config { slot, .. } && is_at_fault(
            cfg.entries@,
            slot,
        )),
{
    let entries = cfg.entries@;
    let known = crate::text::words(SLOTS@);
    assert(known =~= seq![
        "y"@,
        "x"@,
        "intercept"@,
        "group"@,
        "random_slopes"@,
        "pool_scale"@,
        "prior"@,
        "draws"@,
        "chains"@,
        "seed"@,
        "engine"@,
    ]);
    crate::config::an_unknown_slot_is_named_by_its_path(cfg@, known);
    assert forall|name: Seq<char>| #[trigger] (Seq::<char>::empty() + name) == name by {
        assert(Seq::<char>::empty() + name =~= name);
    }
    crate::config::a_text_slot_gives_the_text_written(cfg@, "y"@);
    crate::config::a_refused_slot_is_named_by_its_path(
        cfg@,
        "y"@,
        Double { bits: 0 },
        0,
        1,
        0,
        Seq::empty(),
        "y"@,
    );
    crate::config::a_text_slot_gives_the_text_written(cfg@, "x"@);
    crate::config::a_refused_slot_is_named_by_its_path(
        cfg@,
        "x"@,
        Double { bits: 0 },
        0,
        1,
        0,
        Seq::empty(),
        "x"@,
    );
    crate::config::a_number_slot_gives_the_number_written(
        cfg@,
        "intercept"@,
        Double { bits: 0x3FF0_0000_0000_0000 },
    );
    crate::config::a_refused_slot_is_named_by_its_path(
        cfg@,
        "intercept"@,
        Double { bits: 0x3FF0_0000_0000_0000 },
        0,
        1,
        0,
        Seq::empty(),
        "intercept"@,
    );
    crate::config::a_text_slot_gives_the_text_written(cfg@, "group"@);
    crate::config::a_refused_slot_is_named_by_its_path(
        cfg@,
        "group"@,
        Double { bits: 0 },
        0,
        1,
        0,
        Seq::empty(),
        "group"@,
    );
    crate::config::a_text_slot_gives_the_text_written(cfg@, "random_slopes"@);
    crate::config::a_refused_slot_is_named_by_its_path(
        cfg@,
        "random_slopes"@,
        Double { bits: 0 },
        0,
        1,
        0,
        Seq::empty(),
        "random_slopes"@,
    );
    crate::config::a_number_slot_gives_the_number_written(
        cfg@,
        "pool_scale"@,
        Double { bits: 0x3FF0_0000_0000_0000 },
    );
    crate::config::a_refused_slot_is_named_by_its_path(
        cfg@,
        "pool_scale"@,
        Double { bits: 0x3FF0_0000_0000_0000 },
        0,
        1,
        0,
        Seq::empty(),
        "pool_scale"@,
    );
    let x = crate::config::texts_of(entries, "x"@);
    let slopes = crate::config::texts_of(entries, "random_slopes"@);
    lemma_slope_checks(slopes, x);
    crate::data::lemma_fault_of_a_check(slope_checks(slopes, x));
    crate::double::zero_is_nothing();
    crate::double::the_bits_of_a_number_order_it(
        Double { bits: 0 },
        Double { bits: 0x3FF0_0000_0000_0000 },
    );
    crate::config::a_text_slot_gives_the_text_written(cfg@, "prior"@);
    if let Ok(table) = cfg@.table("prior"@) {
        lemma_prior_asked(table);
    }
}

impl PooledGaussian {
    pub fn id(&self) -> (r: &'static str)
        ensures
            r@ == ID@,
    {
        ID
    }

    pub fn code(&self) -> (r: FamilyCode)
        ensures
            r == FamilyCode::PooledGaussian,
    {
        FamilyCode::PooledGaussian
    }

    pub fn description(&self) -> (r: &'static str)
        ensures
            r@ == DESCRIPTION@,
    {
        DESCRIPTION
    }

    pub fn default_engine(&self) -> (r: EngineKind)
        ensures
            r == EngineKind::Exact,
    {
        EngineKind::Exact
    }

    pub fn config_slots(&self) -> (r: [&'static str; 11])
        ensures
            r == SLOTS,
    {
        SLOTS
    }

    /// Reads a request and writes down the design it asks for.
    pub fn compile(&self, cfg: &Config, data: &DataView) -> (r: BayesResult<PooledDesign>)
        requires
            data.wf(),
            cfg@.list_fits("x"@),
        ensures
            crate::errors::outcome(r) == designed(cfg@, *data),
            r matches Ok(d) ==> d.wf(),
    {
        design(cfg, data)
    }

    /// The columns and rows that a fit of this request reads: what the fingerprint of its
    /// data is taken of.
    pub fn reading(&self, cfg: &Config, data: &DataView) -> (r: BayesResult<Reading>)
        requires
            data.wf(),
        ensures
            crate::errors::outcome(r) == reads(cfg@, *data),
    {
        let request = Request::parse(cfg)?;
        read_columns(data, request.list_columns(), &request.group)
    }
}

} // verus!
