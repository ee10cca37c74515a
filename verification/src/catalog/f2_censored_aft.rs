//! Censored durations: how long until the thing happens, when some of the things have not
//! happened yet.
//!
//! Each group is an independent fit. The library reads the rows, hands out one request per
//! group, judges each reply through [`crate::bridge`], and lays the posteriors that exist
//! out as blocks. A refused group keeps its names: its draws are absent, not missing.
use crate::bridge::{
    fit_censored_aft, AftDistribution, AftFit, Bridged, Bridging, Censored, CensoredAftRequest,
    Matrix, Options, Posterior, PriorSpec, StatsError, VcovType,
};
use crate::catalog::common::ONE_BITS;
use crate::config::{Config, Entry, Scope, Value};
use crate::data::{gather, gather_all, DataView, Group, Members, NumericColumn};
use crate::double::Double;
use crate::draws::{push_coefficients, push_grouped, ParamId, ParamName};
use crate::errors::{BayesError, BayesResult, Fault, Message};
use crate::formula::{push_coordinates, Formula};
use crate::panel::{read_panel, PanelView};
use crate::readiness::{Readiness, Verdict};
use crate::reading::{read_columns, Entries, Reading};
use crate::text::{contains_text, push_text, push_texts};
use crate::types::{EngineKind, FamilyCode, FitStatus};
use vstd::arithmetic::div_mod::*;
use vstd::prelude::*;

verus! {

/// The family of censored duration models.
#[derive(Debug)]
pub struct CensoredAft;

pub const SLOTS: [&'static str; 13] = [
    "time",
    "event",
    "x",
    "intercept",
    "group",
    "dist",
    "prior",
    "draws",
    "chains",
    "max_draw_megabytes",
    "seed",
    "engine",
    "sample_from",
];

pub const DISTRIBUTIONS: [&'static str; 4] = [
    "weibull",
    "lognormal",
    "loglogistic",
    "exponential",
];

pub const PRIOR_SLOTS: [&'static str; 1] = ["beta_scale"];

pub const ID: &'static str = "censored_aft";

pub const DESCRIPTION: &'static str =
    "Accelerated failure time regression with right censoring (Weibull, lognormal, \
     log-logistic, exponential), bridged onto anofox-statistics' likelihood and \
     served as a Laplace posterior; the inference layer for delivery-promise and \
     time-to-event questions.";

pub const NOTHING_TO_ESTIMATE: &'static str =
    "a duration model with no predictors and no intercept has nothing to \
     estimate";

pub const NOT_A_PREDICTOR: &'static str =
    "the duration and the event indicator may not also be predictors";

/// What a request asks for.
#[derive(Debug)]
pub struct Request {
    pub time: String,
    pub event: String,
    pub x: Vec<String>,
    pub intercept: bool,
    pub group: Option<String>,
    pub dist: AftDistribution,
    /// The scale of the coefficients' prior; without bound, they carry none.
    pub beta_scale: Double,
}

/// What a [`Request`] says.
#[verifier::ext_equal]
pub struct Asked {
    pub time: Seq<char>,
    pub event: Seq<char>,
    pub x: Seq<Seq<char>>,
    pub intercept: bool,
    pub group: Option<Seq<char>>,
    pub dist: AftDistribution,
    pub beta_scale: Double,
}

impl View for Request {
    type V = Asked;

    open spec fn view(&self) -> Asked {
        Asked {
            time: self.time@,
            event: self.event@,
            x: crate::text::texts(self.x@),
            intercept: self.intercept,
            group: crate::data::name_of(self.group),
            dist: self.dist,
            beta_scale: self.beta_scale,
        }
    }
}

/// The distribution that a name stands for.
pub open spec fn dist_asked(name: Seq<char>) -> Result<AftDistribution, Fault> {
    match AftDistribution::named(name) {
        Some(dist) => Ok(dist),
        None => Err(Fault::config("dist"@, "unknown AFT distribution '"@ + name + "'"@)),
    }
}

impl Asked {
    /// The request that the options make, or the first thing wrong with them.
    pub open spec fn of(cfg: Scope) -> Result<Asked, Fault> {
        let zero = Double { bits: 0 };
        let time = cfg.required_text("time"@);
        let event = cfg.required_text("event"@);
        let x = cfg.text_list("x"@);
        let intercept = cfg.number("intercept"@, Double { bits: ONE_BITS });
        let group = cfg.optional_text("group"@);
        let chosen = cfg.choice("dist"@, crate::text::words(DISTRIBUTIONS@), "weibull"@);
        let dist = dist_asked(chosen->Ok_0);
        let table = cfg.table("prior"@);
        let beta_scale = table->Ok_0.number("beta_scale"@, Double::spec_infinity());
        if let Some(f) = cfg.unknown_slot(crate::text::words(SLOTS@)) {
            Err(f)
        } else if let Err(f) = time {
            Err(f)
        } else if let Err(f) = event {
            Err(f)
        } else if let Err(f) = x {
            Err(f)
        } else if let Err(f) = intercept {
            Err(f)
        } else if let Err(f) = group {
            Err(f)
        } else if let Err(f) = chosen {
            Err(f)
        } else if let Err(f) = dist {
            Err(f)
        } else if let Err(f) = table {
            Err(f)
        } else if let Some(f) = table->Ok_0.unknown_slot(crate::text::words(PRIOR_SLOTS@)) {
            Err(f)
        } else if let Err(f) = beta_scale {
            Err(f)
        } else if beta_scale->Ok_0.le(zero) {
            Err(Fault::config("prior.beta_scale"@, "must be > 0"@))
        } else if x->Ok_0.len() == 0 && intercept->Ok_0.same_value(zero) {
            Err(Fault::config("x"@, NOTHING_TO_ESTIMATE@))
        } else if x->Ok_0.contains(time->Ok_0) || x->Ok_0.contains(event->Ok_0) {
            Err(Fault::config("x"@, NOT_A_PREDICTOR@))
        } else {
            Ok(
                Asked {
                    time: time->Ok_0,
                    event: event->Ok_0,
                    x: x->Ok_0,
                    intercept: !intercept->Ok_0.same_value(zero),
                    group: group->Ok_0,
                    dist: dist->Ok_0,
                    beta_scale: beta_scale->Ok_0,
                },
            )
        }
    }

    /// The number columns that the request reads.
    pub open spec fn columns(self) -> Seq<Seq<char>> {
        seq![self.time, self.event] + self.x
    }

    /// How many coefficients a group has.
    pub open spec fn n_coef(self) -> nat {
        self.x.len() + if self.intercept {
            1nat
        } else {
            0nat
        }
    }

    /// How many parameters a group reports: its coefficients and its scale.
    pub open spec fn width(self) -> nat {
        self.n_coef() + 1
    }

    /// The priors of the coefficients. The intercept never carries one: to shrink a level
    /// of durations toward zero would be to claim that everything happens at once.
    pub open spec fn priors(self) -> Seq<PriorSpec> {
        if self.beta_scale.finite() {
            (if self.intercept {
                seq![PriorSpec::Flat]
            } else {
                Seq::empty()
            }) + Seq::new(
                self.x.len(),
                |k: int| PriorSpec::Normal { mean: Double { bits: 0 }, sd: self.beta_scale },
            )
        } else {
            Seq::empty()
        }
    }
}

impl Request {
    /// Reads a request from its options.
    pub fn parse(cfg: &Config) -> (r: BayesResult<Request>)
        ensures
            crate::errors::outcome(r) == Asked::of(cfg@),
    {
        let cfg = cfg.root();
        cfg.reject_unknown(&SLOTS)?;
        let time = cfg.require_str("time")?;
        let event = cfg.require_str("event")?;
        let x = cfg.str_list("x")?;
        let intercept = cfg.f64_or("intercept", Double { bits: ONE_BITS })?;
        let group = cfg.opt_str("group")?;
        let chosen = cfg.one_of("dist", &DISTRIBUTIONS, "weibull")?;
        let dist = match AftDistribution::from_name(chosen.as_str()) {
            Some(dist) => dist,
            None => {
                return Err(
                    BayesError::config_text(
                        "dist",
                        "unknown AFT distribution '".to_owned().concat(chosen.as_str()).concat(
                            "'",
                        ),
                    ),
                );
            },
        };
        let table = cfg.nested("prior")?;
        table.reject_unknown(&PRIOR_SLOTS)?;
        let beta_scale = table.f64_or("beta_scale", Double::infinity())?;
        if beta_scale.at_most(Double::zero()) {
            return Err(BayesError::config("prior.beta_scale", "must be > 0"));
        }
        let intercept = !intercept.equals(Double::zero());
        proof {
            assert(crate::text::texts(x@).len() == x@.len());
        }
        if x.len() == 0 && !intercept {
            return Err(BayesError::config("x", NOTHING_TO_ESTIMATE));
        }
        if contains_text(&x, time.as_str()) || contains_text(&x, event.as_str()) {
            return Err(BayesError::config("x", NOT_A_PREDICTOR));
        }
        Ok(Request { time, event, x, intercept, group, dist, beta_scale })
    }

    fn list_priors(&self) -> (r: Vec<PriorSpec>)
        ensures
            r@ == self@.priors(),
    {
        let mut out: Vec<PriorSpec> = Vec::new();
        if self.beta_scale.is_finite() {
            if self.intercept {
                out.push(PriorSpec::Flat);
            }
            let ghost first = out@;
            let ghost all = self@.priors();
            let mut k: usize = 0;
            proof {
                assert(all.take(first.len() as int) =~= first);
                assert(self@.x.len() == self.x@.len());
            }
            while k < self.x.len()
                invariant
                    k <= self.x@.len(),
                    self@.x.len() == self.x@.len(),
                    all == self@.priors(),
                    all.len() == first.len() + self.x@.len(),
                    first.len() <= 1,
                    first.len() == if self.intercept {
                        1int
                    } else {
                        0int
                    },
                    self.beta_scale.finite(),
                    out@ == all.take(first.len() + k),
                decreases self.x@.len() - k,
            {
                out.push(PriorSpec::Normal { mean: Double::zero(), sd: self.beta_scale });
                k += 1;
                proof {
                    assert(out@ =~= all.take(first.len() + k));
                }
            }
            proof {
                assert(out@ =~= all);
            }
        }
        out
    }

    /// The number columns that the request reads.
    fn list_columns(&self) -> (r: Vec<String>)
        ensures
            crate::text::texts(r@) == self@.columns(),
    {
        let mut names: Vec<String> = Vec::new();
        proof {
            assert(crate::text::texts(names@) =~= Seq::<Seq<char>>::empty());
        }
        push_text(&mut names, self.time.as_str());
        push_text(&mut names, self.event.as_str());
        push_texts(&mut names, &self.x);
        proof {
            assert(crate::text::texts(names@) =~= self@.columns());
        }
        names
    }
}

/// One group's fit, before it is made.
#[derive(Debug)]
pub struct AftGroup {
    pub key: String,
    pub request: CensoredAftRequest,
    /// The parameters that it reports, by number.
    pub slots: Vec<usize>,
}

/// What an [`AftGroup`] holds.
#[verifier::ext_equal]
pub struct Task {
    pub key: Seq<char>,
    pub request: Censored,
    pub slots: Seq<usize>,
}

impl View for AftGroup {
    type V = Task;

    open spec fn view(&self) -> Task {
        Task { key: self.key@, request: self.request@, slots: self.slots@ }
    }
}

/// The tasks that a sequence of groups holds.
pub open spec fn tasks(s: Seq<AftGroup>) -> Seq<Task> {
    Seq::new(s.len(), |g: int| s[g]@)
}

/// The parameters of one group.
pub open spec fn group_ids(asked: Asked, key: Seq<char>) -> Seq<ParamId> {
    (if asked.intercept {
        seq![ParamId::grouped(key, "intercept"@)]
    } else {
        Seq::empty()
    }) + crate::draws::coefficients(key, asked.x) + seq![ParamId::grouped(key, "sigma"@)]
}

/// The parameters, group after group, in the order in which draws report them.
pub open spec fn param_ids(asked: Asked, keys: Seq<Seq<char>>) -> Seq<ParamId> {
    Seq::new(
        keys.len() * asked.width(),
        |i: int|
            group_ids(asked, keys[i / asked.width() as int])[i % asked.width() as int],
    )
}

/// The numbers of a group's parameters.
pub open spec fn slots_of(width: nat, g: int) -> Seq<usize> {
    Seq::new(width, |k: int| (g * width + k) as usize)
}

/// The fit of one group.
pub open spec fn task_of(data: DataView, asked: Asked, group: Members, g: int) -> Task {
    Task {
        key: group.key,
        request: Censored {
            dist: asked.dist,
            time: crate::data::gathered(data.column(asked.time)->0, group.rows),
            event: crate::data::gathered(data.column(asked.event)->0, group.rows),
            x: Seq::new(
                asked.x.len(),
                |k: int| crate::data::gathered(data.column(asked.x[k])->0, group.rows),
            ),
            intercept: asked.intercept,
            priors: asked.priors(),
        },
        slots: slots_of(asked.width(), g),
    }
}

/// A request with the data it is about: one fit per group.
#[derive(Debug)]
pub struct CensoredAftPlan {
    pub params: Vec<ParamName>,
    pub groups: Vec<AftGroup>,
    pub n_obs: usize,
}

/// What a [`CensoredAftPlan`] holds.
#[verifier::ext_equal]
pub struct Planned {
    pub params: Seq<ParamId>,
    pub groups: Seq<Task>,
    pub n_obs: usize,
}

impl View for CensoredAftPlan {
    type V = Planned;

    open spec fn view(&self) -> Planned {
        Planned {
            params: crate::draws::ids(self.params@),
            groups: tasks(self.groups@),
            n_obs: self.n_obs,
        }
    }
}

impl Planned {
    pub open spec fn of(data: DataView, asked: Asked, panel: PanelView) -> Planned {
        Planned {
            params: param_ids(asked, panel.keys()),
            groups: Seq::new(
                panel.groups.len(),
                |g: int| task_of(data, asked, panel.groups[g], g),
            ),
            n_obs: panel.rows.len() as usize,
        }
    }
}

/// What a request makes of a relation: the fits to be made, or the first thing that stands
/// in their way.
pub open spec fn planned(cfg: Scope, data: DataView) -> Result<Planned, Fault> {
    match Asked::of(cfg) {
        Err(f) => Err(f),
        Ok(asked) => match crate::panel::panel_of(data, asked.columns(), asked.group, true) {
            Err(f) => Err(f),
            Ok(panel) => Ok(Planned::of(data, asked, panel)),
        },
    }
}

/// What a request reads of a relation, or the first thing wrong with its options and
/// columns.
pub open spec fn reads(cfg: Scope, data: DataView) -> Result<Entries, Fault> {
    match Asked::of(cfg) {
        Err(f) => Err(f),
        Ok(asked) => crate::reading::reading_of(
            data,
            asked.columns(),
            crate::panel::group_columns(asked.group),
        ),
    }
}

/// Every row that was read belongs to a fit.
pub proof fn a_fit_holds_every_row_read(cfg: Scope, data: DataView)
    requires
        data.wf(),
    ensures
        planned(cfg, data) matches Ok(plan) ==> (reads(cfg, data) matches Ok(r) && plan.n_obs
            == r.rows.len()),
{
    if let Ok(asked) = Asked::of(cfg) {
        crate::data::usable_rows_are_no_more_than_rows(
            data,
            asked.columns(),
            crate::panel::group_columns(asked.group),
        );
    }
}

/// Two relations that were read alike give the same fit, wherever one of them gives any:
/// nothing else of a relation reaches it.
pub proof fn what_is_read_decides_the_fit(cfg: Scope, a: DataView, b: DataView)
    requires
        planned(cfg, a) is Ok,
        reads(cfg, b) is Ok,
        reads(cfg, a)->Ok_0.same_entries(reads(cfg, b)->Ok_0),
    ensures
        planned(cfg, a) == planned(cfg, b),
{
    let asked = Asked::of(cfg)->Ok_0;
    let columns = asked.columns();
    crate::reading::what_is_read_decides_the_panel(a, b, columns, asked.group, true);
    let m = planned(cfg, a)->Ok_0;
    let n = planned(cfg, b)->Ok_0;
    let mine = crate::panel::panel_of(a, columns, asked.group, true)->Ok_0;
    let theirs = crate::panel::panel_of(b, columns, asked.group, true)->Ok_0;
    assert(columns[0] == asked.time && columns[1] == asked.event);
    assert forall|g: int| 0 <= g < m.groups.len() implies #[trigger] m.groups[g]
        == n.groups[g] by {
        assert(mine.keys()[g] == theirs.keys()[g]);
        assert(mine.groups[g].rows.len() == theirs.groups[g].rows.len());
        let x = m.groups[g].request.x;
        let y = n.groups[g].request.x;
        assert forall|k: int| 0 <= k < asked.x.len() implies #[trigger] x[k] == y[k] by {
            assert(columns[2 + k] == asked.x[k]);
        }
        assert(x =~= y);
        assert(m.groups[g] =~= n.groups[g]);
    }
    assert(m.groups =~= n.groups);
    assert(m =~= n);
}

/// Whether the options ask for an intercept: by any number but zero, or by none.
pub open spec fn has_intercept(entries: Seq<Entry>) -> bool {
    crate::config::number_or(
        entries,
        "intercept"@,
        Double { bits: 0x3FF0_0000_0000_0000 },
    ).scaled() != 0
}

/// The scale of the coefficients' prior that the options ask for: without bound where none is
/// written.
pub open spec fn scale_written(entries: Seq<Entry>) -> Double {
    crate::config::number_or(
        crate::config::table_of(entries, "prior"@),
        "beta_scale"@,
        Double { bits: 0x7FF0_0000_0000_0000 },
    )
}

/// Whether the options of a request may be written as they are: there must be something to
/// estimate, and neither the duration nor the event may be a predictor.
pub open spec fn request_is_sound(entries: Seq<Entry>) -> bool {
    let x = crate::config::texts_of(entries, "x"@);
    let table = crate::config::table_of(entries, "prior"@);
    &&& crate::config::only(
        entries,
        seq![
            "time"@,
            "event"@,
            "x"@,
            "intercept"@,
            "group"@,
            "dist"@,
            "prior"@,
            "draws"@,
            "chains"@,
            "max_draw_megabytes"@,
            "seed"@,
            "engine"@,
            "sample_from"@,
        ],
    )
    &&& crate::config::text_of(entries, "time"@) is Some
    &&& crate::config::text_of(entries, "event"@) is Some
    &&& crate::config::takes_texts(entries, "x"@)
    &&& crate::config::takes_number(entries, "intercept"@)
    &&& crate::config::takes_text(entries, "group"@)
    &&& crate::config::takes_text(entries, "dist"@)
    &&& crate::config::text_of(entries, "dist"@) matches Some(s) ==> s == "weibull"@ || s
        == "lognormal"@ || s == "loglogistic"@ || s == "exponential"@
    &&& crate::config::takes_table(entries, "prior"@)
    &&& crate::config::only(table, seq!["beta_scale"@])
    &&& crate::config::takes_number(table, "beta_scale"@)
    &&& scale_written(entries).scaled() > 0
    &&& x.len() > 0 || has_intercept(entries)
    &&& !x.contains(crate::config::text_of(entries, "time"@)->0)
    &&& !x.contains(crate::config::text_of(entries, "event"@)->0)
}

/// A request is what its options say, each taken from the slot of its own name, and it is
/// served exactly when its options may be written as they are. The distribution is the one of
/// the name written, and Weibull where none is.
pub proof fn a_request_is_what_its_options_say(cfg: Scope)
    ensures
        Asked::of(cfg) is Ok <==> request_is_sound(cfg.entries),
        Asked::of(cfg) matches Ok(asked) ==> {
            let e = cfg.entries;
            &&& Some(asked.time) == crate::config::text_of(e, "time"@)
            &&& Some(asked.event) == crate::config::text_of(e, "event"@)
            &&& asked.x == crate::config::texts_of(e, "x"@)
            &&& asked.intercept == has_intercept(e)
            &&& asked.group == crate::config::text_of(e, "group"@)
            &&& asked.beta_scale == scale_written(e)
            &&& match crate::config::text_of(e, "dist"@) {
                None => asked.dist == AftDistribution::Weibull,
                Some(s) => {
                    ||| s == "weibull"@ && asked.dist == AftDistribution::Weibull
                    ||| s == "lognormal"@ && asked.dist == AftDistribution::LogNormal
                    ||| s == "loglogistic"@ && asked.dist == AftDistribution::LogLogistic
                    ||| s == "exponential"@ && asked.dist == AftDistribution::Exponential
                },
            }
        },
{
    let one = Double { bits: 0x3FF0_0000_0000_0000 };
    let flat = Double { bits: 0x7FF0_0000_0000_0000 };
    let known = crate::text::words(SLOTS@);
    assert(known =~= seq![
        "time"@,
        "event"@,
        "x"@,
        "intercept"@,
        "group"@,
        "dist"@,
        "prior"@,
        "draws"@,
        "chains"@,
        "max_draw_megabytes"@,
        "seed"@,
        "engine"@,
        "sample_from"@,
    ]);
    crate::config::an_unknown_slot_is_named_by_its_path(cfg, known);
    crate::config::a_text_slot_gives_the_text_written(cfg, "time"@);
    crate::config::a_text_slot_gives_the_text_written(cfg, "event"@);
    crate::config::a_text_slot_gives_the_text_written(cfg, "x"@);
    crate::config::a_text_slot_gives_the_text_written(cfg, "group"@);
    crate::config::a_number_slot_gives_the_number_written(cfg, "intercept"@, one);
    let admitted = crate::text::words(DISTRIBUTIONS@);
    assert(admitted =~= seq!["weibull"@, "lognormal"@, "loglogistic"@, "exponential"@]);
    assert(admitted[0] == "weibull"@ && admitted[1] == "lognormal"@ && admitted[2]
        == "loglogistic"@ && admitted[3] == "exponential"@);
    crate::config::a_choice_is_the_word_written(cfg, "dist"@, admitted, "weibull"@);
    crate::bridge::a_distribution_is_known_by_its_name(
        cfg.choice("dist"@, admitted, "weibull"@)->Ok_0,
    );
    crate::config::a_text_slot_gives_the_text_written(cfg, "prior"@);
    if let Ok(table) = cfg.table("prior"@) {
        let inner = crate::text::words(PRIOR_SLOTS@);
        assert(inner =~= seq!["beta_scale"@]);
        crate::config::an_unknown_slot_is_named_by_its_path(table, inner);
        crate::config::a_number_slot_gives_the_number_written(table, "beta_scale"@, flat);
    }
    crate::double::zero_is_nothing();
    crate::double::the_bits_of_a_number_order_it(Double { bits: 0 }, one);
    crate::double::the_bits_of_a_number_order_it(Double { bits: 0 }, flat);
}

/// The names of the number columns that a request names.
pub open spec fn columns_named(entries: Seq<Entry>) -> Seq<Seq<char>> {
    seq![
        crate::config::text_of(entries, "time"@)->0,
        crate::config::text_of(entries, "event"@)->0,
    ] + crate::config::texts_of(entries, "x"@)
}

/// The names of the label columns that a request names.
pub open spec fn keys_named(entries: Seq<Entry>) -> Seq<Seq<char>> {
    match crate::config::text_of(entries, "group"@) {
        Some(name) => seq![name],
        None => Seq::empty(),
    }
}

/// Whether rows are those of a group: those that carry its key, in the order of the relation,
/// or all of them where no column of labels is named.
pub open spec fn are_rows_of(
    entries: Seq<Entry>,
    data: DataView,
    key: Seq<char>,
    rows: Seq<usize>,
) -> bool {
    match crate::config::text_of(entries, "group"@) {
        Some(name) => crate::panel::rows_of_label(data, columns_named(entries), name, key, rows),
        None => {
            &&& key == "__global__"@
            &&& crate::panel::each_present_row_once(
                data,
                columns_named(entries),
                Seq::empty(),
                rows,
            )
            &&& forall|i: int, j: int|
                0 <= i < j < rows.len() ==> (#[trigger] rows[i]) < (#[trigger] rows[j])
        },
    }
}

/// Whether a group holds its own rows: a duration, its event and its predictors stand in the
/// same row.
pub open spec fn group_holds_its_rows(
    entries: Seq<Entry>,
    data: DataView,
    group: AftGroup,
    rows: Seq<usize>,
) -> bool {
    let x = crate::config::texts_of(entries, "x"@);
    let time = data.column(crate::config::text_of(entries, "time"@)->0)->0.values@;
    let event = data.column(crate::config::text_of(entries, "event"@)->0)->0.values@;
    &&& are_rows_of(entries, data, group.key@, rows)
    &&& group.request.time@.len() == rows.len()
    &&& group.request.event@.len() == rows.len()
    &&& group.request.x@.len() == x.len()
    &&& forall|i: int|
        0 <= i < rows.len() ==> (#[trigger] group.request.time@[i]) == time[rows[i] as int]
    &&& forall|i: int|
        0 <= i < rows.len() ==> (#[trigger] group.request.event@[i]) == event[rows[i] as int]
    &&& forall|k: int| 0 <= k < x.len() ==> (#[trigger] group.request.x@[k])@.len() == rows.len()
    &&& forall|k: int, i: int|
        0 <= k < x.len() && 0 <= i < rows.len() ==> (#[trigger] group.request.x@[k]@[i])
            == data.column(x[k])->0.values@[rows[i] as int]
}

/// Whether the groups of a plan hold the complete rows of a relation, each in the group of
/// its own label.
pub open spec fn plan_holds_the_rows(
    entries: Seq<Entry>,
    data: DataView,
    plan: CensoredAftPlan,
    rows: Seq<Seq<usize>>,
) -> bool {
    &&& rows.len() == plan.groups@.len()
    &&& forall|g: int|
        0 <= g < plan.groups@.len() ==> group_holds_its_rows(
            entries,
            data,
            #[trigger] plan.groups@[g],
            rows[g],
        )
    &&& forall|g: int, h: int|
        0 <= g < h < plan.groups@.len() ==> (#[trigger] plan.groups@[g]).key@ != (
        #[trigger] plan.groups@[h]).key@ && rows[g][0] < rows[h][0]
    &&& forall|row: usize|
        row < data.n_rows && #[trigger] crate::panel::all_present(
            data,
            columns_named(entries),
            keys_named(entries),
            row as int,
        ) ==> exists|g: int| 0 <= g < rows.len() && (#[trigger] rows[g]).contains(row)
    &&& crate::config::text_of(entries, "group"@) is None ==> rows.len() == 1
    &&& crate::config::text_of(entries, "group"@) is Some ==> forall|g: int|
        0 <= g < rows.len() ==> (#[trigger] rows[g]).len() > 0
}

/// Each complete row of the relation is in the fit of the group of its own label, with its
/// own duration, event and predictors, and the groups follow each other in the order in which
/// their labels first appear.
pub proof fn a_row_keeps_its_own_values(cfg: Config, data: DataView, plan: CensoredAftPlan)
    requires
        planned(cfg@, data) == Ok::<Planned, Fault>(plan@),
    ensures
        exists|rows: Seq<Seq<usize>>| #[trigger] plan_holds_the_rows(cfg.entries@, data, plan, rows),
{
    let e = cfg.entries@;
    a_request_is_what_its_options_say(cfg@);
    let asked = Asked::of(cfg@)->Ok_0;
    let columns = asked.columns();
    assert(columns =~= columns_named(e));
    let panel = crate::panel::panel_of(data, columns, asked.group, true)->Ok_0;
    let rows = Seq::new(panel.groups.len(), |g: int| panel.groups[g].rows);
    match asked.group {
        Some(name) => {
            crate::panel::a_group_holds_the_rows_of_its_label(data, columns, name, true);
        },
        None => {
            crate::panel::an_ungrouped_panel_is_one_group(data, columns, true);
        },
    }
    crate::panel::the_rows_read_are_the_complete_ones(data, columns, keys_named(e));
    assert(plan@ == Planned::of(data, asked, panel));
    assert(plan@.groups.len() == plan.groups@.len());
    assert forall|g: int| 0 <= g < plan.groups@.len() implies group_holds_its_rows(
        e,
        data,
        #[trigger] plan.groups@[g],
        rows[g],
    ) by {
        let group = plan.groups@[g];
        assert(group@ == plan@.groups[g]);
        assert(panel.groups[g].rows == rows[g]);
        assert(group@.request.x.len() == group.request.x@.len());
        assert forall|k: int| 0 <= k < asked.x.len() implies (#[trigger] group.request.x@[k])@
            == crate::data::gathered(data.column(asked.x[k])->0, rows[g]) by {
            assert(group@.request.x[k] == group.request.x@[k]@);
        }
    }
    assert forall|g: int, h: int| 0 <= g < h < plan.groups@.len() implies (
    #[trigger] plan.groups@[g]).key@ != (#[trigger] plan.groups@[h]).key@ && rows[g][0]
        < rows[h][0] by {
        assert(plan.groups@[g]@ == plan@.groups[g]);
        assert(plan.groups@[h]@ == plan@.groups[h]);
        assert(panel.groups[g].key == plan@.groups[g].key);
        assert(panel.groups[h].key == plan@.groups[h].key);
    }
    assert forall|row: usize|
        row < data.n_rows && #[trigger] crate::panel::all_present(
            data,
            columns_named(e),
            keys_named(e),
            row as int,
        ) implies exists|g: int| 0 <= g < rows.len() && (#[trigger] rows[g]).contains(row) by {
        match asked.group {
            Some(name) => {
                let g = choose|g: int|
                    0 <= g < panel.groups.len() && (#[trigger] panel.groups[g]).rows.contains(row);
                assert(rows[g].contains(row));
            },
            None => {
                assert(panel.groups[0].rows.contains(row));
                assert(rows[0].contains(row));
            },
        }
    }
    if asked.group is Some {
        assert forall|g: int| 0 <= g < rows.len() implies (#[trigger] rows[g]).len() > 0 by {
            assert(panel.groups[g].rows.len() > 0);
        }
    }
    assert(plan_holds_the_rows(e, data, plan, rows));
}

/// Every group of a plan asks for the distribution of the name written, and for Weibull where
/// none is; for the intercept where one is asked for; and for a Normal prior of each predictor
/// at the scale written, with none of the intercept, or for no prior at all where none is
/// written.
pub proof fn every_group_asks_for_the_model_written(
    cfg: Config,
    data: DataView,
    plan: CensoredAftPlan,
    g: int,
)
    requires
        planned(cfg@, data) == Ok::<Planned, Fault>(plan@),
        0 <= g < plan.groups@.len(),
    ensures
        ({
            let e = cfg.entries@;
            let x = crate::config::texts_of(e, "x"@);
            let request = plan.groups@[g].request;
            let options = plan.groups@[g].request@.options();
            let first = if has_intercept(e) {
                1int
            } else {
                0int
            };
            &&& match crate::config::text_of(e, "dist"@) {
                None => request.dist == AftDistribution::Weibull,
                Some(s) => {
                    ||| s == "weibull"@ && request.dist == AftDistribution::Weibull
                    ||| s == "lognormal"@ && request.dist == AftDistribution::LogNormal
                    ||| s == "loglogistic"@ && request.dist == AftDistribution::LogLogistic
                    ||| s == "exponential"@ && request.dist == AftDistribution::Exponential
                },
            }
            &&& options.dist == request.dist
            &&& request.intercept == has_intercept(e)
            &&& options.fit_intercept == has_intercept(e)
            &&& options.priors == request.priors@
            &&& match crate::config::written(crate::config::table_of(e, "prior"@), "beta_scale"@) {
                Some(Value::Number(scale)) => {
                    &&& request.priors@.len() == first + x.len()
                    &&& has_intercept(e) ==> request.priors@[0] == PriorSpec::Flat
                    &&& forall|k: int|
                        first <= k < request.priors@.len() ==> (#[trigger] request.priors@[k]) == (
                        PriorSpec::Normal { mean: Double { bits: 0 }, sd: scale })
                },
                _ => request.priors@.len() == 0,
            }
        }),
{
    let e = cfg.entries@;
    a_request_is_what_its_options_say(cfg@);
    let asked = Asked::of(cfg@)->Ok_0;
    let panel = crate::panel::panel_of(data, asked.columns(), asked.group, true)->Ok_0;
    assert(plan@ == Planned::of(data, asked, panel));
    assert(plan.groups@[g]@ == plan@.groups[g]);
    assert(plan@.groups.len() == plan.groups@.len());
    assert(plan@.groups[g] == task_of(data, asked, panel.groups[g], g));
    assert(!(Double { bits: 0x7FF0_0000_0000_0000 }).finite());
    assert(request_is_sound(e));
    let request = plan.groups@[g].request;
    assert(request.priors@ == asked.priors());
    assert(request.dist == asked.dist);
    match crate::config::written(crate::config::table_of(e, "prior"@), "beta_scale"@) {
        Some(Value::Number(scale)) => {
            assert(asked.beta_scale == scale);
            assert(scale.finite());
        },
        _ => {
            assert(!asked.beta_scale.finite());
        },
    }
}

/// A plan is made exactly when the options are sound, the columns are there, and no label is
/// the reserved one; it then counts the complete rows.
pub proof fn a_plan_is_made_exactly_when_it_can_be(cfg: Config, data: DataView, rows: Seq<usize>)
    requires
        data.wf(),
        crate::panel::each_present_row_once(
            data,
            columns_named(cfg.entries@),
            keys_named(cfg.entries@),
            rows,
        ),
    ensures
        planned(cfg@, data) is Ok <==> {
            let e = cfg.entries@;
            let names = columns_named(e);
            &&& request_is_sound(e)
            &&& forall|c: int| 0 <= c < names.len() ==> data.column(#[trigger] names[c]) is Some
            &&& crate::config::text_of(e, "group"@) matches Some(group) ==> data.key_column(
                group,
            ) is Some && forall|i: int|
                0 <= i < rows.len() ==> data.key_column(group)->0.values@[(
                #[trigger] rows[i]) as int]@ != "__global__"@
        },
        planned(cfg@, data) matches Ok(plan) ==> plan.n_obs == rows.len(),
{
    let e = cfg.entries@;
    a_request_is_what_its_options_say(cfg@);
    if request_is_sound(e) {
        let asked = Asked::of(cfg@)->Ok_0;
        let columns = asked.columns();
        assert(columns =~= columns_named(e));
        let keys = crate::panel::group_columns(asked.group);
        assert(keys =~= keys_named(e));
        crate::panel::the_rows_read_are_the_complete_ones(data, columns, keys);
        if let Some(name) = asked.group {
            crate::panel::a_panel_is_read_exactly_when_it_can_be(data, columns, name, rows);
        }
        if let Ok(panel) = crate::panel::panel_of(data, columns, asked.group, true) {
            crate::data::usable_rows_are_no_more_than_rows(data, columns, keys);
            crate::panel::lemma_same_rows_read(data, columns, keys, rows, panel.rows);
        }
    }
}

/// Every parameter of a plan is reported under its own name and the key of its own group, at
/// the place that the group's slots give it: the intercept, the coefficients in the order of
/// the predictors, and the scale last.
pub proof fn a_parameter_is_named_for_its_group(
    cfg: Config,
    data: DataView,
    plan: CensoredAftPlan,
    g: int,
)
    requires
        planned(cfg@, data) == Ok::<Planned, Fault>(plan@),
        0 <= g < plan.groups@.len(),
    ensures
        ({
            let e = cfg.entries@;
            let x = crate::config::texts_of(e, "x"@);
            let first = if has_intercept(e) {
                1int
            } else {
                0int
            };
            let width = first + x.len() + 1;
            let slots = plan.groups@[g].slots@;
            let key = plan.groups@[g].key@;
            &&& plan.params@.len() == plan.groups@.len() * width
            &&& slots.len() == width
            &&& forall|j: int| 0 <= j < width ==> (#[trigger] slots[j]) == g * width + j && slots[j]
                < plan.params@.len()
            &&& has_intercept(e) ==> plan.params@[slots[0] as int].name@ == "intercept"@
            &&& forall|k: int|
                #![trigger x[k]]
                0 <= k < x.len() ==> plan.params@[slots[first + k] as int].name@ == "beta["@ + x[k]
                    + "]"@
            &&& plan.params@[slots[width - 1] as int].name@ == "sigma"@
            &&& forall|j: int|
                0 <= j < width ==> plan.params@[(#[trigger] slots[j]) as int].group_id@ == key
        }),
{
    let e = cfg.entries@;
    a_request_is_what_its_options_say(cfg@);
    let asked = Asked::of(cfg@)->Ok_0;
    let panel = crate::panel::panel_of(data, asked.columns(), asked.group, true)->Ok_0;
    assert(plan@ == Planned::of(data, asked, panel));
    assert(plan.groups@[g]@ == plan@.groups[g]);
    assert(plan@.groups.len() == plan.groups@.len());
    assert(plan@.params.len() == plan.params@.len());
    assert(plan.params.len() == plan.params@.len());
    let w = asked.width() as int;
    let n = plan.groups@.len() as int;
    let slots = plan.groups@[g].slots@;
    let ids = group_ids(asked, panel.groups[g].key);
    assert(g * w + w <= n * w) by (nonlinear_arith)
        requires
            g + 1 <= n,
            0 < w,
    ;
    assert(0 <= g * w) by (nonlinear_arith)
        requires
            0 <= g,
            0 < w,
    ;
    assert forall|j: int| 0 <= j < w implies (#[trigger] slots[j]) == g * w + j && slots[j]
        < plan.params@.len() && plan.params@[slots[j] as int]@ == ids[j] by {
        lemma_fundamental_div_mod_converse(g * w + j, w, g, j);
        assert(slots[j] == (g * w + j) as usize);
        assert(plan.params@[g * w + j]@ == plan@.params[g * w + j]);
    }
    let first = if asked.intercept {
        1int
    } else {
        0int
    };
    assert forall|k: int| #![trigger asked.x[k]] 0 <= k < asked.x.len() implies plan.params@[slots[
        first + k] as int].name@ == "beta["@ + asked.x[k] + "]"@ by {
        assert(plan.params@[slots[first + k] as int]@ == ids[first + k]);
        assert(ids[first + k] == crate::draws::coefficients(panel.groups[g].key, asked.x)[k]);
    }
    assert(plan.params@[slots[0] as int]@ == ids[0]);
    assert(plan.params@[slots[w - 1] as int]@ == ids[w - 1]);
    assert forall|j: int| 0 <= j < w implies plan.params@[(
    #[trigger] slots[j]) as int].group_id@ == plan.groups@[g].key@ by {
        assert(plan.params@[slots[j] as int]@ == ids[j]);
        if first <= j < w - 1 {
            assert(ids[j] == crate::draws::coefficients(panel.groups[g].key, asked.x)[j - first]);
        }
    }
}

impl CensoredAftPlan {
    pub open spec fn wf(self) -> bool {
        forall|g: int|
            0 <= g < self.groups@.len() ==> (#[trigger] self.groups@[g]).request.x@.len()
                <= usize::MAX - 2 && self.groups@[g].slots@.len()
                == self.groups@[g]@.request.n_beta() + 1
    }
}

proof fn lemma_next_group(asked: Asked, keys: Seq<Seq<char>>, g: int)
    requires
        0 <= g < keys.len(),
    ensures
        param_ids(asked, keys).take((g + 1) * asked.width()) == param_ids(asked, keys).take(
            g * asked.width(),
        ) + group_ids(asked, keys[g]),
        (g + 1) * asked.width() == g * asked.width() + asked.width(),
        g * asked.width() + asked.width() <= param_ids(asked, keys).len(),
{
    let w = asked.width() as int;
    let all = param_ids(asked, keys);
    assert((g + 1) * w == g * w + w) by (nonlinear_arith);
    assert(g * w + w <= keys.len() * w) by (nonlinear_arith)
        requires
            g + 1 <= keys.len(),
            0 < w,
    ;
    assert(0 <= g * w) by (nonlinear_arith)
        requires
            0 <= g,
            0 < w,
    ;
    let left = all.take((g + 1) * w);
    let right = all.take(g * w) + group_ids(asked, keys[g]);
    assert(group_ids(asked, keys[g]).len() == w);
    assert forall|i: int| 0 <= i < left.len() implies left[i] == right[i] by {
        if i >= g * w {
            lemma_fundamental_div_mod_converse(i, w, g, i - g * w);
        }
    }
    assert(left =~= right);
}

fn push_group_params(params: &mut Vec<ParamName>, request: &Request, key: &str)
    ensures
        crate::draws::ids(final(params)@) == crate::draws::ids(old(params)@) + group_ids(
            request@,
            key@,
        ),
{
    let ghost before = crate::draws::ids(params@);
    if request.intercept {
        push_grouped(params, key, "intercept");
    }
    push_coefficients(params, key, &request.x);
    push_grouped(params, key, "sigma");
    proof {
        assert(crate::draws::ids(params@) =~= before + group_ids(request@, key@));
    }
}

fn slots_between(first: usize, end: usize) -> (r: Vec<usize>)
    requires
        first <= end,
    ensures
        r@ == Seq::new((end - first) as nat, |k: int| (first + k) as usize),
{
    let ghost all = Seq::new((end - first) as nat, |k: int| (first + k) as usize);
    let mut out: Vec<usize> = Vec::new();
    let mut k: usize = first;
    while k < end
        invariant
            first <= k <= end,
            all == Seq::new((end - first) as nat, |k: int| (first + k) as usize),
            out@ =~= all.take(k - first),
        decreases end - k,
    {
        out.push(k);
        k += 1;
    }
    proof {
        assert(out@ =~= all);
    }
    out
}

fn read_group(
    request: &Request,
    group: &Group,
    time: &NumericColumn,
    event: &NumericColumn,
    x: &Vec<&NumericColumn>,
    n_rows: usize,
) -> (r: CensoredAftRequest)
    requires
        crate::data::rows_within(group.rows@, n_rows as int),
        time.values@.len() == n_rows,
        event.values@.len() == n_rows,
        forall|i: int| 0 <= i < x@.len() ==> (#[trigger] x@[i]).values@.len() == n_rows,
    ensures
        r@ == (Censored {
            dist: request.dist,
            time: crate::data::gathered(*time, group.rows@),
            event: crate::data::gathered(*event, group.rows@),
            x: crate::data::gathered_all(x@, group.rows@),
            intercept: request.intercept,
            priors: request@.priors(),
        }),
{
    CensoredAftRequest {
        dist: request.dist,
        time: gather(time, &group.rows),
        event: gather(event, &group.rows),
        x: gather_all(x, &group.rows, n_rows),
        intercept: request.intercept,
        priors: request.list_priors(),
    }
}

/// Reads a request and the relation it names, and lists the fits to be made.
pub fn plan(cfg: &Config, data: &DataView) -> (r: BayesResult<CensoredAftPlan>)
    requires
        data.wf(),
        cfg@.list_fits("x"@),
    ensures
        crate::errors::outcome(r) == planned(cfg@, *data),
        r matches Ok(p) ==> p.wf(),
{
    let request = Request::parse(cfg)?;
    let names = request.list_columns();
    let ghost all = crate::text::texts(names@);
    proof {
        assert(request.x@.len() == request@.x.len());
    }
    let panel = read_panel(data, &names, &request.group, true)?;
    proof {
        assert(names@[0]@ == all[0] && names@[1]@ == all[1]);
        assert forall|k: int| 0 <= k < request.x@.len() implies data.column(
            (#[trigger] request.x@[k])@,
        ) is Some by {
            assert(names@[2 + k]@ == all[2 + k]);
        }
    }
    let time = data.numeric(request.time.as_str())?;
    let event = data.numeric(request.event.as_str())?;
    let x = data.numerics(&request.x)?;
    let ghost asked = request@;
    let ghost keys = panel@.keys();
    let ghost wanted = Planned::of(*data, asked, panel@);
    let mut params: Vec<ParamName> = Vec::new();
    let mut groups: Vec<AftGroup> = Vec::new();
    let mut g: usize = 0;
    proof {
        assert(0 * asked.width() == 0) by (nonlinear_arith);
        assert(crate::draws::ids(params@) =~= param_ids(asked, keys).take(0));
        assert(keys.len() == panel.groups@.len());
    }
    while g < panel.groups.len()
        invariant
            g <= panel.groups@.len(),
            data.wf(),
            asked == request@,
            asked.x.len() == request.x@.len(),
            request.x@.len() <= usize::MAX / 4,
            keys == panel@.keys(),
            keys.len() == panel.groups@.len(),
            wanted == Planned::of(*data, asked, panel@),
            crate::data::groups_within(panel@.groups, data.n_rows as int),
            *time == data.column(asked.time)->0,
            *event == data.column(asked.event)->0,
            time.values@.len() == data.n_rows,
            event.values@.len() == data.n_rows,
            x@.len() == request.x@.len(),
            forall|k: int|
                0 <= k < x@.len() ==> *(#[trigger] x@[k]) == data.column(asked.x[k])->0
                    && x@[k].values@.len() == data.n_rows,
            crate::draws::ids(params@) == param_ids(asked, keys).take(g * asked.width()),
            groups@.len() == g,
            forall|h: int|
                0 <= h < g ==> (#[trigger] groups@[h])@ == wanted.groups[h]
                    && groups@[h].request.x@.len() <= usize::MAX - 2 && groups@[h].slots@.len()
                    == groups@[h]@.request.n_beta() + 1,
        decreases panel.groups@.len() - g,
    {
        proof {
            lemma_next_group(asked, keys, g as int);
            assert(panel@.groups[g as int] == panel.groups@[g as int]@);
            assert(crate::data::rows_within(panel@.groups[g as int].rows, data.n_rows as int));
            assert(keys[g as int] == panel.groups@[g as int].key@);
            assert(crate::draws::ids(params@).len() == params@.len());
        }
        let first = params.len();
        push_group_params(&mut params, &request, panel.groups[g].key.as_str());
        proof {
            assert(crate::draws::ids(params@).len() == params@.len());
        }
        let end = params.len();
        let slots = slots_between(first, end);
        let one = read_group(&request, &panel.groups[g], time, event, &x, data.n_rows);
        let group = AftGroup {
            key: panel.groups[g].key.as_str().to_owned(),
            request: one,
            slots,
        };
        proof {
            assert(group@.slots =~= slots_of(asked.width(), g as int));
            assert(group@.request.x =~= wanted.groups[g as int].request.x);
            assert(group@ =~= wanted.groups[g as int]);
            assert(group.request.x@.len() == group@.request.x.len());
        }
        groups.push(group);
        g += 1;
    }
    let r = CensoredAftPlan { params, groups, n_obs: panel.rows.len() };
    proof {
        assert(param_ids(asked, keys).take(g * asked.width()) =~= param_ids(asked, keys));
        assert(r@.groups =~= wanted.groups);
        assert(r@ =~= wanted);
    }
    Ok(r)
}

/// A posterior with the parameters that it reports.
#[derive(Debug)]
pub struct GaussianBlock {
    pub mode: Vec<Double>,
    pub precision: Matrix,
    pub params: Vec<usize>,
}

/// How a block's coordinates become the parameters that it reports.
#[derive(Debug, Clone, Copy, PartialEq, Eq, Structural)]
pub struct BlockMeta {
    /// Coefficients, which are reported as they are.
    pub n_coef: usize,
    /// Whether a log scale follows them.
    pub fit_scale: bool,
    /// The scale where it is not estimated: every distribution reports the same
    /// parameters.
    pub fixed_scale: Double,
}

/// What a block and its meta hold.
#[verifier::ext_equal]
pub struct Laid {
    pub mode: Seq<Double>,
    pub precision: Seq<Seq<Double>>,
    pub params: Seq<usize>,
    pub meta: BlockMeta,
}

/// The blocks that two lists of equal length hold.
pub open spec fn laid(blocks: Seq<GaussianBlock>, metas: Seq<BlockMeta>) -> Seq<Laid> {
    Seq::new(
        blocks.len(),
        |b: int|
            Laid {
                mode: blocks[b].mode@,
                precision: blocks[b].precision@,
                params: blocks[b].params@,
                meta: metas[b],
            },
    )
}

/// What the groups judged so far come to.
#[verifier::ext_equal]
pub struct Assembly {
    pub blocks: Seq<Laid>,
    pub verdicts: Seq<Verdict>,
}

/// The block of a group with a posterior.
pub open spec fn block_of(task: Task, g: Posterior) -> Laid {
    Laid {
        mode: g.mode,
        precision: g.information,
        params: task.slots,
        meta: BlockMeta {
            n_coef: task.request.n_beta() as usize,
            fit_scale: g.fit_scale,
            fixed_scale: g.scale,
        },
    }
}

/// A verdict whose reasons name the group.
pub open spec fn named(key: Seq<char>, v: Verdict) -> Verdict {
    Verdict {
        status: v.status,
        reasons: Seq::new(
            v.reasons.len(),
            |i: int| Message::saying("group '"@ + key + "': "@) + v.reasons[i],
        ),
    }
}

/// What the first `n` groups come to, or the first fault among their replies.
pub open spec fn assembled(
    groups: Seq<Task>,
    replies: Seq<Result<AftFit, StatsError>>,
    n: nat,
) -> Result<Assembly, Fault>
    decreases n,
{
    if n == 0 {
        Ok(Assembly { blocks: Seq::empty(), verdicts: Seq::empty() })
    } else {
        match assembled(groups, replies, (n - 1) as nat) {
            Err(f) => Err(f),
            Ok(a) => match crate::bridge::bridged(groups[n - 1].request, replies[n - 1]) {
                Err(f) => Err(f),
                Ok(Bridging::Fitted(g)) => Ok(
                    Assembly {
                        blocks: a.blocks.push(block_of(groups[n - 1], g)),
                        verdicts: a.verdicts.push(Verdict::ready()),
                    },
                ),
                Ok(Bridging::Refused(v)) => Ok(
                    Assembly {
                        blocks: a.blocks,
                        verdicts: a.verdicts.push(named(groups[n - 1].key, v)),
                    },
                ),
            },
        }
    }
}

/// A compiled model.
#[derive(Debug)]
pub struct CompiledCensoredAft {
    pub params: Vec<ParamName>,
    pub blocks: Vec<GaussianBlock>,
    pub metas: Vec<BlockMeta>,
    pub readiness: Readiness,
    pub n_groups_unready: usize,
    pub n_obs: usize,
    pub n_groups: usize,
}

impl CompiledCensoredAft {
    /// Whether it is what an assembly of all groups comes to.
    pub open spec fn holds(self, a: Assembly) -> bool {
        &&& self.blocks@.len() == self.metas@.len()
        &&& laid(self.blocks@, self.metas@) == a.blocks
        &&& self.readiness@ == crate::readiness::worst_verdict(a.verdicts)
        &&& self.n_groups_unready == crate::readiness::unready_count(a.verdicts)
    }
}

/// A fault of an earlier group is the fault of all.
proof fn lemma_fault_stays(
    groups: Seq<Task>,
    replies: Seq<Result<AftFit, StatsError>>,
    k: nat,
    n: nat,
)
    requires
        k <= n,
        assembled(groups, replies, k) is Err,
    ensures
        assembled(groups, replies, n) == assembled(groups, replies, k),
    decreases n,
{
    if k < n {
        lemma_fault_stays(groups, replies, k, (n - 1) as nat);
    }
}

/// The items, last first.
fn reversed<T>(items: Vec<T>) -> (r: Vec<T>)
    ensures
        r@ == items@.reverse(),
{
    let ghost all = items@;
    let mut items = items;
    let mut out: Vec<T> = Vec::new();
    while items.len() > 0
        invariant
            items@.len() + out@.len() == all.len(),
            items@ =~= all.take(items@.len() as int),
            out@ =~= all.reverse().take(out@.len() as int),
        decreases items@.len(),
    {
        if let Some(last) = items.pop() {
            out.push(last);
        }
    }
    proof {
        assert(out@ =~= all.reverse());
    }
    out
}

impl CensoredAftPlan {
    /// Judges the replies to all fits and lays out the posteriors that exist.
    pub fn assemble(self, replies: Vec<Result<AftFit, StatsError>>) -> (r: BayesResult<
        CompiledCensoredAft,
    >)
        requires
            self.wf(),
            replies@.len() == self.groups@.len(),
            forall|g: int|
                0 <= g < self.groups@.len() ==> crate::bridge::shaped(
                    (#[trigger] self@.groups[g]).request,
                    replies@[g],
                ),
        ensures
            match r {
                Ok(m) => assembled(self@.groups, replies@, self.groups@.len()) matches Ok(a)
                    && m.holds(a) && m.params == self.params && m.n_obs == self.n_obs
                    && m.n_groups == self.groups@.len(),
                Err(e) => assembled(self@.groups, replies@, self.groups@.len()) == Err::<
                    Assembly,
                    _,
                >(e@),
            },
    {
        let ghost all = self@.groups;
        let ghost answers = replies@;
        let n_groups = self.groups.len();
        let mut groups = reversed(self.groups);
        let mut pending = reversed(replies);
        let mut blocks: Vec<GaussianBlock> = Vec::new();
        let mut metas: Vec<BlockMeta> = Vec::new();
        let mut verdicts: Vec<Readiness> = Vec::new();
        let mut k: usize = 0;
        proof {
            assert(groups@ =~= self.groups@.reverse().take(n_groups as int));
            assert(pending@ =~= answers.reverse().take(n_groups as int));
            assert(laid(blocks@, metas@) =~= Seq::<Laid>::empty());
            assert(crate::readiness::verdicts(verdicts@) =~= Seq::<Verdict>::empty());
        }
        while k < n_groups
            invariant
                k <= n_groups,
                n_groups == self.groups@.len(),
                self.wf(),
                all == tasks(self.groups@),
                answers.len() == n_groups,
                groups@ == self.groups@.reverse().take(n_groups - k),
                pending@ == answers.reverse().take(n_groups - k),
                answers == replies@,
                all == self@.groups,
                forall|g: int|
                    0 <= g < n_groups ==> crate::bridge::shaped(
                        (#[trigger] all[g]).request,
                        answers[g],
                    ),
                blocks@.len() == metas@.len(),
                assembled(all, answers, k as nat) == Ok::<_, Fault>(
                    Assembly {
                        blocks: laid(blocks@, metas@),
                        verdicts: crate::readiness::verdicts(verdicts@),
                    },
                ),
            decreases n_groups - k,
        {
            let ghost kept = groups@;
            let ghost left = pending@;
            let next = groups.pop();
            let answer = pending.pop();
            if let (Some(group), Some(reply)) = (next, answer) {
                proof {
                    assert(group == self.groups@[k as int]);
                    assert(reply == answers[k as int]);
                    assert(all[k as int] == group@);
                    assert(groups@ =~= self.groups@.reverse().take(n_groups - (k + 1)));
                    assert(pending@ =~= answers.reverse().take(n_groups - (k + 1)));
                }
                let ghost blocks_before = laid(blocks@, metas@);
                let ghost verdicts_before = crate::readiness::verdicts(verdicts@);
                match fit_censored_aft(&group.request, reply) {
                    Err(e) => {
                        proof {
                            lemma_fault_stays(all, answers, (k + 1) as nat, n_groups as nat);
                        }
                        return Err(e);
                    },
                    Ok(Bridged::Fitted(g)) => {
                        let g = *g;
                        let mut n_coef: usize = group.request.x.len();
                        if group.request.intercept {
                            n_coef += 1;
                        }
                        let ghost laid_now = block_of(group@, g@);
                        proof {
                            assert(group@.request.x.len() == group.request.x@.len());
                        }
                        metas.push(
                            BlockMeta { n_coef, fit_scale: g.fit_scale, fixed_scale: g.scale },
                        );
                        blocks.push(
                            GaussianBlock {
                                mode: g.mode,
                                precision: g.information,
                                params: group.slots,
                            },
                        );
                        verdicts.push(Readiness::ready());
                        proof {
                            assert(laid(blocks@, metas@) =~= blocks_before.push(laid_now));
                            assert(crate::readiness::verdicts(verdicts@) =~= verdicts_before.push(
                                Verdict::ready(),
                            ));
                        }
                    },
                    Ok(Bridged::Refused(v)) => {
                        let head = "group '".to_owned().concat(group.key.as_str()).concat("': ");
                        let named_verdict = v.naming(head.as_str());
                        proof {
                            assert(named_verdict@ =~= named(group@.key, v@));
                        }
                        verdicts.push(named_verdict);
                        proof {
                            assert(crate::readiness::verdicts(verdicts@) =~= verdicts_before.push(
                                named(group@.key, v@),
                            ));
                        }
                    },
                }
            } else {
                proof {
                    assert(kept.len() > 0 && left.len() > 0);
                    assert(false);
                }
            }
            k += 1;
        }
        let readiness = Readiness::worst(&verdicts);
        let n_groups_unready = Readiness::count_unready(&verdicts);
        Ok(
            CompiledCensoredAft {
                params: self.params,
                blocks,
                metas,
                readiness,
                n_groups_unready,
                n_obs: self.n_obs,
                n_groups,
            },
        )
    }
}

/// How a block's parameters are computed from its coordinates: the coefficients as they
/// are, then the scale, estimated or not.
pub open spec fn formulas(meta: BlockMeta) -> Seq<Formula> {
    crate::formula::coordinates(0, meta.n_coef as nat) + seq![
        if meta.fit_scale {
            Formula::Exp { at: meta.n_coef }
        } else {
            Formula::Fixed { value: meta.fixed_scale }
        },
    ]
}

impl BlockMeta {
    /// How each of a block's parameters is computed from its coordinates.
    pub fn constrain(&self) -> (r: Vec<Formula>)
        ensures
            r@ == formulas(*self),
    {
        let mut out: Vec<Formula> = Vec::new();
        push_coordinates(&mut out, 0, self.n_coef);
        if self.fit_scale {
            out.push(Formula::Exp { at: self.n_coef });
        } else {
            out.push(Formula::Fixed { value: self.fixed_scale });
        }
        proof {
            assert(out@ =~= formulas(*self));
        }
        out
    }
}

/// Every group is either a block or counted as unready, never both and never neither.
pub proof fn every_group_is_a_block_or_unready(
    groups: Seq<Task>,
    replies: Seq<Result<AftFit, StatsError>>,
    n: nat,
)
    ensures
        assembled(groups, replies, n) matches Ok(a) ==> a.verdicts.len() == n && a.blocks.len()
            + crate::readiness::unready_count(a.verdicts) == n,
    decreases n,
{
    if n > 0 {
        every_group_is_a_block_or_unready(groups, replies, (n - 1) as nat);
        if let Ok(a) = assembled(groups, replies, (n - 1) as nat) {
            crate::bridge::a_refusal_is_never_actionable(groups[n - 1].request, replies[n - 1]);
            if let Ok(Bridging::Refused(v)) = crate::bridge::bridged(
                groups[n - 1].request,
                replies[n - 1],
            ) {
                let more = a.verdicts.push(named(groups[n - 1].key, v));
                assert(more.drop_last() =~= a.verdicts);
            }
            let more = a.verdicts.push(Verdict::ready());
            assert(more.drop_last() =~= a.verdicts);
        }
    }
}

/// A block reports the parameters of its own group and no others: there is a group whose
/// slots it carries, and that group was fitted.
pub proof fn a_block_reports_the_parameters_of_one_group(
    groups: Seq<Task>,
    replies: Seq<Result<AftFit, StatsError>>,
    n: nat,
    b: int,
)
    requires
        assembled(groups, replies, n) matches Ok(a) && 0 <= b < a.blocks.len(),
    ensures
        exists|g: int|
            0 <= g < n && assembled(groups, replies, n)->Ok_0.blocks[b].params == (
            #[trigger] groups[g]).slots && crate::bridge::bridged(
                groups[g].request,
                replies[g],
            ) matches Ok(Bridging::Fitted(p)),
    decreases n,
{
    let m = (n - 1) as nat;
    let a = assembled(groups, replies, n)->Ok_0;
    let before = assembled(groups, replies, m)->Ok_0;
    if b < before.blocks.len() {
        a_block_reports_the_parameters_of_one_group(groups, replies, m, b);
        let g = choose|g: int|
            0 <= g < m && before.blocks[b].params == (#[trigger] groups[g]).slots
                && crate::bridge::bridged(groups[g].request, replies[g]) matches Ok(
                Bridging::Fitted(p),
            );
        assert(a.blocks[b].params == groups[g].slots);
    } else {
        assert(a.blocks[b].params == groups[n - 1].slots);
    }
}

/// The parameters of two groups are never the same, and every one of them is among the
/// parameters that are named.
pub proof fn no_two_groups_share_a_parameter(
    data: DataView,
    asked: Asked,
    panel: PanelView,
    g: int,
    h: int,
    i: int,
    j: int,
)
    requires
        param_ids(asked, panel.keys()).len() <= usize::MAX,
        0 <= g < h < panel.groups.len(),
        0 <= i < asked.width(),
        0 <= j < asked.width(),
    ensures
        ({
            let plan = Planned::of(data, asked, panel);
            &&& plan.groups[g].slots[i] < plan.groups[h].slots[j]
            &&& plan.groups[h].slots[j] < plan.params.len()
            &&& plan.params[plan.groups[h].slots[j] as int] == group_ids(
                asked,
                panel.groups[h].key,
            )[j]
        }),
{
    let w = asked.width() as int;
    let n = panel.groups.len() as int;
    assert(g * w + w <= h * w) by (nonlinear_arith)
        requires
            g + 1 <= h,
            0 < w,
    ;
    assert(h * w + w <= n * w) by (nonlinear_arith)
        requires
            h + 1 <= n,
            0 < w,
    ;
    assert(0 <= g * w) by (nonlinear_arith)
        requires
            0 <= g,
            0 < w,
    ;
    lemma_fundamental_div_mod_converse(h * w + j, w, h, j);
}

/// A block has a formula for each parameter that it reports, and every formula reads one
/// of the block's own coordinates.
pub proof fn every_parameter_of_a_block_has_a_formula(
    task: Task,
    reply: Result<AftFit, StatsError>,
    k: int,
)
    requires
        task.request.n_beta() < usize::MAX,
        task.slots.len() == task.request.n_beta() + 1,
        crate::bridge::bridged(task.request, reply) is Ok,
        crate::bridge::bridged(task.request, reply)->Ok_0 is Fitted,
        0 <= k < task.slots.len(),
    ensures
        ({
            let block = block_of(
                task,
                crate::bridge::bridged(task.request, reply)->Ok_0->Fitted_0,
            );
            &&& formulas(block.meta).len() == block.params.len()
            &&& formulas(block.meta)[k].reads_within(block.mode.len() as int)
        }),
{
    crate::bridge::a_posterior_is_finite_and_complete(task.request, reply);
}

/// Whether a block is that of a group, fitted with that reply.
pub open spec fn is_block_of(
    block: Laid,
    task: Task,
    reply: Result<AftFit, StatsError>,
) -> bool {
    crate::bridge::bridged(task.request, reply) matches Ok(Bridging::Fitted(p)) && block
        == block_of(task, p)
}

/// The group that a block is of.
proof fn lemma_block_owner(
    groups: Seq<Task>,
    replies: Seq<Result<AftFit, StatsError>>,
    n: nat,
    b: int,
) -> (i: int)
    requires
        assembled(groups, replies, n) is Ok,
        0 <= b < assembled(groups, replies, n)->Ok_0.blocks.len(),
    ensures
        0 <= i < n,
        is_block_of(assembled(groups, replies, n)->Ok_0.blocks[b], groups[i], replies[i]),
    decreases n,
{
    let m = (n - 1) as nat;
    if b < assembled(groups, replies, m)->Ok_0.blocks.len() {
        lemma_block_owner(groups, replies, m, b)
    } else {
        m as int
    }
}

/// The block of a group that was fitted.
proof fn lemma_own_block(
    groups: Seq<Task>,
    replies: Seq<Result<AftFit, StatsError>>,
    n: nat,
    g: int,
) -> (b: int)
    requires
        assembled(groups, replies, n) is Ok,
        0 <= g < n,
        crate::bridge::bridged(groups[g].request, replies[g]) matches Ok(Bridging::Fitted(_)),
    ensures
        0 <= b < assembled(groups, replies, n)->Ok_0.blocks.len(),
        is_block_of(assembled(groups, replies, n)->Ok_0.blocks[b], groups[g], replies[g]),
    decreases n,
{
    let m = (n - 1) as nat;
    if g < m {
        lemma_own_block(groups, replies, m, g)
    } else {
        assembled(groups, replies, m)->Ok_0.blocks.len() as int
    }
}

/// The verdict on a group is that on its own reply.
proof fn lemma_own_verdict(
    groups: Seq<Task>,
    replies: Seq<Result<AftFit, StatsError>>,
    n: nat,
    g: int,
)
    requires
        0 <= g < n,
        assembled(groups, replies, n) is Ok,
    ensures
        crate::bridge::bridged(groups[g].request, replies[g]) is Ok,
        assembled(groups, replies, n)->Ok_0.verdicts.len() == n,
        assembled(groups, replies, n)->Ok_0.verdicts[g] == match crate::bridge::bridged(
            groups[g].request,
            replies[g],
        )->Ok_0 {
            Bridging::Fitted(_) => Verdict::ready(),
            Bridging::Refused(v) => named(groups[g].key, v),
        },
    decreases n,
{
    every_group_is_a_block_or_unready(groups, replies, (n - 1) as nat);
    every_group_is_a_block_or_unready(groups, replies, n);
    if g < n - 1 {
        lemma_own_verdict(groups, replies, (n - 1) as nat, g);
    }
}

/// The numbers of the parameters tell the groups apart.
proof fn lemma_slots_differ(
    data: DataView,
    asked: Asked,
    panel: PanelView,
    g: int,
    h: int,
)
    requires
        param_ids(asked, panel.keys()).len() <= usize::MAX,
        0 <= g < panel.groups.len(),
        0 <= h < panel.groups.len(),
        g != h,
    ensures
        Planned::of(data, asked, panel).groups[g].slots != Planned::of(
            data,
            asked,
            panel,
        ).groups[h].slots,
{
    let plan = Planned::of(data, asked, panel);
    if g < h {
        no_two_groups_share_a_parameter(data, asked, panel, g, h, 0, 0);
        assert(plan.groups[g].slots[0] != plan.groups[h].slots[0]);
    } else {
        no_two_groups_share_a_parameter(data, asked, panel, h, g, 0, 0);
        assert(plan.groups[h].slots[0] != plan.groups[g].slots[0]);
    }
}

/// Two assemblies in which a group makes the same request and gets the same reply hold the
/// same block of it, or none.
proof fn lemma_same_block(
    tasks_a: Seq<Task>,
    replies_a: Seq<Result<AftFit, StatsError>>,
    g: int,
    tasks_b: Seq<Task>,
    replies_b: Seq<Result<AftFit, StatsError>>,
    h: int,
)
    requires
        0 <= g < tasks_a.len(),
        0 <= h < tasks_b.len(),
        assembled(tasks_a, replies_a, tasks_a.len()) is Ok,
        assembled(tasks_b, replies_b, tasks_b.len()) is Ok,
        tasks_a[g].request == tasks_b[h].request,
        replies_a[g] == replies_b[h],
        forall|t: int|
            0 <= t < tasks_a.len() && t != g ==> (#[trigger] tasks_a[t]).slots != tasks_a[g].slots,
        forall|t: int|
            0 <= t < tasks_b.len() && t != h ==> (#[trigger] tasks_b[t]).slots != tasks_b[h].slots,
    ensures
        ({
            let m = assembled(tasks_a, replies_a, tasks_a.len())->Ok_0;
            let n = assembled(tasks_b, replies_b, tasks_b.len())->Ok_0;
            &&& (exists|i: int|
                0 <= i < m.blocks.len() && (#[trigger] m.blocks[i]).params == tasks_a[g].slots)
                <==> (exists|j: int|
                0 <= j < n.blocks.len() && (#[trigger] n.blocks[j]).params == tasks_b[h].slots)
            &&& forall|i: int, j: int|
                0 <= i < m.blocks.len() && 0 <= j < n.blocks.len() && (
                #[trigger] m.blocks[i]).params == tasks_a[g].slots && (
                #[trigger] n.blocks[j]).params == tasks_b[h].slots ==> m.blocks[i].mode
                    == n.blocks[j].mode && m.blocks[i].precision == n.blocks[j].precision
                    && m.blocks[i].meta == n.blocks[j].meta
        }),
{
    let m = assembled(tasks_a, replies_a, tasks_a.len())->Ok_0;
    let n = assembled(tasks_b, replies_b, tasks_b.len())->Ok_0;
    assert forall|i: int|
        0 <= i < m.blocks.len() && (#[trigger] m.blocks[i]).params
            == tasks_a[g].slots implies is_block_of(m.blocks[i], tasks_a[g], replies_a[g]) by {
        let t = lemma_block_owner(tasks_a, replies_a, tasks_a.len(), i);
        assert(m.blocks[i].params == tasks_a[t].slots);
    }
    assert forall|j: int|
        0 <= j < n.blocks.len() && (#[trigger] n.blocks[j]).params
            == tasks_b[h].slots implies is_block_of(n.blocks[j], tasks_b[h], replies_b[h]) by {
        let t = lemma_block_owner(tasks_b, replies_b, tasks_b.len(), j);
        assert(n.blocks[j].params == tasks_b[t].slots);
    }
    if crate::bridge::bridged(tasks_a[g].request, replies_a[g]) matches Ok(Bridging::Fitted(_)) {
        let i = lemma_own_block(tasks_a, replies_a, tasks_a.len(), g);
        let j = lemma_own_block(tasks_b, replies_b, tasks_b.len(), h);
        assert(m.blocks[i].params == tasks_a[g].slots);
        assert(n.blocks[j].params == tasks_b[h].slots);
    }
}

/// No pooling: a group that two relations share asks for the same fit in both, whatever
/// other groups they hold. With the same reply to it, it is fitted in one exactly when it
/// is fitted in the other, under the same verdict, and its block has the same mode, the
/// same precision and the same reading. A relation that holds the rows of the group alone
/// is one such.
pub proof fn a_group_is_fitted_alone_as_it_is_in_company(
    cfg: Scope,
    asked: Asked,
    group: Seq<char>,
    a: DataView,
    b: DataView,
    g: int,
    h: int,
    replies_a: Seq<Result<AftFit, StatsError>>,
    replies_b: Seq<Result<AftFit, StatsError>>,
)
    requires
        Asked::of(cfg) == Ok::<Asked, Fault>(asked),
        asked.group == Some(group),
        planned(cfg, a) is Ok,
        planned(cfg, b) is Ok,
        planned(cfg, a)->Ok_0.params.len() <= usize::MAX,
        planned(cfg, b)->Ok_0.params.len() <= usize::MAX,
        0 <= g < planned(cfg, a)->Ok_0.groups.len(),
        0 <= h < planned(cfg, b)->Ok_0.groups.len(),
        planned(cfg, a)->Ok_0.groups[g].key == planned(cfg, b)->Ok_0.groups[h].key,
        a.same_group(b, asked.columns(), group, planned(cfg, a)->Ok_0.groups[g].key),
        replies_a[g] == replies_b[h],
        assembled(
            planned(cfg, a)->Ok_0.groups,
            replies_a,
            planned(cfg, a)->Ok_0.groups.len(),
        ) is Ok,
        assembled(
            planned(cfg, b)->Ok_0.groups,
            replies_b,
            planned(cfg, b)->Ok_0.groups.len(),
        ) is Ok,
    ensures
        ({
            let tasks_a = planned(cfg, a)->Ok_0.groups;
            let tasks_b = planned(cfg, b)->Ok_0.groups;
            let m = assembled(tasks_a, replies_a, tasks_a.len())->Ok_0;
            let n = assembled(tasks_b, replies_b, tasks_b.len())->Ok_0;
            &&& tasks_a[g].request == tasks_b[h].request
            &&& m.verdicts[g] == n.verdicts[h]
            &&& (exists|i: int|
                0 <= i < m.blocks.len() && (#[trigger] m.blocks[i]).params == tasks_a[g].slots)
                <==> (exists|j: int|
                0 <= j < n.blocks.len() && (#[trigger] n.blocks[j]).params == tasks_b[h].slots)
            &&& forall|i: int, j: int|
                0 <= i < m.blocks.len() && 0 <= j < n.blocks.len() && (
                #[trigger] m.blocks[i]).params == tasks_a[g].slots && (
                #[trigger] n.blocks[j]).params == tasks_b[h].slots ==> m.blocks[i].mode
                    == n.blocks[j].mode && m.blocks[i].precision == n.blocks[j].precision
                    && m.blocks[i].meta == n.blocks[j].meta
        }),
{
    let columns = asked.columns();
    let panel_a = crate::panel::panel_of(a, columns, asked.group, true)->Ok_0;
    let panel_b = crate::panel::panel_of(b, columns, asked.group, true)->Ok_0;
    let tasks_a = planned(cfg, a)->Ok_0.groups;
    let tasks_b = planned(cfg, b)->Ok_0.groups;
    crate::data::a_group_is_read_alike_in_any_company(a, b, columns, group, g);
    assert(panel_a.groups[g].key == tasks_a[g].key);
    assert(panel_b.groups[h].key == tasks_b[h].key);
    assert(columns[0] == asked.time && columns[1] == asked.event);
    assert forall|k: int| 0 <= k < asked.x.len() implies #[trigger] tasks_a[g].request.x[k]
        == tasks_b[h].request.x[k] by {
        assert(columns[2 + k] == asked.x[k]);
    }
    assert(tasks_a[g].request.x =~= tasks_b[h].request.x);
    assert(tasks_a[g].request == tasks_b[h].request);
    lemma_own_verdict(tasks_a, replies_a, tasks_a.len(), g);
    lemma_own_verdict(tasks_b, replies_b, tasks_b.len(), h);
    assert forall|t: int| 0 <= t < tasks_a.len() && t != g implies (#[trigger] tasks_a[t]).slots
        != tasks_a[g].slots by {
        lemma_slots_differ(a, asked, panel_a, t, g);
    }
    assert forall|t: int| 0 <= t < tasks_b.len() && t != h implies (#[trigger] tasks_b[t]).slots
        != tasks_b[h].slots by {
        lemma_slots_differ(b, asked, panel_b, t, h);
    }
    lemma_same_block(tasks_a, replies_a, g, tasks_b, replies_b, h);
}

/// Every group is fitted under the same options: the distribution, the intercept and the
/// priors of the request, with inference, and with the curvature of the log posterior for
/// its covariance.
pub proof fn every_group_is_fitted_under_the_options_of_the_request(
    cfg: Scope,
    data: DataView,
    g: int,
)
    requires
        planned(cfg, data) is Ok,
        0 <= g < planned(cfg, data)->Ok_0.groups.len(),
    ensures
        Asked::of(cfg) matches Ok(asked) && planned(cfg, data)->Ok_0.groups[g].request.options()
            == (Options {
            dist: asked.dist,
            fit_intercept: asked.intercept,
            compute_inference: true,
            priors: asked.priors(),
            vcov: VcovType::Laplace,
        }),
{
}

/// A group whose mode search did not finish makes the whole model a failure, whatever the
/// other groups come to.
pub proof fn a_failed_group_fails_the_model(
    groups: Seq<Task>,
    replies: Seq<Result<AftFit, StatsError>>,
    n: nat,
    g: int,
)
    requires
        0 <= g < n,
        assembled(groups, replies, n) is Ok,
        replies[g] matches Err(StatsError::ConvergenceFailure { .. }),
    ensures
        crate::readiness::worst_verdict(
            assembled(groups, replies, n)->Ok_0.verdicts,
        ).status == FitStatus::Failed,
{
    every_group_is_a_block_or_unready(groups, replies, n);
    lemma_failed_verdict(groups, replies, n, g);
    crate::readiness::failed_outranks_every_other_verdict(
        assembled(groups, replies, n)->Ok_0.verdicts,
        g,
    );
}

proof fn lemma_failed_verdict(
    groups: Seq<Task>,
    replies: Seq<Result<AftFit, StatsError>>,
    n: nat,
    g: int,
)
    requires
        0 <= g < n,
        assembled(groups, replies, n) is Ok,
        replies[g] matches Err(StatsError::ConvergenceFailure { .. }),
    ensures
        assembled(groups, replies, n)->Ok_0.verdicts.len() == n,
        assembled(groups, replies, n)->Ok_0.verdicts[g].status == FitStatus::Failed,
    decreases n,
{
    every_group_is_a_block_or_unready(groups, replies, (n - 1) as nat);
    every_group_is_a_block_or_unready(groups, replies, n);
    if g < n - 1 {
        lemma_failed_verdict(groups, replies, (n - 1) as nat, g);
    }
}

/// Whether a block is the posterior that a reply reports for a group: its mode, the observed
/// information for its precision, the group's own parameters, and how to read them.
pub open spec fn is_posterior_of(
    group: AftGroup,
    reply: Result<AftFit, StatsError>,
    block: GaussianBlock,
    meta: BlockMeta,
) -> bool {
    let fit_scale = group.request.dist != AftDistribution::Exponential;
    let fit = reply->Ok_0;
    &&& reply is Ok
    &&& fit.n_observations == group.request.time@.len()
    &&& fit.inference is Some
    &&& fit.inference->0.information is Some
    &&& block.params@ == group.slots@
    &&& crate::bridge::is_mode_of(fit, fit_scale, block.mode@)
    &&& crate::bridge::same_rows(block.precision, fit.inference->0.information->0)
    &&& meta.n_coef == group.request.x@.len() + (if group.request.intercept {
        1int
    } else {
        0int
    })
    &&& meta.fit_scale == fit_scale
    &&& meta.fixed_scale == if fit_scale {
        fit.scale
    } else {
        Double { bits: 0x3FF0_0000_0000_0000 }
    }
}

/// Each block of a model is the posterior that the reply to its own group reports, under the
/// parameters of that group.
pub proof fn a_block_is_the_posterior_of_its_own_group(
    plan: CensoredAftPlan,
    replies: Seq<Result<AftFit, StatsError>>,
    assembly: Assembly,
    model: CompiledCensoredAft,
    b: int,
)
    requires
        plan.wf(),
        assembled(plan@.groups, replies, plan.groups@.len()) == Ok::<Assembly, Fault>(assembly),
        model.holds(assembly),
        0 <= b < model.blocks@.len(),
    ensures
        exists|g: int|
            0 <= g < plan.groups@.len() && is_posterior_of(
                #[trigger] plan.groups@[g],
                replies[g],
                model.blocks@[b],
                model.metas@[b],
            ),
{
    let n = plan.groups@.len();
    let g = lemma_block_owner(plan@.groups, replies, n, b);
    let task = plan@.groups[g];
    let group = plan.groups@[g];
    assert(task == group@);
    let block = model.blocks@[b];
    let meta = model.metas@[b];
    assert(laid(model.blocks@, model.metas@)[b] == assembly.blocks[b]);
    let fit = replies[g]->Ok_0;
    let p = crate::bridge::bridged(task.request, replies[g])->Ok_0->Fitted_0;
    assert(group@.request.x.len() == group.request.x@.len());
    assert(p.information == fit.inference->0.information->0@);
    crate::bridge::lemma_same_rows(block.precision, fit.inference->0.information->0);
    assert(is_posterior_of(group, replies[g], block, meta));
}

/// A group whose reply becomes a posterior is ready, one whose reply is refused carries the
/// verdict of the refusal with the group named before each reason, and an error among the
/// replies is the error of the whole.
pub proof fn a_verdict_is_that_of_the_groups_own_reply(
    groups: Seq<Task>,
    replies: Seq<Result<AftFit, StatsError>>,
    n: nat,
    g: int,
)
    requires
        0 <= g < n,
    ensures
        crate::bridge::bridged(groups[g].request, replies[g]) is Err ==> assembled(
            groups,
            replies,
            n,
        ) is Err,
        assembled(groups, replies, n) matches Ok(a) ==> a.verdicts.len() == n && match
            crate::bridge::bridged(groups[g].request, replies[g])->Ok_0 {
            Bridging::Fitted(_) => a.verdicts[g].status == FitStatus::Converged
                && a.verdicts[g].reasons.len() == 0,
            Bridging::Refused(v) => {
                &&& a.verdicts[g].status == v.status
                &&& a.verdicts[g].reasons.len() == v.reasons.len()
                &&& forall|i: int|
                    0 <= i < v.reasons.len() ==> (#[trigger] a.verdicts[g].reasons[i])
                        == Message::saying("group '"@ + groups[g].key + "': "@) + v.reasons[i]
            },
        },
{
    if assembled(groups, replies, n) is Ok {
        lemma_own_verdict(groups, replies, n, g);
    }
}

/// A block's coefficients are its coordinates as they are, and its scale is the exponential of
/// the coordinate after them where it is estimated, and fixed where it is not.
pub proof fn a_blocks_parameters_are_computed_from_its_coordinates(meta: BlockMeta)
    ensures
        ({
            let f = formulas(meta);
            let n = meta.n_coef as int;
            &&& f.len() == n + 1
            &&& forall|k: int|
                0 <= k < n ==> (#[trigger] f[k]) == (Formula::Coordinate { at: k as usize })
            &&& f[n] == if meta.fit_scale {
                Formula::Exp { at: n as usize }
            } else {
                Formula::Fixed { value: meta.fixed_scale }
            }
        }),
{
}

/// What is read for the identity of the data is what a fit is made of: every column that the
/// options name, at every complete row, and nothing else.
pub proof fn the_columns_read_are_the_ones_named(cfg: Config, data: DataView, reading: Reading)
    requires
        reads(cfg@, data) == Ok::<Entries, Fault>(reading@),
    ensures
        crate::reading::holds_the_columns(
            data,
            columns_named(cfg.entries@),
            keys_named(cfg.entries@),
            reading,
        ),
{
    a_request_is_what_its_options_say(cfg@);
    let asked = Asked::of(cfg@)->Ok_0;
    assert(asked.columns() =~= columns_named(cfg.entries@));
    assert(crate::panel::group_columns(asked.group) =~= keys_named(cfg.entries@));
    crate::reading::a_reading_holds_the_named_columns(
        data,
        columns_named(cfg.entries@),
        keys_named(cfg.entries@),
        reading,
    );
}

/// A sound request that a relation cannot serve is refused for a column that is not there, or
/// for the reserved label.
pub proof fn a_refusal_says_what_is_wrong(cfg: Config, data: DataView, e: BayesError)
    requires
        planned(cfg@, data) == Err::<Planned, Fault>(e@),
        request_is_sound(cfg.entries@),
    ensures
        ({
            let entries = cfg.entries@;
            let names = columns_named(entries);
            let keys = keys_named(entries);
            if (exists|c: int| 0 <= c < names.len() && data.column(#[trigger] names[c]) is None) || (
            exists|c: int| 0 <= c < keys.len() && data.key_column(#[trigger] keys[c]) is None) {
                crate::panel::names_a_missing_column(data, names, keys, e)
            } else {
                crate::catalog::common::refuses(e, "group"@)
            }
        }),
{
    let entries = cfg.entries@;
    a_request_is_what_its_options_say(cfg@);
    let asked = Asked::of(cfg@)->Ok_0;
    let columns = asked.columns();
    assert(columns =~= columns_named(entries));
    let keys = crate::panel::group_columns(asked.group);
    assert(keys =~= keys_named(entries));
    crate::panel::the_rows_read_are_the_complete_ones(data, columns, keys);
    crate::panel::a_panel_is_refused_for_what_is_missing(data, columns, asked.group, true, e);
}

/// Whether a slot of the options is at fault: it is not known, or what is written in it may not
/// stand there, or the prior is not sound.
pub open spec fn is_at_fault(entries: Seq<Entry>, slot: Seq<char>) -> bool {
    ||| exists|i: int|
        0 <= i < entries.len() && slot == (#[trigger] entries[i]).name@ && !seq![
            "time"@,
            "event"@,
            "x"@,
            "intercept"@,
            "group"@,
            "dist"@,
            "prior"@,
            "draws"@,
            "chains"@,
            "max_draw_megabytes"@,
            "seed"@,
            "engine"@,
            "sample_from"@,
        ].contains(slot)
    ||| slot == "time"@ && (crate::config::text_of(entries, "time"@) is None)
    ||| slot == "event"@ && (crate::config::text_of(entries, "event"@) is None)
    ||| slot == "x"@ && ((!crate::config::takes_texts(entries, "x"@))
        || (crate::config::texts_of(entries, "x"@).len() == 0 && !has_intercept(entries)
        || crate::config::texts_of(entries, "x"@).contains(crate::config::text_of(entries, "time"@)->0)
        || crate::config::texts_of(entries, "x"@).contains(crate::config::text_of(entries, "event"@)->0)))
    ||| slot == "intercept"@ && (!crate::config::takes_number(entries, "intercept"@))
    ||| slot == "group"@ && (!crate::config::takes_text(entries, "group"@))
    ||| slot == "dist"@ && (!crate::config::takes_text(entries, "dist"@)
        || (crate::config::text_of(entries, "dist"@) matches Some(s) && !seq![
        "weibull"@,
        "lognormal"@,
        "loglogistic"@,
        "exponential"@,
    ].contains(s)))
    ||| {
        let table = crate::config::table_of(entries, "prior"@);
        !(crate::config::takes_table(entries, "prior"@) && crate::config::only(
            table,
            seq!["beta_scale"@],
        ) && crate::config::takes_number(table, "beta_scale"@) && scale_written(entries).scaled()
            > 0)
    }
}

/// A request that is refused for its options names a slot that is at fault.
#[verifier::rlimit(40)]
pub proof fn the_slot_that_is_named_is_at_fault(cfg: Config)
    ensures
        Asked::of(cfg@) matches Err(f) ==> (f matches Fault::Config { slot, .. } && is_at_fault(
            cfg.entries@,
            slot,
        )),
{
    let entries = cfg.entries@;
    let known = crate::text::words(SLOTS@);
    assert(known =~= seq![
        "time"@,
        "event"@,
        "x"@,
        "intercept"@,
        "group"@,
        "dist"@,
        "prior"@,
        "draws"@,
        "chains"@,
        "max_draw_megabytes"@,
        "seed"@,
        "engine"@,
        "sample_from"@,
    ]);
    crate::config::an_unknown_slot_is_named_by_its_path(cfg@, known);
    assert forall|name: Seq<char>| #[trigger] (Seq::<char>::empty() + name) == name by {
        assert(Seq::<char>::empty() + name =~= name);
    }
    crate::config::a_text_slot_gives_the_text_written(cfg@, "time"@);
    crate::config::a_refused_slot_is_named_by_its_path(
        cfg@,
        "time"@,
        Double { bits: 0 },
        0,
        1,
        0,
        Seq::empty(),
        "time"@,
    );
    crate::config::a_text_slot_gives_the_text_written(cfg@, "event"@);
    crate::config::a_refused_slot_is_named_by_its_path(
        cfg@,
        "event"@,
        Double { bits: 0 },
        0,
        1,
        0,
        Seq::empty(),
        "event"@,
    );
    crate::config::a_text_slot_gives_the_text_written(cfg@, "x"@);
    crate::config::a_refused_slot_is_named_by_its_path(
        cfg@,
        "x"@,
        Double { bits: 0 },
        0,
        1,
        0,
        Seq::empty(),
        "x"@,
    );
    crate::config::a_number_slot_gives_the_number_written(
        cfg@,
        "intercept"@,
        Double { bits: 0x3FF0_0000_0000_0000 },
    );
    crate::config::a_refused_slot_is_named_by_its_path(
        cfg@,
        "intercept"@,
        Double { bits: 0x3FF0_0000_0000_0000 },
        0,
        1,
        0,
        Seq::empty(),
        "intercept"@,
    );
    crate::config::a_text_slot_gives_the_text_written(cfg@, "group"@);
    crate::config::a_refused_slot_is_named_by_its_path(
        cfg@,
        "group"@,
        Double { bits: 0 },
        0,
        1,
        0,
        Seq::empty(),
        "group"@,
    );
    assert(crate::text::words(DISTRIBUTIONS@) =~= seq![
        "weibull"@,
        "lognormal"@,
        "loglogistic"@,
        "exponential"@,
    ]);
    assert(seq!["weibull"@, "lognormal"@, "loglogistic"@, "exponential"@][0] == "weibull"@);
    assert(seq!["weibull"@, "lognormal"@, "loglogistic"@, "exponential"@][1] == "lognormal"@);
    assert(seq!["weibull"@, "lognormal"@, "loglogistic"@, "exponential"@][2] == "loglogistic"@);
    assert(seq!["weibull"@, "lognormal"@, "loglogistic"@, "exponential"@][3] == "exponential"@);
    crate::config::a_choice_is_the_word_written(
        cfg@,
        "dist"@,
        crate::text::words(DISTRIBUTIONS@),
        "weibull"@,
    );
    crate::config::a_refused_slot_is_named_by_its_path(
        cfg@,
        "dist"@,
        Double { bits: 0 },
        0,
        1,
        0,
        crate::text::words(DISTRIBUTIONS@),
        "weibull"@,
    );
    crate::bridge::a_distribution_is_known_by_its_name(
        cfg@.choice("dist"@, crate::text::words(DISTRIBUTIONS@), "weibull"@)->Ok_0,
    );
    crate::double::zero_is_nothing();
    crate::double::the_bits_of_a_number_order_it(
        Double { bits: 0 },
        Double { bits: 0x3FF0_0000_0000_0000 },
    );
    crate::double::the_bits_of_a_number_order_it(
        Double { bits: 0 },
        Double { bits: 0x7FF0_0000_0000_0000 },
    );
    crate::config::a_text_slot_gives_the_text_written(cfg@, "prior"@);
    if let Ok(table) = cfg@.table("prior"@) {
        let inner = crate::text::words(PRIOR_SLOTS@);
        assert(inner =~= seq!["beta_scale"@]);
        crate::config::an_unknown_slot_is_named_by_its_path(table, inner);
        crate::config::a_number_slot_gives_the_number_written(
            table,
            "beta_scale"@,
            Double { bits: 0x7FF0_0000_0000_0000 },
        );
    }
}

impl CensoredAft {
    pub fn id(&self) -> (r: &'static str)
        ensures
            r@ == ID@,
    {
        ID
    }

    pub fn code(&self) -> (r: FamilyCode)
        ensures
            r == FamilyCode::CensoredAft,
    {
        FamilyCode::CensoredAft
    }

    pub fn description(&self) -> (r: &'static str)
        ensures
            r@ == DESCRIPTION@,
    {
        DESCRIPTION
    }

    /// There is no closed form: the posterior is a Gaussian at the mode.
    pub fn default_engine(&self) -> (r: EngineKind)
        ensures
            r == EngineKind::Laplace,
    {
        EngineKind::Laplace
    }

    pub fn config_slots(&self) -> (r: [&'static str; 13])
        ensures
            r == SLOTS,
    {
        SLOTS
    }

    /// Reads a request and the relation it names, and lists the fits to be made.
    pub fn compile(&self, cfg: &Config, data: &DataView) -> (r: BayesResult<CensoredAftPlan>)
        requires
            data.wf(),
            cfg@.list_fits("x"@),
        ensures
            crate::errors::outcome(r) == planned(cfg@, *data),
            r matches Ok(p) ==> p.wf(),
    {
        plan(cfg, data)
    }

    /// The columns and rows that a fit of this request reads: what the fingerprint of its
    /// data is taken of.
    pub fn reading(&self, cfg: &Config, data: &DataView) -> (r: BayesResult<Reading>)
        requires
            data.wf(),
        ensures
            crate::errors::outcome(r) == reads(cfg@, *data),
    {
        let request = Request::parse(cfg)?;
        read_columns(data, request.list_columns(), &request.group)
    }
}

} // verus!
