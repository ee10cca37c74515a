//! Hierarchical positive durations: how late a segment pays.
//!
//! ```text
//!   log mu_i = intercept + tau * z_{g(i)} + x_i'beta,     z_g ~ N(0, 1)
//!
//!   y_i ~ Gamma(shape, shape / mu_i)   or   Lognormal with mean mu_i
//! ```
use super::common::{
    are_finite_until, every_same, few_groups, implicated, is_in_box, named_columns,
    push_level_pairs, readiness_of, status_of, PRIOR_DRAW_REFUSAL,
};
use crate::config::{Config, Entry, Scope, Section};
use crate::data::{gather, gather_all, DataView, KeyColumn, NumericColumn};
use crate::double::Double;
use crate::draws::{push_coefficients, push_global, push_two_each, ParamId, ParamName};
use crate::errors::{BayesError, BayesResult, Fault, Message};
use crate::formula::{absent, push_coordinates, Formula, Sign};
use crate::panel::{read_panel, PanelView};
use crate::readiness::{Readiness, Verdict};
use crate::reading::{read_columns, Entries, Reading};
use crate::text::{decimal, same_text};
use crate::types::{global_group_key, EngineKind, FamilyCode, FitStatus};
use vstd::prelude::*;

verus! {

/// The family of payment delays.
#[derive(Debug)]
pub struct PaymentDelay;

pub const SLOTS: [&'static str; 13] = [
    "y",
    "group",
    "x",
    "dist",
    "min_groups",
    "prior",
    "draws",
    "chains",
    "warmup",
    "max_draw_megabytes",
    "seed",
    "engine",
    "sample_from",
];

pub const PRIOR_SLOTS: [&'static str; 4] = ["intercept", "beta", "tau", "dispersion"];

pub const DISTRIBUTIONS: [&'static str; 2] = ["gamma", "lognormal"];

/// The bits of 1: one log unit of spread between segments.
pub const TAU_SCALE_BITS: u64 = 0x3FF0_0000_0000_0000;

pub const ID: &'static str = "payment_delay";

pub const DESCRIPTION: &'static str =
    "Hierarchical positive-duration GLM -- Gamma or lognormal delays with a \
     partially pooled per-group log-mean, non-centred -- for payment behaviour \
     per customer segment and the cash-cover probability a liquidity decision \
     reads off its right tail. Segments that differ in spread rather than in level \
     are 'varying_variance_gaussian'.";

pub const LAPLACE_REFUSAL: &'static str =
    "'payment_delay' is served by NUTS only. A Laplace posterior is a Gaussian \
     at the joint mode, and a non-centred hierarchy has no usable one: the \
     likelihood does not depend on the pooling scale when every group offset is \
     zero, so the mode search climbs a ridge that carries no posterior mass. \
     Drop the 'engine' slot to use the default";

pub const OPEN_ITEM: &'static str =
    "must be a strictly positive duration for every item; row ";

pub const OPEN_ITEM_ADVICE: &'static str =
    " has none. An item that has not been paid yet is a censored observation, which \
     this family does not model: leave open items out, or use 'censored_aft'";

pub const DURATION_NEEDED: &'static str = "must be a strictly positive duration; row ";

pub const DURATION_ADVICE: &'static str =
    ". A delay measured from the *due* date is negative whenever an invoice is \
     paid early, and this family has no support there: measure the \
     delay from the invoice date, or model log(delay) with \
     'pooled_gaussian' where a negative value is admissible. An \
     open item that has not been paid at all is right-censored \
     rather than zero, and belongs to 'censored_aft'";

pub const FEW_GROUPS: &'static str =
    ": a pooling scale estimated from this few describes the sample rather than the \
     population, and every per-segment interval inherits that";

pub const NO_VARIATION: &'static str =
    ", so the dispersion is identified only in the limit of a point mass and there is no interior \
     maximum to put a posterior around. A ledger whose invoices all clear on \
     the same day needs no model";

pub const NO_VARIATION_ADVICE: &'static str =
    "; set a proper `prior.dispersion` if a prior-only answer is wanted";

/// The distribution of a delay about its mean.
#[derive(Debug, Clone, Copy, PartialEq, Eq, Structural)]
pub enum Dist {
    Gamma,
    Lognormal,
}

impl Dist {
    /// What a name stands for.
    pub open spec fn named(name: Seq<char>) -> Result<Dist, Fault> {
        if name == "gamma"@ {
            Ok(Dist::Gamma)
        } else if name == "lognormal"@ {
            Ok(Dist::Lognormal)
        } else {
            Err(Fault::config("dist"@, "unknown: '"@ + name + "'"@))
        }
    }

    pub open spec fn spec_dispersion_name(self) -> Seq<char> {
        match self {
            Dist::Gamma => "shape"@,
            Dist::Lognormal => "sigma"@,
        }
    }

    pub fn parse(name: &str) -> (r: BayesResult<Dist>)
        ensures
            crate::errors::plain(r) == Dist::named(name@),
    {
        if same_text(name, "gamma") {
            Ok(Dist::Gamma)
        } else if same_text(name, "lognormal") {
            Ok(Dist::Lognormal)
        } else {
            Err(BayesError::config_text("dist", "unknown: '".to_owned().concat(name).concat("'")))
        }
    }

    /// The name the dispersion is reported under. The two point opposite ways: a large
    /// shape is a tight Gamma, a large sigma a wide lognormal.
    pub fn dispersion_name(&self) -> (r: &'static str)
        ensures
            r@ == self.spec_dispersion_name(),
    {
        match self {
            Dist::Gamma => "shape",
            Dist::Lognormal => "sigma",
        }
    }
}

/// Prior hyperparameters.
#[derive(Debug, Clone, Copy)]
pub struct Prior {
    pub intercept_mean: Double,
    pub intercept_sd: Double,
    pub beta_scale: Double,
    /// Half-Normal scale of the spread between segments.
    pub tau_scale: Double,
    /// Mean and standard deviation of the log of the dispersion.
    pub dispersion_log: (Double, Double),
}

impl Prior {
    /// The prior that a table of options asks for.
    pub open spec fn asked(cfg: Scope) -> Result<Prior, Fault> {
        let zero = Double { bits: 0 };
        let flat = Double::spec_infinity();
        let intercept = cfg.centre_and_spread("intercept"@, "mean"@, zero, "sd"@, flat);
        let beta = cfg.scale("beta"@, flat);
        let tau = cfg.scale("tau"@, Double { bits: TAU_SCALE_BITS });
        let dispersion = cfg.centre_and_spread(
            "dispersion"@,
            "log_mean"@,
            zero,
            "log_sd"@,
            flat,
        );
        if let Some(f) = cfg.unknown_slot(crate::text::words(PRIOR_SLOTS@)) {
            Err(f)
        } else if let Err(f) = intercept {
            Err(f)
        } else if let Err(f) = beta {
            Err(f)
        } else if let Err(f) = tau {
            Err(f)
        } else if let Err(f) = dispersion {
            Err(f)
        } else {
            Ok(
                Prior {
                    intercept_mean: intercept->Ok_0.0,
                    intercept_sd: intercept->Ok_0.1,
                    beta_scale: beta->Ok_0,
                    tau_scale: tau->Ok_0,
                    dispersion_log: dispersion->Ok_0,
                },
            )
        }
    }

    /// Whether every coordinate carries a proper prior.
    pub open spec fn proper(self) -> bool {
        &&& self.intercept_sd.finite()
        &&& self.beta_scale.finite()
        &&& self.tau_scale.finite()
        &&& self.dispersion_log.1.finite()
    }

    pub fn parse(cfg: &Section) -> (r: BayesResult<Prior>)
        ensures
            crate::errors::plain(r) == Prior::asked(cfg@),
    {
        cfg.reject_unknown(&PRIOR_SLOTS)?;
        let zero = Double::zero();
        let flat = Double::infinity();
        let intercept = cfg.location_and_scale("intercept", "mean", zero, "sd", flat)?;
        let beta_scale = cfg.scale_or("beta", flat)?;
        let tau_scale = cfg.scale_or("tau", Double { bits: TAU_SCALE_BITS })?;
        let dispersion_log = cfg.location_and_scale(
            "dispersion",
            "log_mean",
            zero,
            "log_sd",
            flat,
        )?;
        Ok(
            Prior {
                intercept_mean: intercept.0,
                intercept_sd: intercept.1,
                beta_scale,
                tau_scale,
                dispersion_log,
            },
        )
    }

    /// Whether every coordinate carries a proper prior.
    pub fn is_proper(&self) -> (r: bool)
        ensures
            r == self.proper(),
    {
        self.intercept_sd.is_finite() && self.beta_scale.is_finite() && self.tau_scale.is_finite()
            && self.dispersion_log.1.is_finite()
    }
}

/// What a request asks for.
#[derive(Debug)]
pub struct Request {
    pub y: String,
    pub group: String,
    pub x: Vec<String>,
    pub dist: Dist,
    pub min_groups: usize,
    pub prior: Prior,
}

/// What a [`Request`] says.
#[verifier::ext_equal]
pub struct Asked {
    pub y: Seq<char>,
    pub group: Seq<char>,
    pub x: Seq<Seq<char>>,
    pub dist: Dist,
    pub min_groups: usize,
    pub prior: Prior,
}

impl View for Request {
    type V = Asked;

    open spec fn view(&self) -> Asked {
        Asked {
            y: self.y@,
            group: self.group@,
            x: crate::text::texts(self.x@),
            dist: self.dist,
            min_groups: self.min_groups,
            prior: self.prior,
        }
    }
}

impl Asked {
    /// The request that the options make, or the first thing wrong with them.
    pub open spec fn of(cfg: Scope) -> Result<Asked, Fault> {
        let y = cfg.required_text("y"@);
        let group = cfg.required_text("group"@);
        let x = cfg.text_list("x"@);
        let chosen = cfg.choice("dist"@, crate::text::words(DISTRIBUTIONS@), "gamma"@);
        let dist = Dist::named(chosen->Ok_0);
        let min_groups = cfg.count_in("min_groups"@, 3, 2, 1_000_000_000);
        let table = cfg.table("prior"@);
        let prior = Prior::asked(table->Ok_0);
        if let Some(f) = cfg.unknown_slot(crate::text::words(SLOTS@)) {
            Err(f)
        } else if let Err(f) = y {
            Err(f)
        } else if let Err(f) = group {
            Err(f)
        } else if let Err(f) = x {
            Err(f)
        } else if let Err(f) = chosen {
            Err(f)
        } else if let Err(f) = dist {
            Err(f)
        } else if let Err(f) = min_groups {
            Err(f)
        } else if let Err(f) = cfg.laplace_requested() {
            Err(f)
        } else if cfg.laplace_requested()->Ok_0 {
            Err(Fault::config("engine"@, LAPLACE_REFUSAL@))
        } else if let Err(f) = cfg.prior_draws_requested() {
            Err(f)
        } else if cfg.prior_draws_requested()->Ok_0 {
            Err(Fault::config("sample_from"@, PRIOR_DRAW_REFUSAL@))
        } else if let Err(f) = table {
            Err(f)
        } else if let Err(f) = prior {
            Err(f)
        } else {
            Ok(
                Asked {
                    y: y->Ok_0,
                    group: group->Ok_0,
                    x: x->Ok_0,
                    dist: dist->Ok_0,
                    min_groups: min_groups->Ok_0,
                    prior: prior->Ok_0,
                },
            )
        }
    }

    /// The number columns that the request reads.
    pub open spec fn columns(self) -> Seq<Seq<char>> {
        seq![self.y] + self.x
    }
}

impl Request {
    /// Reads a request from its options.
    pub fn parse(cfg: &Config) -> (r: BayesResult<Request>)
        ensures
            crate::errors::outcome(r) == Asked::of(cfg@),
    {
        let cfg = cfg.root();
        cfg.reject_unknown(&SLOTS)?;
        let y = cfg.require_str("y")?;
        let group = cfg.require_str("group")?;
        let x = cfg.str_list("x")?;
        let chosen = cfg.one_of("dist", &DISTRIBUTIONS, "gamma")?;
        let dist = Dist::parse(chosen.as_str())?;
        let min_groups = cfg.usize_in("min_groups", 3, 2, 1_000_000_000)?;
        if cfg.asks_for_laplace()? {
            return Err(BayesError::config("engine", LAPLACE_REFUSAL));
        }
        if cfg.asks_for_prior_draws()? {
            return Err(BayesError::config("sample_from", PRIOR_DRAW_REFUSAL));
        }
        let table = cfg.nested("prior")?;
        let prior = Prior::parse(&table)?;
        Ok(Request { y, group, x, dist, min_groups, prior })
    }

    /// The number columns that the request reads.
    fn list_columns(&self) -> (r: Vec<String>)
        ensures
            crate::text::texts(r@) == self@.columns(),
    {
        named_columns(self.y.as_str(), &self.x)
    }
}

/// What is wrong with a row, if anything: a delay must be a finite number above zero.
pub open spec fn row_fault(y: Double, row: usize) -> Option<Fault> {
    if !y.finite_positive() {
        Some(
            Fault::config_showing(
                "y"@,
                DURATION_NEEDED@ + crate::text::numeral(row as nat) + " is "@,
                y,
                DURATION_ADVICE@,
            ),
        )
    } else {
        None
    }
}

/// Row by row, what is wrong with it.
pub open spec fn row_checks(y: NumericColumn, order: Seq<usize>) -> Seq<Option<Fault>> {
    Seq::new(order.len(), |i: int| row_fault(y.values@[order[i] as int], order[i]))
}

fn check_rows(y: &NumericColumn, order: &Vec<usize>) -> (r: BayesResult<()>)
    requires
        crate::data::rows_within(order@, y.values@.len() as int),
    ensures
        match r {
            Ok(_) => crate::data::first_fault(row_checks(*y, order@)) is None,
            Err(e) => crate::data::first_fault(row_checks(*y, order@)) == Some(e@),
        },
{
    let ghost checks = row_checks(*y, order@);
    let mut k: usize = 0;
    while k < order.len()
        invariant
            k <= order@.len(),
            crate::data::rows_within(order@, y.values@.len() as int),
            checks == row_checks(*y, order@),
            forall|i: int| 0 <= i < k ==> (#[trigger] checks[i]) is None,
        decreases order@.len() - k,
    {
        let row: usize = order[k];
        let v = y.values[row];
        if !v.is_finite_positive() {
            proof {
                crate::data::lemma_first_fault(checks, k as int);
            }
            return Err(
                BayesError::config_number(
                    "y",
                    DURATION_NEEDED.to_owned().concat(decimal(row).as_str()).concat(" is "),
                    v,
                    DURATION_ADVICE,
                ),
            );
        }
        k += 1;
    }
    proof {
        crate::data::lemma_first_fault(checks, k as int);
    }
    Ok(())
}

/// Per row of the relation, the fault of a segment's item that has no delay.
///
/// An open item is a censored observation: leaving it out in silence would bias every
/// delay downward.
pub open spec fn open_item_checks(y: NumericColumn, group: KeyColumn, n_rows: nat) -> Seq<
    Option<Fault>,
> {
    Seq::new(
        n_rows,
        |i: int|
            if group.valid@[i] && !y.valid@[i] {
                Some(
                    Fault::config("y"@, OPEN_ITEM@ + crate::text::numeral(i as nat) + OPEN_ITEM_ADVICE@),
                )
            } else {
                None
            },
    )
}

fn check_open_items(y: &NumericColumn, group: &KeyColumn, n_rows: usize) -> (r: BayesResult<()>)
    requires
        y.valid@.len() == n_rows,
        group.valid@.len() == n_rows,
    ensures
        match r {
            Ok(_) => crate::data::first_fault(open_item_checks(*y, *group, n_rows as nat)) is None,
            Err(e) => crate::data::first_fault(open_item_checks(*y, *group, n_rows as nat)) == Some(
                e@,
            ),
        },
{
    let ghost checks = open_item_checks(*y, *group, n_rows as nat);
    let mut i: usize = 0;
    while i < n_rows
        invariant
            i <= n_rows,
            y.valid@.len() == n_rows,
            group.valid@.len() == n_rows,
            checks == open_item_checks(*y, *group, n_rows as nat),
            forall|k: int| 0 <= k < i ==> (#[trigger] checks[k]) is None,
        decreases n_rows - i,
    {
        if group.valid[i] && !y.valid[i] {
            proof {
                crate::data::lemma_first_fault(checks, i as int);
            }
            return Err(
                BayesError::config(
                    "y",
                    OPEN_ITEM.to_owned().concat(decimal(i).as_str()).concat(
                        OPEN_ITEM_ADVICE,
                    ).as_str(),
                ),
            );
        }
        i += 1;
    }
    proof {
        crate::data::lemma_first_fault(checks, i as int);
    }
    Ok(())
}

/// A compiled model.
#[derive(Debug)]
pub struct CompiledPaymentDelay {
    pub params: Vec<ParamName>,
    /// Delay, one entry per usable row.
    pub y: Vec<Double>,
    /// Covariate columns.
    pub x: Vec<Vec<Double>>,
    pub group_of: Vec<usize>,
    pub group_keys: Vec<String>,
    pub dist: Dist,
    pub prior: Prior,
    pub structural: Option<Readiness>,
}

/// What a [`CompiledPaymentDelay`] holds.
#[verifier::ext_equal]
pub struct Read {
    pub params: Seq<ParamId>,
    pub y: Seq<Double>,
    pub x: Seq<Seq<Double>>,
    pub group_of: Seq<usize>,
    pub group_keys: Seq<Seq<char>>,
    pub dist: Dist,
    pub prior: Prior,
    pub structural: Option<Verdict>,
}

impl View for CompiledPaymentDelay {
    type V = Read;

    open spec fn view(&self) -> Read {
        Read {
            params: crate::draws::ids(self.params@),
            y: self.y@,
            x: crate::data::lists(self.x@),
            group_of: self.group_of@,
            group_keys: crate::text::texts(self.group_keys@),
            dist: self.dist,
            prior: self.prior,
            structural: crate::catalog::common::verdict_of(self.structural),
        }
    }
}

/// The parameters, in the order in which draws report them.
pub open spec fn param_ids(x: Seq<Seq<char>>, keys: Seq<Seq<char>>, dist: Dist) -> Seq<ParamId> {
    seq![ParamId::global("intercept"@)] + crate::draws::coefficients(
        crate::types::global_group(),
        x,
    ) + seq![ParamId::global("tau"@)] + seq![ParamId::global(dist.spec_dispersion_name())]
        + crate::draws::two_each(keys, "u"@, "mu"@)
}

/// The parameters of the population: intercept, coefficients, pooling scale, dispersion.
pub open spec fn population_count(p: int) -> int {
    3 + p
}

/// The verdict that the data forces, if any. Too few segments come first.
pub open spec fn structural_verdict(
    y: Seq<Double>,
    n_groups: nat,
    min_groups: usize,
    prior: Prior,
) -> Option<Verdict> {
    if n_groups < min_groups {
        Some(crate::catalog::common::few_groups_verdict(n_groups, min_groups, FEW_GROUPS@))
    } else if crate::catalog::common::all_same(y) {
        Some(
            Verdict::because(
                FitStatus::Degenerate,
                Message::showing(
                    "every one of the "@ + crate::text::numeral(y.len()) + " delays is exactly "@,
                    y[0],
                    if prior.proper() {
                        NO_VARIATION@
                    } else {
                        NO_VARIATION@ + NO_VARIATION_ADVICE@
                    },
                ),
            ),
        )
    } else {
        None
    }
}

impl Read {
    /// The model of a panel.
    pub open spec fn of(data: DataView, asked: Asked, panel: PanelView) -> Read {
        let y = crate::data::gathered(data.column(asked.y)->0, panel.order());
        Read {
            params: param_ids(asked.x, panel.keys(), asked.dist),
            y,
            x: Seq::new(
                asked.x.len(),
                |k: int| crate::data::gathered(data.column(asked.x[k])->0, panel.order()),
            ),
            group_of: panel.group_of(),
            group_keys: panel.keys(),
            dist: asked.dist,
            prior: asked.prior,
            structural: structural_verdict(y, panel.keys().len(), asked.min_groups, asked.prior),
        }
    }
}

/// What a request makes of a relation: the model, or the first thing that stands in its
/// way, in the order options, columns, group keys, open items, rows, number of rows.
pub open spec fn built(cfg: Scope, data: DataView) -> Result<Read, Fault> {
    match Asked::of(cfg) {
        Err(f) => Err(f),
        Ok(asked) => match crate::panel::panel_of(data, asked.columns(), Some(asked.group), true) {
            Err(f) => Err(f),
            Ok(panel) => {
                let open = open_item_checks(
                    data.column(asked.y)->0,
                    data.key_column(asked.group)->0,
                    data.n_rows as nat,
                );
                let checks = row_checks(data.column(asked.y)->0, panel.order());
                let n = panel.order().len();
                if let Some(f) = crate::data::first_fault(open) {
                    Err(f)
                } else if let Some(f) = crate::data::first_fault(checks) {
                    Err(f)
                } else if n <= population_count(asked.x.len() as int) {
                    Err(
                        Fault::InsufficientData {
                            rows: n as usize,
                            params: population_count(asked.x.len() as int) as usize,
                        },
                    )
                } else {
                    Ok(Read::of(data, asked, panel))
                }
            },
        },
    }
}

/// What a request reads of a relation, or the first thing wrong with its options and
/// columns.
pub open spec fn reads(cfg: Scope, data: DataView) -> Result<Entries, Fault> {
    match Asked::of(cfg) {
        Err(f) => Err(f),
        Ok(asked) => crate::reading::reading_of(
            data,
            asked.columns(),
            crate::panel::group_columns(Some(asked.group)),
        ),
    }
}

/// A model has one response per row that was read.
pub proof fn a_model_holds_every_row_read(cfg: Scope, data: DataView)
    ensures
        built(cfg, data) matches Ok(model) ==> (reads(cfg, data) matches Ok(r) && model.y.len()
            == r.rows.len()),
{
    if let Ok(asked) = Asked::of(cfg) {
        crate::panel::a_panel_holds_each_row_read_once(
            data,
            asked.columns(),
            Some(asked.group),
            true,
        );
    }
}

/// Two relations that were read alike give the same model, unless one of them holds an open
/// item, which is refused: nothing else of a relation reaches it.
pub proof fn what_is_read_decides_the_model(cfg: Scope, a: DataView, b: DataView)
    requires
        built(cfg, a) is Ok,
        reads(cfg, b) is Ok,
        Asked::of(cfg) matches Ok(asked) ==> crate::data::first_fault(
            open_item_checks(
                b.column(asked.y)->0,
                b.key_column(asked.group)->0,
                b.n_rows as nat,
            ),
        ) is None,
        reads(cfg, a)->Ok_0.same_entries(reads(cfg, b)->Ok_0),
    ensures
        built(cfg, a) == built(cfg, b),
{
    let asked = Asked::of(cfg)->Ok_0;
    let columns = asked.columns();
    crate::reading::what_is_read_decides_the_panel(a, b, columns, Some(asked.group), true);
    let mine = crate::panel::panel_of(a, columns, Some(asked.group), true)->Ok_0;
    let theirs = crate::panel::panel_of(b, columns, Some(asked.group), true)->Ok_0;
    let values_a = crate::data::gathered(a.column(asked.y)->0, mine.order());
    let values_b = crate::data::gathered(b.column(asked.y)->0, theirs.order());
    let checks_a = row_checks(a.column(asked.y)->0, mine.order());
    let checks_b = row_checks(b.column(asked.y)->0, theirs.order());
    assert(columns[0] == asked.y);
    assert forall|i: int| 0 <= i < checks_a.len() && checks_a[i] is None implies (
    #[trigger] checks_b[i]) is None by {
        assert(values_a[i] == values_b[i]);
    }
    crate::data::lemma_no_fault_follows(checks_a, checks_b);
    let m = built(cfg, a)->Ok_0;
    let n = built(cfg, b)->Ok_0;
    assert forall|k: int| 0 <= k < asked.x.len() implies #[trigger] m.x[k] == n.x[k] by {
        assert(columns[1 + k] == asked.x[k]);
    }
    assert(m.x =~= n.x);
    assert(m =~= n);
}

/// The names of the number columns that a request names.
pub open spec fn columns_named(entries: Seq<Entry>) -> Seq<Seq<char>> {
    seq![crate::config::text_of(entries, "y"@)->0] + crate::config::texts_of(entries, "x"@)
}

/// Whether the table of a prior may be written as it is.
pub open spec fn prior_is_sound(entries: Seq<Entry>) -> bool {
    &&& crate::config::only(entries, seq!["intercept"@, "beta"@, "tau"@, "dispersion"@])
    &&& crate::config::takes_table(entries, "intercept"@)
    &&& crate::config::only(crate::config::table_of(entries, "intercept"@), seq!["mean"@, "sd"@])
    &&& crate::config::takes_number(crate::config::table_of(entries, "intercept"@), "mean"@)
    &&& crate::config::takes_positive(crate::config::table_of(entries, "intercept"@), "sd"@)
    &&& crate::config::takes_table(entries, "beta"@)
    &&& crate::config::only(crate::config::table_of(entries, "beta"@), seq!["scale"@])
    &&& crate::config::takes_positive(crate::config::table_of(entries, "beta"@), "scale"@)
    &&& crate::config::takes_table(entries, "tau"@)
    &&& crate::config::only(crate::config::table_of(entries, "tau"@), seq!["scale"@])
    &&& crate::config::takes_positive(crate::config::table_of(entries, "tau"@), "scale"@)
    &&& crate::config::takes_table(entries, "dispersion"@)
    &&& crate::config::only(crate::config::table_of(entries, "dispersion"@), seq!["log_mean"@, "log_sd"@])
    &&& crate::config::takes_number(crate::config::table_of(entries, "dispersion"@), "log_mean"@)
    &&& crate::config::takes_positive(crate::config::table_of(entries, "dispersion"@), "log_sd"@)
}

/// Whether a prior is the one that its table asks for: each number from the slot of its own
/// name, and its default where nothing is written.
pub open spec fn prior_is_as_written(entries: Seq<Entry>, prior: Prior) -> bool {
    &&& prior.intercept_mean == crate::config::number_or(
        crate::config::table_of(entries, "intercept"@),
        "mean"@,
        Double { bits: 0 },
    )
    &&& prior.intercept_sd == crate::config::number_or(
        crate::config::table_of(entries, "intercept"@),
        "sd"@,
        Double { bits: 0x7FF0_0000_0000_0000 },
    )
    &&& prior.beta_scale == crate::config::number_or(
        crate::config::table_of(entries, "beta"@),
        "scale"@,
        Double { bits: 0x7FF0_0000_0000_0000 },
    )
    &&& prior.tau_scale == crate::config::number_or(
        crate::config::table_of(entries, "tau"@),
        "scale"@,
        Double { bits: 0x3FF0_0000_0000_0000 },
    )
    &&& prior.dispersion_log.0 == crate::config::number_or(
        crate::config::table_of(entries, "dispersion"@),
        "log_mean"@,
        Double { bits: 0 },
    )
    &&& prior.dispersion_log.1 == crate::config::number_or(
        crate::config::table_of(entries, "dispersion"@),
        "log_sd"@,
        Double { bits: 0x7FF0_0000_0000_0000 },
    )
}

proof fn lemma_prior_asked(cfg: Scope)
    ensures
        Prior::asked(cfg) is Ok <==> prior_is_sound(cfg.entries),
        Prior::asked(cfg) matches Ok(prior) ==> prior_is_as_written(cfg.entries, prior),
{
    assert(crate::text::words(PRIOR_SLOTS@) =~= seq!["intercept"@, "beta"@, "tau"@, "dispersion"@]);
    crate::config::an_unknown_slot_is_named_by_its_path(cfg, crate::text::words(PRIOR_SLOTS@));
    crate::config::a_table_gives_the_numbers_written(
        cfg,
        "intercept"@,
        "mean"@,
        Double { bits: 0 },
        "sd"@,
        Double { bits: 0x7FF0_0000_0000_0000 },
    );
    crate::config::a_table_gives_the_numbers_written(
        cfg,
        "beta"@,
        "mean"@,
        Double { bits: 0 },
        "sd"@,
        Double { bits: 0x7FF0_0000_0000_0000 },
    );
    crate::config::a_table_gives_the_numbers_written(
        cfg,
        "tau"@,
        "mean"@,
        Double { bits: 0 },
        "sd"@,
        Double { bits: 0x3FF0_0000_0000_0000 },
    );
    crate::config::a_table_gives_the_numbers_written(
        cfg,
        "dispersion"@,
        "log_mean"@,
        Double { bits: 0 },
        "log_sd"@,
        Double { bits: 0x7FF0_0000_0000_0000 },
    );
}

/// Whether the options of a request may be written as they are.
pub open spec fn request_is_sound(entries: Seq<Entry>) -> bool {
    &&& crate::config::only(entries, seq![
        "y"@,
        "group"@,
        "x"@,
        "dist"@,
        "min_groups"@,
        "prior"@,
        "draws"@,
        "chains"@,
        "warmup"@,
        "max_draw_megabytes"@,
        "seed"@,
        "engine"@,
        "sample_from"@,
    ])
    &&& crate::config::text_of(entries, "y"@) is Some
    &&& crate::config::text_of(entries, "group"@) is Some
    &&& crate::config::takes_texts(entries, "x"@)
    &&& crate::config::takes_text(entries, "dist"@)
    &&& crate::config::text_of(entries, "dist"@) matches Some(s) ==> s == "gamma"@ || s == "lognormal"@
    &&& crate::config::takes_count(entries, "min_groups"@, 2, 1_000_000_000)
    &&& crate::config::takes_text(entries, "engine"@)
    &&& crate::config::text_of(entries, "engine"@) matches Some(s) ==> crate::text::small(s) != "laplace"@
    &&& crate::config::takes_text(entries, "sample_from"@)
    &&& crate::config::text_of(entries, "sample_from"@) != Some("prior"@)
    &&& crate::config::takes_table(entries, "prior"@)
    &&& prior_is_sound(crate::config::table_of(entries, "prior"@))
}

/// A request is what its options say, each taken from the slot of its own name, and it is
/// served exactly when its options may be written as they are.
pub proof fn a_request_is_what_its_options_say(cfg: Scope)
    ensures
        Asked::of(cfg) is Ok <==> request_is_sound(cfg.entries),
        Asked::of(cfg) matches Ok(asked) ==> {
            let e = cfg.entries;
            &&& Some(asked.y) == crate::config::text_of(e, "y"@)
            &&& Some(asked.group) == crate::config::text_of(e, "group"@)
            &&& asked.x == crate::config::texts_of(e, "x"@)
            &&& match crate::config::text_of(e, "dist"@) {
                None => asked.dist == Dist::Gamma,
                Some(s) => (s == "gamma"@ && asked.dist == Dist::Gamma) || (s == "lognormal"@
                    && asked.dist == Dist::Lognormal),
            }
            &&& crate::config::counts_or(e, "min_groups"@, 3, asked.min_groups as nat)
            &&& prior_is_as_written(crate::config::table_of(e, "prior"@), asked.prior)
        },
{
    reveal_strlit("gamma");
    reveal_strlit("lognormal");
    let known = crate::text::words(SLOTS@);
    assert(known =~= seq![
        "y"@,
        "group"@,
        "x"@,
        "dist"@,
        "min_groups"@,
        "prior"@,
        "draws"@,
        "chains"@,
        "warmup"@,
        "max_draw_megabytes"@,
        "seed"@,
        "engine"@,
        "sample_from"@,
    ]);
    crate::config::an_unknown_slot_is_named_by_its_path(cfg, known);
    crate::config::a_text_slot_gives_the_text_written(cfg, "y"@);
    crate::config::a_text_slot_gives_the_text_written(cfg, "group"@);
    crate::config::a_text_slot_gives_the_text_written(cfg, "x"@);
    let admitted = crate::text::words(DISTRIBUTIONS@);
    assert(admitted =~= seq!["gamma"@, "lognormal"@]);
    assert(admitted[0] == "gamma"@ && admitted[1] == "lognormal"@);
    crate::config::a_choice_is_the_word_written(cfg, "dist"@, admitted, "gamma"@);
    crate::config::a_count_slot_gives_the_count_written(cfg, "min_groups"@, 3, 2, 1_000_000_000);
    crate::config::an_engine_and_a_source_are_asked_for_by_name(cfg);
    crate::config::a_text_slot_gives_the_text_written(cfg, "prior"@);
    if let Ok(table) = cfg.table("prior"@) {
        lemma_prior_asked(table);
    }
}

/// Whether a model holds the values of those rows, in that order: of each row its own
/// values, and the number of the group that its label names.
pub open spec fn holds_the_rows(
    entries: Seq<Entry>,
    data: DataView,
    model: CompiledPaymentDelay,
    rows: Seq<usize>,
) -> bool {
    let x = crate::config::texts_of(entries, "x"@);
    let group = crate::config::text_of(entries, "group"@)->0;
    let labels = Seq::new(model.group_keys@.len(), |g: int| model.group_keys@[g]@);
    &&& crate::panel::each_present_row_once(data, columns_named(entries), seq![group], rows)
    &&& crate::panel::grouped_by_label(data.key_column(group)->0, rows, model.group_of@, labels)
    &&& model.y@.len() == rows.len()
    &&& forall|i: int|
        0 <= i < rows.len() ==> (#[trigger] model.y@[i])
            == data.column(crate::config::text_of(entries, "y"@)->0)->0.values@[rows[i] as int]
    &&& model.x@.len() == x.len()
    &&& forall|k: int| 0 <= k < x.len() ==> (#[trigger] model.x@[k])@.len() == rows.len()
    &&& forall|k: int, i: int|
        0 <= k < x.len() && 0 <= i < rows.len() ==> (#[trigger] model.x@[k]@[i]) == data.column(
            x[k],
        )->0.values@[rows[i] as int]
}

/// Each complete row of the relation is in the model once, with its own values, in the group
/// of its own label.
pub proof fn a_row_keeps_its_own_values(cfg: Config, data: DataView, model: CompiledPaymentDelay)
    requires
        built(cfg@, data) == Ok::<Read, Fault>(model@),
    ensures
        exists|rows: Seq<usize>| holds_the_rows(cfg.entries@, data, model, rows),
{
    let e = cfg.entries@;
    a_request_is_what_its_options_say(cfg@);
    let asked = Asked::of(cfg@)->Ok_0;
    let columns = asked.columns();
    assert(columns =~= columns_named(e));
    let p = crate::panel::panel_of(data, columns, Some(asked.group), true)->Ok_0;
    crate::panel::a_panel_puts_each_row_into_its_own_group(data, columns, asked.group, true);
    let rows = p.order();
    let labels = Seq::new(model.group_keys@.len(), |g: int| model.group_keys@[g]@);
    assert(labels =~= model@.group_keys);
    assert(model@ == Read::of(data, asked, p));
    let x = crate::config::texts_of(e, "x"@);
    assert(model.x@.len() == model@.x.len());
    assert forall|k: int| 0 <= k < x.len() implies (#[trigger] model.x@[k])@
        == crate::data::gathered(data.column(x[k])->0, rows) by {
        assert(model.x@[k]@ == model@.x[k]);
    }
    assert(holds_the_rows(e, data, model, rows));
}

/// Whether a row may be fitted.
pub open spec fn row_is_sound(entries: Seq<Entry>, data: DataView, row: int) -> bool {
    let y = data.column(crate::config::text_of(entries, "y"@)->0)->0.values@[row];
    y.finite() && y.scaled() > 0
}

/// A model is built exactly when the options are sound, the columns are there, no label is
/// the reserved one, every complete row is sound, and there are more of them than the
/// population has parameters, and no row of a segment has
/// no delay.
pub proof fn a_model_is_built_exactly_when_it_can_be(cfg: Config, data: DataView, rows: Seq<usize>)
    requires
        crate::panel::each_present_row_once(
            data,
            columns_named(cfg.entries@),
            seq![crate::config::text_of(cfg.entries@, "group"@)->0],
            rows,
        ),
    ensures
        built(cfg@, data) is Ok <==> {
            let e = cfg.entries@;
            let group = crate::config::text_of(e, "group"@)->0;
            let names = columns_named(e);
            &&& request_is_sound(e)
            &&& forall|c: int| 0 <= c < names.len() ==> data.column(#[trigger] names[c]) is Some
            &&& data.key_column(group) is Some
            &&& forall|row: int|
                0 <= row < data.n_rows && data.key_column(group)->0.valid@[row]
                    ==> #[trigger] data.column(
                    crate::config::text_of(e, "y"@)->0,
                )->0.valid@[row]
            &&& forall|i: int|
                0 <= i < rows.len() ==> data.key_column(group)->0.values@[(
                #[trigger] rows[i]) as int]@ != "__global__"@ && row_is_sound(
                    e,
                    data,
                    rows[i] as int,
                )
            &&& rows.len() > 3 + crate::config::texts_of(e, "x"@).len()
        },
{
    let e = cfg.entries@;
    a_request_is_what_its_options_say(cfg@);
    reveal_strlit("gamma");
    reveal_strlit("lognormal");
    if request_is_sound(e) {
        let asked = Asked::of(cfg@)->Ok_0;
        let columns = asked.columns();
        assert(columns =~= columns_named(e));
        crate::panel::a_panel_is_read_exactly_when_it_can_be(data, columns, asked.group, rows);
        if let Ok(p) = crate::panel::panel_of(data, columns, Some(asked.group), true) {
            let order = p.order();
            crate::panel::a_panel_puts_each_row_into_its_own_group(
                data,
                columns,
                asked.group,
                true,
            );
            crate::panel::lemma_same_rows_read(data, columns, seq![asked.group], rows, order);
            let checks = row_checks(data.column(asked.y)->0, order);
            assert(columns[0] == asked.y);
            assert forall|i: int| 0 <= i < order.len() implies ((#[trigger] checks[i]) is None
                <==> row_is_sound(e, data, order[i] as int)) by {
                crate::double::a_count_is_its_value(
                    data.column(asked.y)->0.values@[order[i] as int],
                );
            }
            if crate::data::first_fault(checks) is None {
                crate::data::lemma_no_fault(checks);
                assert forall|i: int| 0 <= i < rows.len() implies row_is_sound(
                    e,
                    data,
                    (#[trigger] rows[i]) as int,
                ) by {
                    assert(rows.contains(rows[i]));
                    let j = choose|j: int| 0 <= j < order.len() && order[j] == rows[i];
                    assert(checks[j] is None);
                }
            } else if forall|i: int|
                0 <= i < rows.len() ==> row_is_sound(e, data, (#[trigger] rows[i]) as int) {
                assert forall|i: int| 0 <= i < checks.len() implies (#[trigger] checks[i]) is None
                    by {
                    assert(order.contains(order[i]));
                    let j = choose|j: int| 0 <= j < rows.len() && rows[j] == order[i];
                    assert(row_is_sound(e, data, rows[j] as int));
                }
                crate::data::lemma_first_fault(checks, checks.len() as int);
            }
            let open = open_item_checks(
                data.column(asked.y)->0,
                data.key_column(asked.group)->0,
                data.n_rows as nat,
            );
            if crate::data::first_fault(open) is None {
                crate::data::lemma_no_fault(open);
                assert forall|row: int|
                    0 <= row < data.n_rows && data.key_column(
                        asked.group,
                    )->0.valid@[row] implies #[trigger] data.column(asked.y)->0.valid@[row] by {
                    assert(open[row] is None);
                }
            } else if forall|row: int|
                0 <= row < data.n_rows && data.key_column(asked.group)->0.valid@[row]
                    ==> #[trigger] data.column(asked.y)->0.valid@[row] {
                assert forall|i: int| 0 <= i < open.len() implies (#[trigger] open[i]) is None by {
                    if data.key_column(asked.group)->0.valid@[i] {
                        assert(data.column(asked.y)->0.valid@[i]);
                    }
                }
                crate::data::lemma_first_fault(open, open.len() as int);
            }
        }
    }
}

/// Whether parameters are named and computed as they should be.
pub open spec fn named_and_computed(
    x: Seq<Seq<char>>,
    keys: Seq<Seq<char>>,
    dist: Dist,
    ids: Seq<ParamId>,
    f: Seq<Formula>,
) -> bool {
    let p = x.len() as int;
    let first = 3 + p;
    let global = "__global__"@;
    &&& ids.len() == first + 2 * keys.len()
    &&& f.len() == ids.len()
    &&& ids[0] == (ParamId { group: global, name: "intercept"@ })
    &&& f[0] == (Formula::Coordinate { at: 0 })
    &&& forall|k: int|
        #![trigger x[k]]
        0 <= k < p ==> ids[1 + k] == (ParamId { group: global, name: "beta["@ + x[k] + "]"@ })
            && f[1 + k] == (Formula::Coordinate { at: (1 + k) as usize })
    &&& ids[1 + p] == (ParamId { group: global, name: "tau"@ })
    &&& f[1 + p] == (Formula::Exp { at: (1 + p) as usize })
    &&& ids[2 + p] == (ParamId {
        group: global,
        name: match dist {
            Dist::Gamma => "shape"@,
            Dist::Lognormal => "sigma"@,
        },
    })
    &&& f[2 + p] == (Formula::Exp { at: (2 + p) as usize })
    &&& forall|g: int|
        #![trigger keys[g]]
        0 <= g < keys.len() ==> {
            let at = first + 2 * g;
            &&& ids[at] == (ParamId { group: keys[g], name: "u"@ })
            &&& f[at] == (Formula::Scaled { log_scale: (1 + p) as usize, at: (first + g) as usize })
            &&& ids[at + 1] == (ParamId { group: keys[g], name: "mu"@ })
            &&& f[at + 1] == (Formula::ExpSum { base: 0, log_scale: (1 + p) as usize, at: (first + g) as usize })
        }
}

proof fn lemma_named_and_computed(x: Seq<Seq<char>>, keys: Seq<Seq<char>>, dist: Dist)
    requires
        x.len() + 2 * keys.len() + 5 <= usize::MAX,
    ensures
        named_and_computed(
            x,
            keys,
            dist,
            param_ids(x, keys, dist),
            formulas(x.len() as int, keys.len() as int),
        ),
{
    let p = x.len() as int;
    let n_groups = keys.len() as int;
    let first = 3 + p;
    let ids = param_ids(x, keys, dist);
    let f = formulas(p, n_groups);
    let pairs = crate::catalog::common::level_pairs(1 + p, 3 + p, n_groups);
    let two = crate::draws::two_each(keys, "u"@, "mu"@);
    assert forall|k: int| #![trigger x[k]] 0 <= k < p implies ids[1 + k] == (ParamId {
        group: "__global__"@,
        name: "beta["@ + x[k] + "]"@,
    }) && f[1 + k] == (Formula::Coordinate { at: (1 + k) as usize }) by {
        assert(ids[1 + k] == crate::draws::coefficients(crate::types::global_group(), x)[k]);
        assert(f[1 + k] == crate::formula::coordinates(1, p as nat)[k]);
    }
    assert forall|g: int| #![trigger keys[g]] 0 <= g < keys.len() implies {
        let at = first + 2 * g;
        &&& ids[at] == (ParamId { group: keys[g], name: "u"@ })
        &&& f[at] == (Formula::Scaled { log_scale: (1 + p) as usize, at: (first + g) as usize })
        &&& ids[at + 1] == (ParamId { group: keys[g], name: "mu"@ })
        &&& f[at + 1] == (Formula::ExpSum { base: 0, log_scale: (1 + p) as usize, at: (first + g) as usize })
    } by {
        let at = first + 2 * g;
        assert((2 * g) / 2 == g && (2 * g) % 2 == 0);
        assert((2 * g + 1) / 2 == g && (2 * g + 1) % 2 == 1);
        assert(f[at] == pairs[2 * g] && f[at + 1] == pairs[2 * g + 1]);
        assert(ids[at] == two[2 * g] && ids[at + 1] == two[2 * g + 1]);
    }
}

/// Every parameter of a model is reported under its own name and group, and computed from
/// its own coordinates.
pub proof fn a_parameter_is_computed_as_its_name_says(
    cfg: Config,
    data: DataView,
    model: CompiledPaymentDelay,
)
    requires
        built(cfg@, data) == Ok::<Read, Fault>(model@),
        model.wf(),
    ensures
        named_and_computed(
            crate::config::texts_of(cfg.entries@, "x"@),
            Seq::new(model.group_keys@.len(), |g: int| model.group_keys@[g]@),
            model.dist,
            Seq::new(
                model.params@.len(),
                |i: int|
                    ParamId { group: model.params@[i].group_id@, name: model.params@[i].name@ },
            ),
            formulas(model.x@.len() as int, model.group_keys@.len() as int),
        ),
{
    a_request_is_what_its_options_say(cfg@);
    let asked = Asked::of(cfg@)->Ok_0;
    let panel = crate::panel::panel_of(data, asked.columns(), Some(asked.group), true)->Ok_0;
    assert(model@ == Read::of(data, asked, panel));
    let keys = Seq::new(model.group_keys@.len(), |g: int| model.group_keys@[g]@);
    let ids = Seq::new(
        model.params@.len(),
        |i: int| ParamId { group: model.params@[i].group_id@, name: model.params@[i].name@ },
    );
    assert(model@.x.len() == model.x@.len());
    assert(keys =~= model@.group_keys);
    assert(ids =~= model@.params);
    lemma_named_and_computed(asked.x, keys, model.dist);
}

/// A model has the distribution and the prior that its options say, and the verdict that its
/// segments and its delays force: too few segments for the least number asked for, or
/// delays that are all the same.
pub proof fn a_model_carries_its_options_and_its_verdict(
    cfg: Config,
    data: DataView,
    model: CompiledPaymentDelay,
)
    requires
        built(cfg@, data) == Ok::<Read, Fault>(model@),
    ensures
        ({
            let e = cfg.entries@;
            let alike = forall|i: int, j: int|
                0 <= i < model.y@.len() && 0 <= j < model.y@.len() ==> (
                #[trigger] model.y@[i]).scaled() == (#[trigger] model.y@[j]).scaled();
            &&& match crate::config::text_of(e, "dist"@) {
                None => model.dist == Dist::Gamma,
                Some(s) => (s == "gamma"@ && model.dist == Dist::Gamma) || (s == "lognormal"@
                    && model.dist == Dist::Lognormal),
            }
            &&& prior_is_as_written(crate::config::table_of(e, "prior"@), model.prior)
            &&& forall|least: nat|
                #[trigger] crate::config::counts_or(e, "min_groups"@, 3, least) ==> {
                    &&& model.structural is None <==> model.group_keys@.len() >= least && !alike
                    &&& model.structural matches Some(r) ==> r.status == if model.group_keys@.len()
                        < least {
                        FitStatus::InsufficientData
                    } else {
                        FitStatus::Degenerate
                    }
                }
        }),
{
    let e = cfg.entries@;
    a_request_is_what_its_options_say(cfg@);
    let asked = Asked::of(cfg@)->Ok_0;
    let p = crate::panel::panel_of(data, asked.columns(), Some(asked.group), true)->Ok_0;
    assert(model@ == Read::of(data, asked, p));
    assert(model@.group_keys.len() == model.group_keys@.len());
    assert(model@.structural == crate::catalog::common::verdict_of(model.structural));
    let checks = row_checks(data.column(asked.y)->0, p.order());
    crate::data::lemma_no_fault(checks);
    assert forall|i: int| 0 <= i < model.y@.len() implies (#[trigger] model.y@[i]).finite()
        && !model.y@[i].nan() by {
        assert(checks[i] is None);
    }
    assert(model.y@.len() > 0);
    let alike = forall|i: int, j: int|
        0 <= i < model.y@.len() && 0 <= j < model.y@.len() ==> (#[trigger] model.y@[i]).scaled()
            == (#[trigger] model.y@[j]).scaled();
    assert(crate::catalog::common::all_same(model.y@) <==> alike) by {
        if crate::catalog::common::all_same(model.y@) {
            assert forall|i: int, j: int|
                0 <= i < model.y@.len() && 0 <= j < model.y@.len() implies (
            #[trigger] model.y@[i]).scaled() == (#[trigger] model.y@[j]).scaled() by {
                assert(model.y@[i].same_value(model.y@[0]));
                assert(model.y@[j].same_value(model.y@[0]));
            }
        }
        if alike {
            assert forall|i: int| 0 <= i < model.y@.len() implies (
            #[trigger] model.y@[i]).same_value(model.y@[0]) by {
                assert(model.y@[i].scaled() == model.y@[0].scaled());
            }
        }
    }
    assert forall|least: nat|
        #[trigger] crate::config::counts_or(e, "min_groups"@, 3, least) implies least
        == asked.min_groups by {
        crate::double::a_count_is_written_one_way(least, asked.min_groups as nat);
    }
}

/// An item of a segment that has no delay refuses the request: it is neither left out nor
/// reported as a status.
pub proof fn an_open_item_is_refused(cfg: Scope, data: DataView, asked: Asked, row: int)
    requires
        Asked::of(cfg) == Ok::<Asked, Fault>(asked),
        crate::panel::panel_of(data, asked.columns(), Some(asked.group), true) is Ok,
        0 <= row < data.n_rows,
        data.key_column(asked.group)->0.valid@[row],
        !data.column(asked.y)->0.valid@[row],
    ensures
        built(cfg, data) matches Err(Fault::Config { slot, .. }) && slot == "y"@,
{
    let open = open_item_checks(
        data.column(asked.y)->0,
        data.key_column(asked.group)->0,
        data.n_rows as nat,
    );
    if crate::data::first_fault(open) is None {
        crate::data::lemma_no_fault(open);
        assert(open[row] is Some);
    }
    crate::data::lemma_fault_of_a_check(open);
}

fn structural_readiness(y: &Vec<Double>, n_groups: usize, min_groups: usize, prior: &Prior) -> (r:
    Option<Readiness>)
    requires
        y@.len() > 0,
    ensures
        crate::catalog::common::verdict_of(r) == structural_verdict(
            y@,
            n_groups as nat,
            min_groups,
            *prior,
        ),
{
    if n_groups < min_groups {
        Some(few_groups(n_groups, min_groups, FEW_GROUPS))
    } else if every_same(y) {
        let mut tail = NO_VARIATION.to_owned();
        if !prior.is_proper() {
            tail.append(NO_VARIATION_ADVICE);
        }
        Some(
            Readiness::degenerate(
                Message::with_number(
                    "every one of the ".to_owned().concat(decimal(y.len()).as_str()).concat(
                        " delays is exactly ",
                    ),
                    y[0],
                    tail.as_str(),
                ),
            ),
        )
    } else {
        None
    }
}

/// Compiles a request against the relation it names.
pub fn build(cfg: &Config, data: &DataView) -> (r: BayesResult<CompiledPaymentDelay>)
    requires
        data.wf(),
        cfg@.list_fits("x"@),
    ensures
        crate::errors::outcome(r) == built(cfg@, *data),
        r matches Ok(model) ==> model.wf(),
{
    let request = Request::parse(cfg)?;
    let names = request.list_columns();
    let ghost all = crate::text::texts(names@);
    let group = Some(request.group.clone());
    let panel = read_panel(data, &names, &group, true)?;
    proof {
        assert(names@[0]@ == all[0]);
        assert forall|k: int| 0 <= k < request.x@.len() implies data.column(
            (#[trigger] request.x@[k])@,
        ) is Some by {
            assert(names@[1 + k]@ == all[1 + k]);
        }
        let presence = data.presence(all, seq![request.group@]);
        crate::data::lemma_no_fault(presence);
        assert(presence[all.len() as int] is None);
    }
    let y_column = data.numeric(request.y.as_str())?;
    let group_column = data.key(request.group.as_str())?;
    let x_columns = data.numerics(&request.x)?;
    check_open_items(y_column, group_column, data.n_rows)?;
    check_rows(y_column, &panel.order)?;
    let y = gather(y_column, &panel.order);
    let x = gather_all(&x_columns, &panel.order, data.n_rows);
    let n = y.len();
    let n_fixed: usize = 3 + request.x.len();
    if n <= n_fixed {
        return Err(BayesError::InsufficientData { rows: n, params: n_fixed });
    }
    let mut params: Vec<ParamName> = Vec::new();
    proof {
        assert(crate::draws::ids(params@) =~= Seq::<ParamId>::empty());
        assert(crate::text::texts(panel.keys@).len() == panel.keys@.len());
    }
    push_global(&mut params, "intercept");
    push_coefficients(&mut params, global_group_key(), &request.x);
    push_global(&mut params, "tau");
    push_global(&mut params, request.dist.dispersion_name());
    push_two_each(&mut params, &panel.keys, "u", "mu");
    let structural = structural_readiness(
        &y,
        panel.keys.len(),
        request.min_groups,
        &request.prior,
    );
    let r = CompiledPaymentDelay {
        params,
        y,
        x,
        group_of: panel.group_of,
        group_keys: panel.keys,
        dist: request.dist,
        prior: request.prior,
        structural,
    };
    proof {
        assert(r@ =~= Read::of(*data, request@, panel@));
        assert(r.x@.len() == crate::data::lists(r.x@).len());
    }
    Ok(r)
}

/// How the parameters are computed from the coordinates.
///
/// ```text
///   [0]              intercept
///   [1 .. 1+p]       beta
///   [1+p]            log tau
///   [2+p]            log shape / log sigma
///   [3+p .. 3+p+G]   z, the non-centred group offsets
/// ```
pub open spec fn formulas(p: int, n_groups: int) -> Seq<Formula> {
    seq![Formula::Coordinate { at: 0 }] + crate::formula::coordinates(1, p as nat) + seq![
        Formula::Exp { at: (1 + p) as usize },
    ] + seq![Formula::Exp { at: (2 + p) as usize }] + crate::catalog::common::level_pairs(
        1 + p,
        3 + p,
        n_groups,
    )
}

impl CompiledPaymentDelay {
    /// One group per response, every group one of the named ones, and few enough of
    /// everything for the coordinates to be numbered.
    pub open spec fn wf(self) -> bool {
        &&& self.group_of@.len() == self.y@.len()
        &&& self.group_keys@.len() <= usize::MAX / 4 + 1
        &&& self.x@.len() <= usize::MAX / 4
        &&& forall|i: int|
            0 <= i < self.group_of@.len() ==> (#[trigger] self.group_of@[i])
                < self.group_keys@.len()
    }

    /// The verdict on the fit.
    pub open spec fn verdict(self) -> Verdict {
        crate::catalog::common::verdict_or_ready(self.structural)
    }

    /// Whether a point may be explored: its log scales lie within bounds, and no coordinate
    /// of the population is anything but a number. Elsewhere the density is zero, and is not
    /// evaluated.
    pub open spec fn explorable(self, theta: Seq<Double>) -> bool {
        &&& crate::catalog::common::in_box(theta[1 + self.x@.len() as int])
        &&& crate::catalog::common::in_box(theta[2 + self.x@.len() as int])
        &&& crate::catalog::common::finite_until(theta, population_count(self.x@.len() as int))
    }

    /// The coordinates of the unconstrained vector.
    pub open spec fn spec_dim(self) -> int {
        (3 + self.x@.len() + self.group_keys@.len()) as int
    }

    pub fn n_obs(&self) -> (r: usize)
        ensures
            r == self.y@.len(),
    {
        self.y.len()
    }

    pub fn n_groups(&self) -> (r: usize)
        ensures
            r == self.group_keys@.len(),
    {
        self.group_keys.len()
    }

    pub fn readiness(&self) -> (r: Readiness)
        ensures
            r@ == self.verdict(),
    {
        readiness_of(&self.structural)
    }

    /// A joint fit cannot single out a group: a verdict implicates all of them.
    pub fn n_groups_unready(&self) -> (r: usize)
        ensures
            r == if self.verdict().status == FitStatus::Converged {
                0
            } else {
                self.group_keys@.len()
            },
    {
        implicated(status_of(&self.structural), self.n_groups())
    }

    /// Whether there is no posterior here, so that every draw is absent.
    pub fn refuses(&self) -> (r: bool)
        ensures
            r == self.verdict().status.refused(),
    {
        status_of(&self.structural).withholds_draws()
    }

    pub fn n_beta(&self) -> (r: usize)
        ensures
            r == self.x@.len(),
    {
        self.x.len()
    }

    pub fn i_log_tau(&self) -> (r: usize)
        requires
            self.wf(),
        ensures
            r == 1 + self.x@.len(),
    {
        1 + self.n_beta()
    }

    pub fn i_log_disp(&self) -> (r: usize)
        requires
            self.wf(),
        ensures
            r == 2 + self.x@.len(),
    {
        2 + self.n_beta()
    }

    /// The first of the group offsets.
    pub fn i_z0(&self) -> (r: usize)
        requires
            self.wf(),
        ensures
            r == 3 + self.x@.len(),
    {
        3 + self.n_beta()
    }

    pub fn dim(&self) -> (r: usize)
        requires
            self.wf(),
        ensures
            r == self.spec_dim(),
    {
        self.i_z0() + self.n_groups()
    }

    /// Whether a point may be explored; where it may not, its density is zero.
    pub fn is_explorable(&self, theta: &Vec<Double>) -> (r: bool)
        requires
            self.wf(),
            self.spec_dim() <= theta@.len(),
        ensures
            r == self.explorable(theta@),
    {
        is_in_box(theta[self.i_log_tau()]) && is_in_box(theta[self.i_log_disp()])
            && are_finite_until(theta, self.i_z0())
    }

    /// Refuses buffers that do not hold one entry per coordinate.
    pub fn check_gradient_buffers(&self, theta: usize, out: usize) -> (r: BayesResult<()>)
        requires
            self.wf(),
        ensures
            r is Ok <==> theta == self.spec_dim() && out == self.spec_dim(),
            r matches Err(e) ==> e@ == Fault::coordinates(self.spec_dim() as nat, theta, out),
    {
        BayesError::check_coordinates(self.dim(), theta, out)
    }

    /// How each parameter is computed from the coordinates, in the order of the names.
    pub fn constrain(&self) -> (r: Vec<Formula>)
        requires
            self.wf(),
        ensures
            r@ == if self.verdict().status.refused() {
                crate::formula::repeated(Formula::Absent, self.params@.len())
            } else {
                formulas(self.x@.len() as int, self.group_keys@.len() as int)
            },
    {
        if self.refuses() {
            return absent(self.params.len());
        }
        let mut out: Vec<Formula> = Vec::new();
        out.push(Formula::Coordinate { at: 0 });
        push_coordinates(&mut out, 1, self.n_beta());
        out.push(Formula::Exp { at: self.i_log_tau() });
        out.push(Formula::Exp { at: self.i_log_disp() });
        push_level_pairs(&mut out, self.i_log_tau(), self.i_z0(), self.n_groups());
        proof {
            assert(out@ =~= formulas(self.x@.len() as int, self.group_keys@.len() as int));
        }
        out
    }
}

/// Each parameter has its formula: there are as many of them, and every coordinate that
/// one reads is a coordinate of the model.
pub proof fn every_parameter_has_a_formula(
    x: Seq<Seq<char>>,
    keys: Seq<Seq<char>>,
    dist: Dist,
)
    requires
        3 + x.len() + keys.len() <= usize::MAX,
    ensures
        formulas(x.len() as int, keys.len() as int).len() == param_ids(x, keys, dist).len(),
        forall|i: int|
            0 <= i < formulas(x.len() as int, keys.len() as int).len() ==> (#[trigger] formulas(
                x.len() as int,
                keys.len() as int,
            )[i]).reads_within((3 + x.len() + keys.len()) as int),
{
}

/// Every coordinate of the model is read by some formula: none is sampled in vain.
pub proof fn every_coordinate_is_reported(p: int, n_groups: int, c: int)
    requires
        0 <= p,
        0 <= n_groups,
        3 + p + n_groups <= usize::MAX,
        0 <= c < 3 + p + n_groups,
    ensures
        exists|i: int|
            0 <= i < formulas(p, n_groups).len() && (#[trigger] formulas(p, n_groups)[i]).reads(c),
{
    let f = formulas(p, n_groups);
    if c < 3 + p {
        assert(f[c].reads(c));
    } else {
        let j = c - (3 + p);
        assert((2 * j) / 2 == j && (2 * j) % 2 == 0);
        assert(f[3 + p + 2 * j] == crate::catalog::common::level_pairs(
            1 + p,
            3 + p,
            n_groups,
        )[2 * j]);
        assert(f[3 + p + 2 * j].reads(c));
    }
}

/// Every parameter that is a scale or a mean is positive by construction.
pub proof fn scales_are_positive_by_construction(
    x: Seq<Seq<char>>,
    keys: Seq<Seq<char>>,
    dist: Dist,
    i: int,
)
    requires
        0 <= i < param_ids(x, keys, dist).len(),
    ensures
        ({
            let id = param_ids(x, keys, dist)[i];
            id.name == "tau"@ || id.name == "shape"@ || id.name == "sigma"@ || id.name == "mu"@
                ==> formulas(x.len() as int, keys.len() as int)[i].sign() == Sign::Positive
        }),
{
    reveal_strlit("intercept");
    reveal_strlit("tau");
    reveal_strlit("shape");
    reveal_strlit("sigma");
    reveal_strlit("u");
    reveal_strlit("mu");
    reveal_strlit("beta[");
    let p = x.len() as int;
    let id = param_ids(x, keys, dist)[i];
    if i == 0 {
        assert(id.name[0] == 'i');
    } else if i < 1 + p {
        assert(id.name == crate::draws::coefficient_name(x[i - 1]));
        assert(id.name[0] == 'b');
    } else if i >= 3 + p {
        let k = i - (3 + p);
        assert(id == crate::draws::two_each(keys, "u"@, "mu"@)[k]);
        assert(formulas(p, keys.len() as int)[i] == crate::catalog::common::level_pairs(
            1 + p,
            3 + p,
            keys.len() as int,
        )[k]);
        assert("u"@.len() == 1 && "mu"@.len() == 2);
        assert("tau"@.len() == 3 && "u"@[0] == 'u');
    }
}

/// A request that asks for the Laplace engine is refused, in whatever case of letters it
/// is written, and so is one that asks for draws from the prior.
pub proof fn unserved_requests_are_refused(cfg: Scope)
    requires
        cfg.laplace_requested() == Ok::<bool, Fault>(true) || cfg.prior_draws_requested() == Ok::<
            bool,
            Fault,
        >(true),
    ensures
        Asked::of(cfg) is Err,
{
}

/// What is read for the identity of the data is what a fit is made of: every column that the
/// options name, at every complete row, and nothing else.
pub proof fn the_columns_read_are_the_ones_named(cfg: Config, data: DataView, reading: Reading)
    requires
        reads(cfg@, data) == Ok::<Entries, Fault>(reading@),
    ensures
        crate::reading::holds_the_columns(
            data,
            columns_named(cfg.entries@),
            seq![crate::config::text_of(cfg.entries@, "group"@)->0],
            reading,
        ),
{
    a_request_is_what_its_options_say(cfg@);
    let asked = Asked::of(cfg@)->Ok_0;
    assert(asked.columns() =~= columns_named(cfg.entries@));
    assert(crate::panel::group_columns(Some(asked.group)) =~= seq![crate::config::text_of(cfg.entries@, "group"@)->0]);
    crate::reading::a_reading_holds_the_named_columns(
        data,
        columns_named(cfg.entries@),
        seq![crate::config::text_of(cfg.entries@, "group"@)->0],
        reading,
    );
}

/// A point may be explored exactly when the logarithms of the scales lie from minus thirty to
/// thirty and every coordinate of the population is a number.
pub proof fn a_point_is_explored_within_bounds(model: CompiledPaymentDelay, theta: Seq<Double>)
    ensures
        model.explorable(theta) <==> {
            let p = model.x@.len() as int;
            &&& crate::catalog::common::within_thirty(theta[1 + p])
            &&& crate::catalog::common::within_thirty(theta[2 + p])
            &&& forall|i: int| 0 <= i < 3 + p ==> (#[trigger] theta[i]).finite()
        },
{
    let p = model.x@.len() as int;
    crate::catalog::common::the_bound_is_thirty_either_way(theta[1 + p]);
    crate::catalog::common::the_bound_is_thirty_either_way(theta[2 + p]);
}

/// Whether an error is the one of a row: it refuses the slot of the value that is not sound,
/// and shows it.
pub open spec fn blames_the_row(
    entries: Seq<Entry>,
    data: DataView,
    row: int,
    e: BayesError,
) -> bool {
    crate::catalog::common::shows(
        e,
        "y"@,
        data.column(crate::config::text_of(entries, "y"@)->0)->0.values@[row],
    )
}

/// A sound request that a relation cannot serve is refused for what is wrong with the
/// relation, and for the first thing: a column that is not there, the reserved label, an open item, a
/// row that is not sound, which is shown, or fewer rows than it takes, with both numbers.
#[verifier::rlimit(40)]
pub proof fn a_refusal_says_what_is_wrong(
    cfg: Config,
    data: DataView,
    rows: Seq<usize>,
    e: BayesError,
)
    requires
        data.wf(),
        cfg@.list_fits("x"@),
        built(cfg@, data) == Err::<Read, Fault>(e@),
        request_is_sound(cfg.entries@),
        crate::panel::each_present_row_once(
            data,
            columns_named(cfg.entries@),
            seq![crate::config::text_of(cfg.entries@, "group"@)->0],
            rows,
        ),
    ensures
        refusal_is_right(cfg.entries@, data, rows, e),
{
    let entries = cfg.entries@;
    a_request_is_what_its_options_say(cfg@);
    let asked = Asked::of(cfg@)->Ok_0;
    let columns = asked.columns();
    let keys = seq![asked.group];
    assert(columns =~= columns_named(entries));
    assert(crate::panel::group_columns(Some(asked.group)) =~= keys);
    crate::panel::the_rows_read_are_the_complete_ones(data, columns, keys);
    crate::panel::a_panel_is_read_exactly_when_it_can_be(data, columns, asked.group, rows);
    assert(keys[0] == asked.group);
    crate::errors::an_error_says_what_it_holds(e);
    match crate::panel::panel_of(data, columns, Some(asked.group), true) {
        Err(f) => {
            crate::panel::a_panel_is_refused_for_what_is_missing(
                data,
                columns,
                Some(asked.group),
                true,
                e,
            );
            if data.usable(columns, keys) is Ok {
                assert(data.key_column(keys[0]) is Some);
            }
        },
        Ok(p) => {
            let order = p.order();
            crate::panel::a_panel_puts_each_row_into_its_own_group(
                data,
                columns,
                asked.group,
                true,
            );
            crate::panel::lemma_same_rows_read(data, columns, keys, rows, order);
            crate::panel::a_panel_holds_each_row_read_once(
                data,
                columns,
                Some(asked.group),
                true,
            );
            crate::data::usable_rows_are_no_more_than_rows(data, columns, keys);
            crate::double::zero_is_nothing();
            let open = open_item_checks(
                data.column(asked.y)->0,
                data.key_column(asked.group)->0,
                data.n_rows as nat,
            );
            if crate::data::first_fault(open) is Some {
                crate::data::lemma_fault_of_a_check(open);
                let i = choose|i: int|
                    0 <= i < open.len() && (#[trigger] open[i]) == crate::data::first_fault(open);
                assert(open[i] == Some(e@));
                assert(!data.column(asked.y)->0.valid@[i]);
            } else {
                crate::data::lemma_no_fault(open);
                assert forall|row: int|
                    0 <= row < data.n_rows && data.key_column(
                        asked.group,
                    )->0.valid@[row] implies #[trigger] data.column(asked.y)->0.valid@[row] by {
                    assert(open[row] is None);
                }
            }
            let checks = row_checks(data.column(asked.y)->0, order);
            assert forall|i: int| 0 <= i < order.len() implies ((#[trigger] checks[i]) is None
                <==> row_is_sound(entries, data, order[i] as int)) by {
                crate::double::a_count_is_its_value(
                    data.column(asked.y)->0.values@[order[i] as int],
                );
            }
            if crate::data::first_fault(checks) is Some {
                crate::data::lemma_fault_of_a_check(checks);
                let i = choose|i: int|
                    0 <= i < checks.len() && (#[trigger] checks[i]) == crate::data::first_fault(
                        checks,
                    );
                assert(checks[i] is Some);
                assert(order.contains(order[i]));
                let j = choose|j: int| 0 <= j < rows.len() && rows[j] == order[i];
                assert(!row_is_sound(entries, data, rows[j] as int));
                if checks[i] == Some(e@) {
                    crate::double::a_count_is_its_value(
                        data.column(asked.y)->0.values@[order[i] as int],
                    );
                    crate::catalog::common::lemma_shows(e, e@->slot);
                    assert(blames_the_row(entries, data, rows[j] as int, e));
                }
            } else {
                crate::data::lemma_no_fault(checks);
                assert forall|i: int| 0 <= i < rows.len() implies row_is_sound(
                    entries,
                    data,
                    (#[trigger] rows[i]) as int,
                ) by {
                    assert(rows.contains(rows[i]));
                    let j = choose|j: int| 0 <= j < order.len() && order[j] == rows[i];
                    assert(checks[j] is None);
                }
            }
        },
    }
}

/// Whether an error is the one that a relation deserves.
pub open spec fn refusal_is_right(
    entries: Seq<Entry>,
    data: DataView,
    rows: Seq<usize>,
    e: BayesError,
) -> bool {
    let group = crate::config::text_of(entries, "group"@)->0;
    let names = columns_named(entries);
    if (exists|c: int| 0 <= c < names.len() && data.column(#[trigger] names[c]) is None)
        || data.key_column(group) is None {
        crate::panel::names_a_missing_column(data, names, seq![group], e)
    } else if exists|i: int|
        0 <= i < rows.len() && data.key_column(group)->0.values@[(#[trigger] rows[i]) as int]@
            == "__global__"@ {
        crate::catalog::common::refuses(e, "group"@)
    } else if exists|row: int|
        0 <= row < data.n_rows && data.key_column(group)->0.valid@[row]
                && !(#[trigger] data.column(
                crate::config::text_of(entries, "y"@)->0,
            )->0.valid@[row]) {
            crate::catalog::common::refuses(e, "y"@)
    } else if exists|i: int|
        0 <= i < rows.len() && !row_is_sound(entries, data, (#[trigger] rows[i]) as int) {
        exists|i: int|
            0 <= i < rows.len() && !row_is_sound(entries, data, (#[trigger] rows[i]) as int)
                && blames_the_row(entries, data, rows[i] as int, e)
    } else {
        e matches BayesError::InsufficientData { rows: n, params } && n == rows.len() && params
            == 3 + crate::config::texts_of(entries, "x"@).len()
    }
}

/// Whether a slot of the options is at fault: it is not known, or what is written in it may not
/// stand there, or the prior is not sound.
pub open spec fn is_at_fault(entries: Seq<Entry>, slot: Seq<char>) -> bool {
    ||| exists|i: int|
        0 <= i < entries.len() && slot == (#[trigger] entries[i]).name@ && !seq![
            "y"@,
            "group"@,
            "x"@,
            "dist"@,
            "min_groups"@,
            "prior"@,
            "draws"@,
            "chains"@,
            "warmup"@,
            "max_draw_megabytes"@,
            "seed"@,
            "engine"@,
            "sample_from"@,
        ].contains(slot)
    ||| slot == "y"@ && (crate::config::text_of(entries, "y"@) is None)
    ||| slot == "group"@ && (crate::config::text_of(entries, "group"@) is None)
    ||| slot == "x"@ && (!crate::config::takes_texts(entries, "x"@))
    ||| slot == "dist"@ && (!crate::config::takes_text(entries, "dist"@)
        || (crate::config::text_of(entries, "dist"@) matches Some(s) && !seq!["gamma"@, "lognormal"@].contains(s)))
    ||| slot == "min_groups"@ && (!crate::config::takes_count(entries, "min_groups"@, 2, 1_000_000_000))
    ||| slot == "engine"@ && (!crate::config::takes_text(entries, "engine"@)
        || (crate::config::text_of(entries, "engine"@) matches Some(s) && crate::text::small(s) == "laplace"@))
    ||| slot == "sample_from"@ && (!crate::config::takes_text(entries, "sample_from"@)
        || crate::config::text_of(entries, "sample_from"@) == Some("prior"@))
    ||| !(crate::config::takes_table(entries, "prior"@) && prior_is_sound(
        crate::config::table_of(entries, "prior"@),
    ))
}

/// A request that is refused for its options names a slot that is at fault.
#[verifier::rlimit(40)]
pub proof fn the_slot_that_is_named_is_at_fault(cfg: Config)
    ensures
        Asked::of(cfg@) matches Err(f) ==> (f matches Fault::Config { slot, .. } && is_at_fault(
            cfg.entries@,
            slot,
        )),
{
    let entries = cfg.entries@;
    let known = crate::text::words(SLOTS@);
    assert(known =~= seq![
        "y"@,
        "group"@,
        "x"@,
        "dist"@,
        "min_groups"@,
        "prior"@,
        "draws"@,
        "chains"@,
        "warmup"@,
        "max_draw_megabytes"@,
        "seed"@,
        "engine"@,
        "sample_from"@,
    ]);
    crate::config::an_unknown_slot_is_named_by_its_path(cfg@, known);
    assert forall|name: Seq<char>| #[trigger] (Seq::<char>::empty() + name) == name by {
        assert(Seq::<char>::empty() + name =~= name);
    }
    reveal_strlit("gamma");
    reveal_strlit("lognormal");
    crate::config::a_text_slot_gives_the_text_written(cfg@, "y"@);
    crate::config::a_refused_slot_is_named_by_its_path(
        cfg@,
        "y"@,
        Double { bits: 0 },
        0,
        1,
        0,
        Seq::empty(),
        "y"@,
    );
    crate::config::a_text_slot_gives_the_text_written(cfg@, "group"@);
    crate::config::a_refused_slot_is_named_by_its_path(
        cfg@,
        "group"@,
        Double { bits: 0 },
        0,
        1,
        0,
        Seq::empty(),
        "group"@,
    );
    crate::config::a_text_slot_gives_the_text_written(cfg@, "x"@);
    crate::config::a_refused_slot_is_named_by_its_path(
        cfg@,
        "x"@,
        Double { bits: 0 },
        0,
        1,
        0,
        Seq::empty(),
        "x"@,
    );
    assert(crate::text::words(DISTRIBUTIONS@) =~= seq!["gamma"@, "lognormal"@]);
    assert(seq!["gamma"@, "lognormal"@][0] == "gamma"@);
    assert(seq!["gamma"@, "lognormal"@][1] == "lognormal"@);
    crate::config::a_choice_is_the_word_written(
        cfg@,
        "dist"@,
        crate::text::words(DISTRIBUTIONS@),
        "gamma"@,
    );
    crate::config::a_refused_slot_is_named_by_its_path(
        cfg@,
        "dist"@,
        Double { bits: 0 },
        0,
        1,
        0,
        crate::text::words(DISTRIBUTIONS@),
        "gamma"@,
    );
    crate::config::a_count_slot_gives_the_count_written(cfg@, "min_groups"@, 3, 2, 1_000_000_000);
    crate::config::a_refused_slot_is_named_by_its_path(
        cfg@,
        "min_groups"@,
        Double { bits: 0 },
        2,
        1_000_000_000,
        3,
        Seq::empty(),
        "min_groups"@,
    );
    crate::config::an_engine_and_a_source_are_asked_for_by_name(cfg@);
    crate::config::a_refused_slot_is_named_by_its_path(
        cfg@,
        "engine"@,
        Double { bits: 0 },
        0,
        1,
        0,
        Seq::empty(),
        "engine"@,
    );
    crate::config::a_refused_slot_is_named_by_its_path(
        cfg@,
        "sample_from"@,
        Double { bits: 0 },
        0,
        1,
        0,
        Seq::empty(),
        "sample_from"@,
    );
    crate::config::a_text_slot_gives_the_text_written(cfg@, "prior"@);
    if let Ok(table) = cfg@.table("prior"@) {
        lemma_prior_asked(table);
    }
}

impl PaymentDelay {
    pub fn id(&self) -> (r: &'static str)
        ensures
            r@ == ID@,
    {
        ID
    }

    pub fn code(&self) -> (r: FamilyCode)
        ensures
            r == FamilyCode::PaymentDelay,
    {
        FamilyCode::PaymentDelay
    }

    pub fn description(&self) -> (r: &'static str)
        ensures
            r@ == DESCRIPTION@,
    {
        DESCRIPTION
    }

    pub fn default_engine(&self) -> (r: EngineKind)
        ensures
            r == EngineKind::Nuts,
    {
        EngineKind::Nuts
    }

    pub fn config_slots(&self) -> (r: [&'static str; 13])
        ensures
            r == SLOTS,
    {
        SLOTS
    }

    /// Compiles a request against the relation it names.
    pub fn compile(&self, cfg: &Config, data: &DataView) -> (r: BayesResult<CompiledPaymentDelay>)
        requires
            data.wf(),
            cfg@.list_fits("x"@),
        ensures
            crate::errors::outcome(r) == built(cfg@, *data),
            r matches Ok(model) ==> model.wf(),
    {
        build(cfg, data)
    }

    /// The columns and rows that a fit of this request reads: what the fingerprint of its
    /// data is taken of.
    pub fn reading(&self, cfg: &Config, data: &DataView) -> (r: BayesResult<Reading>)
        requires
            data.wf(),
        ensures
            crate::errors::outcome(r) == reads(cfg@, *data),
    {
        let request = Request::parse(cfg)?;
        read_columns(data, request.list_columns(), &Some(request.group))
    }
}

} // verus!
