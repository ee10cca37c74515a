//! Hierarchical counts: demand per item across a catalogue of thin items.
//!
//! ```text
//!   log mu_i = intercept + tau * z_{g(i)} + x_i'beta + log exposure_i,   z_g ~ N(0, 1)
//!
//!   y_i ~ Poisson(mu_i)   or   NegBinomial(mu_i, phi)
//! ```
use super::common::{
    are_finite_until, every_zero, few_groups, implicated, is_in_box, named_columns,
    push_level_pairs, readiness_of, status_of, ONE_BITS,
};
use crate::config::{Config, Entry, Scope, Section};
use crate::data::{gather, gather_all, DataView, NumericColumn};
use crate::double::Double;
use crate::draws::{push_coefficients, push_global, push_two_each, ParamId, ParamName};
use crate::errors::{BayesError, BayesResult, Fault, Message};
use crate::formula::{absent, push_coordinates, Formula};
use crate::panel::{read_panel, PanelView};
use crate::readiness::{Readiness, Verdict};
use crate::reading::{read_columns, Entries, Reading};
use crate::text::{decimal, push_text, same_text};
use crate::types::{global_group_key, EngineKind, FamilyCode, FitStatus};
use vstd::prelude::*;

verus! {

/// The family of hierarchical counts.
#[derive(Debug)]
pub struct HierNegbin;

pub const SLOTS: [&'static str; 14] = [
    "y",
    "group",
    "x",
    "exposure",
    "likelihood",
    "min_groups",
    "prior",
    "draws",
    "chains",
    "warmup",
    "max_draw_megabytes",
    "seed",
    "engine",
    "sample_from",
];

pub const PRIOR_SLOTS: [&'static str; 4] = ["intercept", "beta", "tau", "phi"];

pub const LIKELIHOODS: [&'static str; 2] = ["negbinomial", "poisson"];

pub const PHI_SLOTS: [&'static str; 2] = ["log_mean", "log_sd"];

pub const ID: &'static str = "hier_negbin";

pub const DESCRIPTION: &'static str =
    "Hierarchical count GLM -- Poisson or negative binomial with a partially \
     pooled per-group level, non-centred -- for per-SKU demand and the reorder \
     quantile a safety-stock decision reads off it.";

pub const LAPLACE_REFUSAL: &'static str =
    "'hier_negbin' is served by NUTS only. A Laplace posterior is a Gaussian at \
     the joint mode, and a non-centred hierarchy has no usable one: the \
     likelihood does not depend on the pooling scale when every group offset is \
     zero, so the mode search climbs a ridge that carries no posterior mass. \
     Drop the 'engine' slot to use the default";

pub const SPREAD_NEEDED: &'static str =
    "is required alongside 'log_mean': a prior mean with no spread is not a prior";

pub const COUNT_NEEDED: &'static str = "must be a non-negative whole count; row ";

pub const EXPOSURE_NEEDED: &'static str =
    "must be > 0: a row observed over no exposure carries no information; row ";

pub const FEW_GROUPS: &'static str =
    ": a pooling scale estimated from this few describes the sample rather than the \
     population, and every per-group interval inherits that";

pub const NO_DEMAND: &'static str =
    " observations is zero, so the level is identified only \
     in the limit of a zero rate and there is no interior maximum to put a \
     posterior around.";

pub const NO_DEMAND_PROPER: &'static str =
    " The prior is already proper, so it is the data that says nothing: a \
     part nobody has ever issued has no demand rate to estimate";

pub const NO_DEMAND_ADVICE: &'static str =
    " Set a proper `prior.intercept` if a catalogue-wide rate is a defensible \
     answer for a part nobody has ever issued";

/// The distribution of a count about its mean.
#[derive(Debug, Clone, Copy, PartialEq, Eq, Structural)]
pub enum Likelihood {
    Poisson,
    NegBinomial,
}

impl Likelihood {
    /// What a name stands for.
    pub open spec fn named(name: Seq<char>) -> Result<Likelihood, Fault> {
        if name == "poisson"@ {
            Ok(Likelihood::Poisson)
        } else if name == "negbinomial"@ {
            Ok(Likelihood::NegBinomial)
        } else {
            Err(Fault::config("likelihood"@, "unknown: '"@ + name + "'"@))
        }
    }

    /// How many dispersion parameters there are: a Poisson count has none.
    pub open spec fn dispersions(self) -> nat {
        match self {
            Likelihood::Poisson => 0,
            Likelihood::NegBinomial => 1,
        }
    }

    pub fn parse(name: &str) -> (r: BayesResult<Likelihood>)
        ensures
            crate::errors::plain(r) == Likelihood::named(name@),
    {
        if same_text(name, "poisson") {
            Ok(Likelihood::Poisson)
        } else if same_text(name, "negbinomial") {
            Ok(Likelihood::NegBinomial)
        } else {
            Err(
                BayesError::config_text(
                    "likelihood",
                    "unknown: '".to_owned().concat(name).concat("'"),
                ),
            )
        }
    }

    fn count_dispersions(self) -> (r: usize)
        ensures
            r == self.dispersions(),
    {
        match self {
            Likelihood::Poisson => 0,
            Likelihood::NegBinomial => 1,
        }
    }
}

/// Prior hyperparameters.
#[derive(Debug, Clone, Copy)]
pub struct Prior {
    pub intercept_mean: Double,
    pub intercept_sd: Double,
    pub beta_scale: Double,
    /// Half-Normal scale of the spread between groups.
    pub tau_scale: Double,
    /// Mean and standard deviation of the log of the dispersion, where a prior is set.
    pub phi_lognormal: Option<(Double, Double)>,
}

impl Prior {
    /// The prior of the dispersion that its table asks for: a mean without a spread is
    /// not a prior.
    pub open spec fn phi_asked(phi: Scope) -> Result<Option<(Double, Double)>, Fault> {
        let mean = phi.number("log_mean"@, Double { bits: 0 });
        let spread = phi.positive_number("log_sd"@, Double { bits: ONE_BITS });
        if let Some(f) = phi.unknown_slot(crate::text::words(PHI_SLOTS@)) {
            Err(f)
        } else if phi.slot("log_sd"@) is Some {
            if let Err(f) = mean {
                Err(f)
            } else if let Err(f) = spread {
                Err(f)
            } else {
                Ok(Some((mean->Ok_0, spread->Ok_0)))
            }
        } else if phi.slot("log_mean"@) is Some {
            Err(Fault::config("prior.phi.log_sd"@, SPREAD_NEEDED@))
        } else {
            Ok(None)
        }
    }

    /// The prior that a table of options asks for.
    pub open spec fn asked(cfg: Scope) -> Result<Prior, Fault> {
        let zero = Double { bits: 0 };
        let flat = Double::spec_infinity();
        let intercept = cfg.centre_and_spread("intercept"@, "mean"@, zero, "sd"@, flat);
        let beta = cfg.scale("beta"@, flat);
        let tau = cfg.scale("tau"@, flat);
        let table = cfg.table("phi"@);
        let phi = Prior::phi_asked(table->Ok_0);
        if let Some(f) = cfg.unknown_slot(crate::text::words(PRIOR_SLOTS@)) {
            Err(f)
        } else if let Err(f) = intercept {
            Err(f)
        } else if let Err(f) = beta {
            Err(f)
        } else if let Err(f) = tau {
            Err(f)
        } else if let Err(f) = table {
            Err(f)
        } else if let Err(f) = phi {
            Err(f)
        } else {
            Ok(
                Prior {
                    intercept_mean: intercept->Ok_0.0,
                    intercept_sd: intercept->Ok_0.1,
                    beta_scale: beta->Ok_0,
                    tau_scale: tau->Ok_0,
                    phi_lognormal: phi->Ok_0,
                },
            )
        }
    }

    /// Whether every coordinate of a model carries a proper prior: the dispersion too,
    /// where there is one.
    pub open spec fn proper(self, likelihood: Likelihood) -> bool {
        &&& self.intercept_sd.finite()
        &&& self.beta_scale.finite()
        &&& self.tau_scale.finite()
        &&& likelihood == Likelihood::NegBinomial ==> (self.phi_lognormal matches Some(p)
            && p.1.finite())
    }

    fn parse_phi(phi: &Section) -> (r: BayesResult<Option<(Double, Double)>>)
        ensures
            crate::errors::plain(r) == Prior::phi_asked(phi@),
    {
        phi.reject_unknown(&PHI_SLOTS)?;
        if phi.has("log_sd") {
            let mean = phi.f64_or("log_mean", Double::zero())?;
            let spread = phi.positive_f64_or("log_sd", Double { bits: ONE_BITS })?;
            return Ok(Some((mean, spread)));
        }
        if phi.has("log_mean") {
            return Err(BayesError::config("prior.phi.log_sd", SPREAD_NEEDED));
        }
        Ok(None)
    }

    pub fn parse(cfg: &Section) -> (r: BayesResult<Prior>)
        ensures
            crate::errors::plain(r) == Prior::asked(cfg@),
    {
        cfg.reject_unknown(&PRIOR_SLOTS)?;
        let zero = Double::zero();
        let flat = Double::infinity();
        let intercept = cfg.location_and_scale("intercept", "mean", zero, "sd", flat)?;
        let beta_scale = cfg.scale_or("beta", flat)?;
        let tau_scale = cfg.scale_or("tau", flat)?;
        let table = cfg.nested("phi")?;
        let phi_lognormal = Prior::parse_phi(&table)?;
        Ok(
            Prior {
                intercept_mean: intercept.0,
                intercept_sd: intercept.1,
                beta_scale,
                tau_scale,
                phi_lognormal,
            },
        )
    }

    /// Whether every coordinate of a model carries a proper prior.
    pub fn is_proper(&self, likelihood: Likelihood) -> (r: bool)
        ensures
            r == self.proper(likelihood),
    {
        let dispersion = match likelihood {
            Likelihood::Poisson => true,
            Likelihood::NegBinomial => match self.phi_lognormal {
                Some(p) => p.1.is_finite(),
                None => false,
            },
        };
        self.intercept_sd.is_finite() && self.beta_scale.is_finite() && self.tau_scale.is_finite()
            && dispersion
    }
}

/// What a request asks for.
#[derive(Debug)]
pub struct Request {
    pub y: String,
    pub group: String,
    pub x: Vec<String>,
    pub exposure: Option<String>,
    pub likelihood: Likelihood,
    pub min_groups: usize,
    pub prior: Prior,
}

/// What a [`Request`] says.
#[verifier::ext_equal]
pub struct Asked {
    pub y: Seq<char>,
    pub group: Seq<char>,
    pub x: Seq<Seq<char>>,
    pub exposure: Option<Seq<char>>,
    pub likelihood: Likelihood,
    pub min_groups: usize,
    pub prior: Prior,
}

impl View for Request {
    type V = Asked;

    open spec fn view(&self) -> Asked {
        Asked {
            y: self.y@,
            group: self.group@,
            x: crate::text::texts(self.x@),
            exposure: crate::data::name_of(self.exposure),
            likelihood: self.likelihood,
            min_groups: self.min_groups,
            prior: self.prior,
        }
    }
}

impl Asked {
    /// The request that the options make, or the first thing wrong with them.
    pub open spec fn of(cfg: Scope) -> Result<Asked, Fault> {
        let y = cfg.required_text("y"@);
        let group = cfg.required_text("group"@);
        let x = cfg.text_list("x"@);
        let exposure = cfg.optional_text("exposure"@);
        let chosen = cfg.choice("likelihood"@, crate::text::words(LIKELIHOODS@), "negbinomial"@);
        let likelihood = Likelihood::named(chosen->Ok_0);
        let min_groups = cfg.count_in("min_groups"@, 3, 2, 1_000_000_000);
        let table = cfg.table("prior"@);
        let prior = Prior::asked(table->Ok_0);
        if let Some(f) = cfg.unknown_slot(crate::text::words(SLOTS@)) {
            Err(f)
        } else if let Err(f) = y {
            Err(f)
        } else if let Err(f) = group {
            Err(f)
        } else if let Err(f) = x {
            Err(f)
        } else if let Err(f) = exposure {
            Err(f)
        } else if let Err(f) = chosen {
            Err(f)
        } else if let Err(f) = likelihood {
            Err(f)
        } else if let Err(f) = min_groups {
            Err(f)
        } else if let Err(f) = cfg.laplace_requested() {
            Err(f)
        } else if cfg.laplace_requested()->Ok_0 {
            Err(Fault::config("engine"@, LAPLACE_REFUSAL@))
        } else if let Err(f) = table {
            Err(f)
        } else if let Err(f) = prior {
            Err(f)
        } else {
            Ok(
                Asked {
                    y: y->Ok_0,
                    group: group->Ok_0,
                    x: x->Ok_0,
                    exposure: exposure->Ok_0,
                    likelihood: likelihood->Ok_0,
                    min_groups: min_groups->Ok_0,
                    prior: prior->Ok_0,
                },
            )
        }
    }

    /// The number columns that the request reads.
    pub open spec fn columns(self) -> Seq<Seq<char>> {
        seq![self.y] + self.x + match self.exposure {
            Some(name) => seq![name],
            None => Seq::empty(),
        }
    }
}

impl Request {
    /// Reads a request from its options.
    pub fn parse(cfg: &Config) -> (r: BayesResult<Request>)
        ensures
            crate::errors::outcome(r) == Asked::of(cfg@),
    {
        let cfg = cfg.root();
        cfg.reject_unknown(&SLOTS)?;
        let y = cfg.require_str("y")?;
        let group = cfg.require_str("group")?;
        let x = cfg.str_list("x")?;
        let exposure = cfg.opt_str("exposure")?;
        let chosen = cfg.one_of("likelihood", &LIKELIHOODS, "negbinomial")?;
        let likelihood = Likelihood::parse(chosen.as_str())?;
        let min_groups = cfg.usize_in("min_groups", 3, 2, 1_000_000_000)?;
        if cfg.asks_for_laplace()? {
            return Err(BayesError::config("engine", LAPLACE_REFUSAL));
        }
        let table = cfg.nested("prior")?;
        let prior = Prior::parse(&table)?;
        Ok(Request { y, group, x, exposure, likelihood, min_groups, prior })
    }

    /// The number columns that the request reads.
    fn list_columns(&self) -> (r: Vec<String>)
        ensures
            crate::text::texts(r@) == self@.columns(),
    {
        let mut names = named_columns(self.y.as_str(), &self.x);
        if let Some(name) = &self.exposure {
            push_text(&mut names, name.as_str());
        }
        proof {
            assert(crate::text::texts(names@) =~= self@.columns());
        }
        names
    }
}

/// What is wrong with a row, if anything: the response must be a count, and the exposure,
/// where there is one, a finite number above zero.
pub open spec fn row_fault(y: Double, exposure: Option<Double>, row: usize) -> Option<Fault> {
    let number = crate::text::numeral(row as nat);
    if !y.whole_count() {
        Some(Fault::config_showing("y"@, COUNT_NEEDED@ + number + " is "@, y, ""@))
    } else {
        match exposure {
            Some(e) => if !e.finite_positive() {
                Some(
                    Fault::config_showing(
                        "exposure"@,
                        EXPOSURE_NEEDED@ + number + " is "@,
                        e,
                        ""@,
                    ),
                )
            } else {
                None
            },
            None => None,
        }
    }
}

/// Row by row, what is wrong with it.
pub open spec fn row_checks(
    y: NumericColumn,
    exposure: Option<NumericColumn>,
    order: Seq<usize>,
) -> Seq<Option<Fault>> {
    Seq::new(
        order.len(),
        |i: int|
            row_fault(
                y.values@[order[i] as int],
                match exposure {
                    Some(e) => Some(e.values@[order[i] as int]),
                    None => None,
                },
                order[i],
            ),
    )
}

fn check_row(y: Double, exposure: Option<Double>, row: usize) -> (r: BayesResult<()>)
    ensures
        match r {
            Ok(_) => row_fault(y, exposure, row) is None,
            Err(e) => row_fault(y, exposure, row) == Some(e@),
        },
{
    if !y.is_whole_count() {
        return Err(
            BayesError::config_number(
                "y",
                COUNT_NEEDED.to_owned().concat(decimal(row).as_str()).concat(" is "),
                y,
                "",
            ),
        );
    }
    if let Some(e) = exposure {
        if !e.is_finite_positive() {
            return Err(
                BayesError::config_number(
                    "exposure",
                    EXPOSURE_NEEDED.to_owned().concat(decimal(row).as_str()).concat(" is "),
                    e,
                    "",
                ),
            );
        }
    }
    Ok(())
}

fn check_rows(y: &NumericColumn, exposure: Option<&NumericColumn>, order: &Vec<usize>) -> (r:
    BayesResult<()>)
    requires
        crate::data::rows_within(order@, y.values@.len() as int),
        exposure matches Some(e) ==> crate::data::rows_within(order@, e.values@.len() as int),
    ensures
        match r {
            Ok(_) => crate::data::first_fault(
                row_checks(*y, crate::catalog::common::column_of(exposure), order@),
            ) is None,
            Err(e) => crate::data::first_fault(row_checks(*y, crate::catalog::common::column_of(exposure), order@))
                == Some(e@),
        },
{
    let ghost checks = row_checks(*y, crate::catalog::common::column_of(exposure), order@);
    let mut k: usize = 0;
    while k < order.len()
        invariant
            k <= order@.len(),
            crate::data::rows_within(order@, y.values@.len() as int),
            exposure matches Some(e) ==> crate::data::rows_within(order@, e.values@.len() as int),
            checks == row_checks(*y, crate::catalog::common::column_of(exposure), order@),
            forall|i: int| 0 <= i < k ==> (#[trigger] checks[i]) is None,
        decreases order@.len() - k,
    {
        let row: usize = order[k];
        let e = match exposure {
            Some(e) => Some(e.values[row]),
            None => None,
        };
        let checked = check_row(y.values[row], e, row);
        if checked.is_err() {
            proof {
                crate::data::lemma_first_fault(checks, k as int);
            }
            return checked;
        }
        k += 1;
    }
    proof {
        crate::data::lemma_first_fault(checks, k as int);
    }
    Ok(())
}

/// A compiled model.
#[derive(Debug)]
pub struct CompiledHierNegbin {
    pub params: Vec<ParamName>,
    /// Count, one entry per usable row.
    pub y: Vec<Double>,
    /// Covariate columns.
    pub x: Vec<Vec<Double>>,
    /// Exposure per row, where a column gives it; its log is an offset.
    pub exposure: Option<Vec<Double>>,
    pub group_of: Vec<usize>,
    pub group_keys: Vec<String>,
    pub likelihood: Likelihood,
    pub prior: Prior,
    pub structural: Option<Readiness>,
}

/// What a [`CompiledHierNegbin`] holds.
#[verifier::ext_equal]
pub struct Read {
    pub params: Seq<ParamId>,
    pub y: Seq<Double>,
    pub x: Seq<Seq<Double>>,
    pub exposure: Option<Seq<Double>>,
    pub group_of: Seq<usize>,
    pub group_keys: Seq<Seq<char>>,
    pub likelihood: Likelihood,
    pub prior: Prior,
    pub structural: Option<Verdict>,
}

impl View for CompiledHierNegbin {
    type V = Read;

    open spec fn view(&self) -> Read {
        Read {
            params: crate::draws::ids(self.params@),
            y: self.y@,
            x: crate::data::lists(self.x@),
            exposure: crate::catalog::common::list_of(self.exposure),
            group_of: self.group_of@,
            group_keys: crate::text::texts(self.group_keys@),
            likelihood: self.likelihood,
            prior: self.prior,
            structural: crate::catalog::common::verdict_of(self.structural),
        }
    }
}

/// The dispersion, for a likelihood that has one.
pub open spec fn dispersion_ids(likelihood: Likelihood) -> Seq<ParamId> {
    match likelihood {
        Likelihood::Poisson => Seq::empty(),
        Likelihood::NegBinomial => seq![ParamId::global("phi"@)],
    }
}

/// The parameters, in the order in which draws report them.
pub open spec fn param_ids(
    x: Seq<Seq<char>>,
    keys: Seq<Seq<char>>,
    likelihood: Likelihood,
) -> Seq<ParamId> {
    seq![ParamId::global("intercept"@)] + crate::draws::coefficients(
        crate::types::global_group(),
        x,
    ) + seq![ParamId::global("tau"@)] + dispersion_ids(likelihood) + crate::draws::two_each(
        keys,
        "u"@,
        "rate"@,
    )
}

/// The parameters of the population: intercept, coefficients, pooling scale, and the
/// dispersion where there is one.
pub open spec fn population_count(p: int, likelihood: Likelihood) -> int {
    2 + p + likelihood.dispersions()
}

/// The verdict that the data forces, if any. Too few segments come first.
pub open spec fn structural_verdict(
    y: Seq<Double>,
    n_groups: nat,
    min_groups: usize,
    prior: Prior,
    likelihood: Likelihood,
) -> Option<Verdict> {
    if n_groups < min_groups {
        Some(crate::catalog::common::few_groups_verdict(n_groups, min_groups, FEW_GROUPS@))
    } else if crate::catalog::common::all_zero(y) {
        Some(
            Verdict::because(
                FitStatus::Degenerate,
                Message::saying(
                    "every one of the "@ + crate::text::numeral(y.len()) + NO_DEMAND@
                        + if prior.proper(likelihood) {
                        NO_DEMAND_PROPER@
                    } else {
                        NO_DEMAND_ADVICE@
                    },
                ),
            ),
        )
    } else {
        None
    }
}

impl Read {
    /// The model of a panel.
    pub open spec fn of(data: DataView, asked: Asked, panel: PanelView) -> Read {
        let y = crate::data::gathered(data.column(asked.y)->0, panel.order());
        Read {
            params: param_ids(asked.x, panel.keys(), asked.likelihood),
            y,
            x: Seq::new(
                asked.x.len(),
                |k: int| crate::data::gathered(data.column(asked.x[k])->0, panel.order()),
            ),
            exposure: match asked.exposure {
                Some(name) => Some(crate::data::gathered(data.column(name)->0, panel.order())),
                None => None,
            },
            group_of: panel.group_of(),
            group_keys: panel.keys(),
            likelihood: asked.likelihood,
            prior: asked.prior,
            structural: structural_verdict(
                y,
                panel.keys().len(),
                asked.min_groups,
                asked.prior,
                asked.likelihood,
            ),
        }
    }
}

/// What a request makes of a relation: the model, or the first thing that stands in its
/// way, in the order options, columns, group keys, rows, number of rows.
pub open spec fn built(cfg: Scope, data: DataView) -> Result<Read, Fault> {
    match Asked::of(cfg) {
        Err(f) => Err(f),
        Ok(asked) => match crate::panel::panel_of(data, asked.columns(), Some(asked.group), true) {
            Err(f) => Err(f),
            Ok(panel) => {
                let exposure = match asked.exposure {
                    Some(name) => data.column(name),
                    None => None,
                };
                let checks = row_checks(data.column(asked.y)->0, exposure, panel.order());
                let n = panel.order().len();
                let least = population_count(asked.x.len() as int, asked.likelihood);
                if let Some(f) = crate::data::first_fault(checks) {
                    Err(f)
                } else if n <= least {
                    Err(Fault::InsufficientData { rows: n as usize, params: least as usize })
                } else {
                    Ok(Read::of(data, asked, panel))
                }
            },
        },
    }
}

/// What a request reads of a relation, or the first thing wrong with its options and
/// columns.
pub open spec fn reads(cfg: Scope, data: DataView) -> Result<Entries, Fault> {
    match Asked::of(cfg) {
        Err(f) => Err(f),
        Ok(asked) => crate::reading::reading_of(
            data,
            asked.columns(),
            crate::panel::group_columns(Some(asked.group)),
        ),
    }
}

/// A model has one response per row that was read.
pub proof fn a_model_holds_every_row_read(cfg: Scope, data: DataView)
    ensures
        built(cfg, data) matches Ok(model) ==> (reads(cfg, data) matches Ok(r) && model.y.len()
            == r.rows.len()),
{
    if let Ok(asked) = Asked::of(cfg) {
        crate::panel::a_panel_holds_each_row_read_once(
            data,
            asked.columns(),
            Some(asked.group),
            true,
        );
    }
}

/// Two relations that were read alike give the same model, wherever one of them gives any:
/// nothing else of a relation reaches it.
pub proof fn what_is_read_decides_the_model(cfg: Scope, a: DataView, b: DataView)
    requires
        built(cfg, a) is Ok,
        reads(cfg, b) is Ok,
        reads(cfg, a)->Ok_0.same_entries(reads(cfg, b)->Ok_0),
    ensures
        built(cfg, a) == built(cfg, b),
{
    let asked = Asked::of(cfg)->Ok_0;
    let columns = asked.columns();
    crate::reading::what_is_read_decides_the_panel(a, b, columns, Some(asked.group), true);
    let mine = crate::panel::panel_of(a, columns, Some(asked.group), true)->Ok_0;
    let theirs = crate::panel::panel_of(b, columns, Some(asked.group), true)->Ok_0;
    let values_a = crate::data::gathered(a.column(asked.y)->0, mine.order());
    let values_b = crate::data::gathered(b.column(asked.y)->0, theirs.order());
    let over_a = match asked.exposure {
        Some(name) => a.column(name),
        None => None,
    };
    let over_b = match asked.exposure {
        Some(name) => b.column(name),
        None => None,
    };
    let checks_a = row_checks(a.column(asked.y)->0, over_a, mine.order());
    let checks_b = row_checks(b.column(asked.y)->0, over_b, theirs.order());
    assert(columns[0] == asked.y);
    if let Some(name) = asked.exposure {
        let keys = crate::panel::group_columns(Some(asked.group));
        let at = 1 + asked.x.len() as int;
        assert(columns[at] == name);
        crate::data::lemma_no_fault(a.presence(columns, keys));
        crate::data::lemma_no_fault(b.presence(columns, keys));
        assert(a.presence(columns, keys)[at] is None && b.presence(columns, keys)[at] is None);
    }
    assert forall|i: int| 0 <= i < checks_a.len() && checks_a[i] is None implies (
    #[trigger] checks_b[i]) is None by {
        assert(values_a[i] == values_b[i]);
        if asked.exposure is Some {
            let es = crate::data::gathered(over_a->0, mine.order());
            let fs = crate::data::gathered(over_b->0, theirs.order());
            assert(es[i] == fs[i]);
        }
    }
    crate::data::lemma_no_fault_follows(checks_a, checks_b);
    let m = built(cfg, a)->Ok_0;
    let n = built(cfg, b)->Ok_0;
    assert forall|k: int| 0 <= k < asked.x.len() implies #[trigger] m.x[k] == n.x[k] by {
        assert(columns[1 + k] == asked.x[k]);
    }
    assert(m.x =~= n.x);
    assert(m =~= n);
}

/// The names of the number columns that a request names: the response, the covariates, and
/// the exposure where there is one.
pub open spec fn columns_named(entries: Seq<Entry>) -> Seq<Seq<char>> {
    seq![crate::config::text_of(entries, "y"@)->0] + crate::config::texts_of(entries, "x"@)
        + match crate::config::text_of(entries, "exposure"@) {
        Some(name) => seq![name],
        None => Seq::empty(),
    }
}

/// Whether the table of a prior may be written as it is.
pub open spec fn prior_is_sound(entries: Seq<Entry>) -> bool {
    let intercept = crate::config::table_of(entries, "intercept"@);
    let beta = crate::config::table_of(entries, "beta"@);
    let tau = crate::config::table_of(entries, "tau"@);
    let phi = crate::config::table_of(entries, "phi"@);
    &&& crate::config::only(entries, seq!["intercept"@, "beta"@, "tau"@, "phi"@])
    &&& crate::config::takes_table(entries, "intercept"@)
    &&& crate::config::only(intercept, seq!["mean"@, "sd"@])
    &&& crate::config::takes_number(intercept, "mean"@)
    &&& crate::config::takes_positive(intercept, "sd"@)
    &&& crate::config::takes_table(entries, "beta"@)
    &&& crate::config::only(beta, seq!["scale"@])
    &&& crate::config::takes_positive(beta, "scale"@)
    &&& crate::config::takes_table(entries, "tau"@)
    &&& crate::config::only(tau, seq!["scale"@])
    &&& crate::config::takes_positive(tau, "scale"@)
    &&& crate::config::takes_table(entries, "phi"@)
    &&& crate::config::only(phi, seq!["log_mean"@, "log_sd"@])
    &&& crate::config::written(phi, "log_sd"@) is None ==> crate::config::written(
        phi,
        "log_mean"@,
    ) is None
    &&& crate::config::takes_number(phi, "log_mean"@)
    &&& crate::config::takes_positive(phi, "log_sd"@)
}

/// Whether the options of a request may be written as they are.
pub open spec fn request_is_sound(entries: Seq<Entry>) -> bool {
    &&& crate::config::only(
        entries,
        seq![
            "y"@,
            "group"@,
            "x"@,
            "exposure"@,
            "likelihood"@,
            "min_groups"@,
            "prior"@,
            "draws"@,
            "chains"@,
            "warmup"@,
            "max_draw_megabytes"@,
            "seed"@,
            "engine"@,
            "sample_from"@,
        ],
    )
    &&& crate::config::text_of(entries, "y"@) is Some
    &&& crate::config::text_of(entries, "group"@) is Some
    &&& crate::config::takes_texts(entries, "x"@)
    &&& crate::config::takes_text(entries, "exposure"@)
    &&& crate::config::takes_text(entries, "likelihood"@)
    &&& crate::config::text_of(entries, "likelihood"@) matches Some(s) ==> s == "negbinomial"@ || s
        == "poisson"@
    &&& crate::config::takes_count(entries, "min_groups"@, 2, 1_000_000_000)
    &&& crate::config::takes_text(entries, "engine"@)
    &&& crate::config::text_of(entries, "engine"@) matches Some(s) ==> crate::text::small(s)
        != "laplace"@
    &&& crate::config::takes_table(entries, "prior"@)
    &&& prior_is_sound(crate::config::table_of(entries, "prior"@))
}

/// Whether a prior is the one that its table asks for: each number from the slot of its own
/// name, and flat where nothing is written.
pub open spec fn prior_is_as_written(entries: Seq<Entry>, prior: Prior) -> bool {
    let zero = Double { bits: 0 };
    let flat = Double { bits: 0x7FF0_0000_0000_0000 };
    let intercept = crate::config::table_of(entries, "intercept"@);
    let phi = crate::config::table_of(entries, "phi"@);
    &&& prior.intercept_mean == crate::config::number_or(intercept, "mean"@, zero)
    &&& prior.intercept_sd == crate::config::number_or(intercept, "sd"@, flat)
    &&& prior.beta_scale == crate::config::number_or(
        crate::config::table_of(entries, "beta"@),
        "scale"@,
        flat,
    )
    &&& prior.tau_scale == crate::config::number_or(
        crate::config::table_of(entries, "tau"@),
        "scale"@,
        flat,
    )
    &&& prior.phi_lognormal is Some <==> crate::config::written(phi, "log_sd"@) is Some
    &&& prior.phi_lognormal matches Some(p) ==> p.0 == crate::config::number_or(
        phi,
        "log_mean"@,
        zero,
    ) && p.1 == crate::config::number_or(phi, "log_sd"@, flat)
}

proof fn lemma_prior_asked(cfg: Scope)
    ensures
        Prior::asked(cfg) is Ok <==> prior_is_sound(cfg.entries),
        Prior::asked(cfg) matches Ok(prior) ==> prior_is_as_written(cfg.entries, prior),
{
    let zero = Double { bits: 0 };
    let flat = Double { bits: 0x7FF0_0000_0000_0000 };
    let one = Double { bits: ONE_BITS };
    assert(crate::text::words(PRIOR_SLOTS@) =~= seq!["intercept"@, "beta"@, "tau"@, "phi"@]);
    assert(crate::text::words(PHI_SLOTS@) =~= seq!["log_mean"@, "log_sd"@]);
    crate::config::an_unknown_slot_is_named_by_its_path(cfg, crate::text::words(PRIOR_SLOTS@));
    crate::config::a_table_gives_the_numbers_written(
        cfg,
        "intercept"@,
        "mean"@,
        zero,
        "sd"@,
        flat,
    );
    crate::config::a_table_gives_the_numbers_written(cfg, "beta"@, "mean"@, zero, "sd"@, flat);
    crate::config::a_table_gives_the_numbers_written(cfg, "tau"@, "mean"@, zero, "sd"@, flat);
    crate::config::a_text_slot_gives_the_text_written(cfg, "phi"@);
    if let Ok(phi) = cfg.table("phi"@) {
        crate::config::an_unknown_slot_is_named_by_its_path(phi, crate::text::words(PHI_SLOTS@));
        crate::config::a_number_slot_gives_the_number_written(phi, "log_mean"@, zero);
        crate::config::a_number_slot_gives_the_number_written(phi, "log_sd"@, one);
        crate::config::a_lookup_finds_what_is_written(phi, "log_mean"@);
        crate::config::a_lookup_finds_what_is_written(phi, "log_sd"@);
    }
}

/// A request is what its options say, each taken from the slot of its own name, and it is
/// served exactly when its options may be written as they are.
pub proof fn a_request_is_what_its_options_say(cfg: Scope)
    ensures
        Asked::of(cfg) is Ok <==> request_is_sound(cfg.entries),
        Asked::of(cfg) matches Ok(asked) ==> {
            let e = cfg.entries;
            &&& Some(asked.y) == crate::config::text_of(e, "y"@)
            &&& Some(asked.group) == crate::config::text_of(e, "group"@)
            &&& asked.x == crate::config::texts_of(e, "x"@)
            &&& asked.exposure == crate::config::text_of(e, "exposure"@)
            &&& match crate::config::text_of(e, "likelihood"@) {
                None => asked.likelihood == Likelihood::NegBinomial,
                Some(s) => (s == "negbinomial"@ && asked.likelihood == Likelihood::NegBinomial) || (
                s == "poisson"@ && asked.likelihood == Likelihood::Poisson),
            }
            &&& crate::config::counts_or(e, "min_groups"@, 3, asked.min_groups as nat)
            &&& prior_is_as_written(crate::config::table_of(e, "prior"@), asked.prior)
        },
{
    reveal_strlit("negbinomial");
    reveal_strlit("poisson");
    let known = crate::text::words(SLOTS@);
    assert(known =~= seq![
        "y"@,
        "group"@,
        "x"@,
        "exposure"@,
        "likelihood"@,
        "min_groups"@,
        "prior"@,
        "draws"@,
        "chains"@,
        "warmup"@,
        "max_draw_megabytes"@,
        "seed"@,
        "engine"@,
        "sample_from"@,
    ]);
    crate::config::an_unknown_slot_is_named_by_its_path(cfg, known);
    crate::config::a_text_slot_gives_the_text_written(cfg, "y"@);
    crate::config::a_text_slot_gives_the_text_written(cfg, "group"@);
    crate::config::a_text_slot_gives_the_text_written(cfg, "x"@);
    crate::config::a_text_slot_gives_the_text_written(cfg, "exposure"@);
    let admitted = crate::text::words(LIKELIHOODS@);
    assert(admitted =~= seq!["negbinomial"@, "poisson"@]);
    assert(admitted[0] == "negbinomial"@ && admitted[1] == "poisson"@);
    crate::config::a_choice_is_the_word_written(cfg, "likelihood"@, admitted, "negbinomial"@);
    crate::config::a_count_slot_gives_the_count_written(cfg, "min_groups"@, 3, 2, 1_000_000_000);
    crate::config::an_engine_and_a_source_are_asked_for_by_name(cfg);
    crate::config::a_text_slot_gives_the_text_written(cfg, "prior"@);
    if let Ok(table) = cfg.table("prior"@) {
        lemma_prior_asked(table);
    }
}

/// Whether a model holds the values of those rows, in that order: of each row its own
/// response, covariates and exposure, and the number of the group that its label names.
pub open spec fn holds_the_rows(
    entries: Seq<Entry>,
    data: DataView,
    model: CompiledHierNegbin,
    rows: Seq<usize>,
) -> bool {
    let y = crate::config::text_of(entries, "y"@)->0;
    let x = crate::config::texts_of(entries, "x"@);
    let group = crate::config::text_of(entries, "group"@)->0;
    let labels = Seq::new(model.group_keys@.len(), |g: int| model.group_keys@[g]@);
    &&& crate::panel::each_present_row_once(data, columns_named(entries), seq![group], rows)
    &&& crate::panel::grouped_by_label(
        data.key_column(group)->0,
        rows,
        model.group_of@,
        labels,
    )
    &&& model.y@.len() == rows.len()
    &&& forall|i: int|
        0 <= i < rows.len() ==> (#[trigger] model.y@[i])
            == data.column(y)->0.values@[rows[i] as int]
    &&& model.x@.len() == x.len()
    &&& forall|k: int|
        0 <= k < x.len() ==> (#[trigger] model.x@[k])@.len() == rows.len()
    &&& forall|k: int, i: int|
        0 <= k < x.len() && 0 <= i < rows.len() ==> (#[trigger] model.x@[k]@[i]) == data.column(
            x[k],
        )->0.values@[rows[i] as int]
    &&& match crate::config::text_of(entries, "exposure"@) {
        None => model.exposure is None,
        Some(name) => model.exposure matches Some(es) && es@.len() == rows.len() && forall|i: int|
            0 <= i < rows.len() ==> (#[trigger] es@[i]) == data.column(
                name,
            )->0.values@[rows[i] as int],
    }
}

/// Each complete row of the relation is in the model once, with its own response,
/// covariates and exposure, in the group of its own label.
pub proof fn a_row_keeps_its_own_values(cfg: Config, data: DataView, model: CompiledHierNegbin)
    requires
        built(cfg@, data) == Ok::<Read, Fault>(model@),
    ensures
        exists|rows: Seq<usize>| holds_the_rows(cfg.entries@, data, model, rows),
{
    let e = cfg.entries@;
    a_request_is_what_its_options_say(cfg@);
    let asked = Asked::of(cfg@)->Ok_0;
    let columns = asked.columns();
    assert(columns =~= columns_named(e));
    let p = crate::panel::panel_of(data, columns, Some(asked.group), true)->Ok_0;
    crate::panel::a_panel_puts_each_row_into_its_own_group(data, columns, asked.group, true);
    let rows = p.order();
    let labels = Seq::new(model.group_keys@.len(), |g: int| model.group_keys@[g]@);
    assert(labels =~= model@.group_keys);
    assert(model@ == Read::of(data, asked, p));
    let x = crate::config::texts_of(e, "x"@);
    assert(model.x@.len() == model@.x.len());
    assert forall|k: int| 0 <= k < x.len() implies (#[trigger] model.x@[k])@
        == crate::data::gathered(data.column(x[k])->0, rows) by {
        assert(model.x@[k]@ == model@.x[k]);
    }
    if asked.exposure is Some {
        assert(model.exposure->0@ == model@.exposure->0);
    }
    assert(holds_the_rows(e, data, model, rows));
}

/// Whether a row may be fitted: its response is a whole number from zero up, and its
/// exposure, where there is one, a finite number above zero.
pub open spec fn row_is_sound(entries: Seq<Entry>, data: DataView, row: int) -> bool {
    let y = data.column(crate::config::text_of(entries, "y"@)->0)->0.values@[row];
    &&& y.finite()
    &&& exists|n: nat| y.scaled() == #[trigger] (n * crate::double::one_scaled())
    &&& crate::config::text_of(entries, "exposure"@) matches Some(name) ==> {
        let e = data.column(name)->0.values@[row];
        e.finite() && e.scaled() > 0
    }
}

/// A model is built exactly when the options are sound, the columns are there, no label is
/// the reserved one, every complete row is sound, and there are more of them than the
/// population has parameters.
pub proof fn a_model_is_built_exactly_when_it_can_be(cfg: Config, data: DataView, rows: Seq<usize>)
    requires
        crate::panel::each_present_row_once(
            data,
            columns_named(cfg.entries@),
            seq![crate::config::text_of(cfg.entries@, "group"@)->0],
            rows,
        ),
    ensures
        built(cfg@, data) is Ok <==> {
            let e = cfg.entries@;
            let group = crate::config::text_of(e, "group"@)->0;
            let names = columns_named(e);
            &&& request_is_sound(e)
            &&& forall|c: int| 0 <= c < names.len() ==> data.column(#[trigger] names[c]) is Some
            &&& data.key_column(group) is Some
            &&& forall|i: int|
                0 <= i < rows.len() ==> data.key_column(group)->0.values@[(
                #[trigger] rows[i]) as int]@ != "__global__"@ && row_is_sound(
                    e,
                    data,
                    rows[i] as int,
                )
            &&& rows.len() > 2 + crate::config::texts_of(e, "x"@).len() + if crate::config::text_of(
                e,
                "likelihood"@,
            ) == Some("poisson"@) {
                0int
            } else {
                1int
            }
        },
{
    let e = cfg.entries@;
    a_request_is_what_its_options_say(cfg@);
    reveal_strlit("negbinomial");
    reveal_strlit("poisson");
    if request_is_sound(e) {
        let asked = Asked::of(cfg@)->Ok_0;
        let columns = asked.columns();
        assert(columns =~= columns_named(e));
        crate::panel::a_panel_is_read_exactly_when_it_can_be(data, columns, asked.group, rows);
        if let Ok(p) = crate::panel::panel_of(data, columns, Some(asked.group), true) {
            let order = p.order();
            crate::panel::a_panel_puts_each_row_into_its_own_group(
                data,
                columns,
                asked.group,
                true,
            );
            crate::panel::lemma_same_rows_read(data, columns, seq![asked.group], rows, order);
            let exposure = match asked.exposure {
                Some(name) => data.column(name),
                None => None,
            };
            let checks = row_checks(data.column(asked.y)->0, exposure, order);
            assert(columns[0] == asked.y);
            if let Some(name) = asked.exposure {
                assert(columns[1 + asked.x.len() as int] == name);
            }
            assert forall|i: int| 0 <= i < order.len() implies ((#[trigger] checks[i]) is None
                <==> row_is_sound(e, data, order[i] as int)) by {
                crate::double::a_count_is_its_value(
                    data.column(asked.y)->0.values@[order[i] as int],
                );
            }
            if crate::data::first_fault(checks) is None {
                crate::data::lemma_no_fault(checks);
                assert forall|i: int| 0 <= i < rows.len() implies row_is_sound(
                    e,
                    data,
                    (#[trigger] rows[i]) as int,
                ) by {
                    assert(rows.contains(rows[i]));
                    let j = choose|j: int| 0 <= j < order.len() && order[j] == rows[i];
                    assert(checks[j] is None);
                }
            } else if forall|i: int|
                0 <= i < rows.len() ==> row_is_sound(e, data, (#[trigger] rows[i]) as int) {
                assert forall|i: int| 0 <= i < checks.len() implies (#[trigger] checks[i]) is None
                    by {
                    assert(order.contains(order[i]));
                    let j = choose|j: int| 0 <= j < rows.len() && rows[j] == order[i];
                    assert(row_is_sound(e, data, rows[j] as int));
                }
                crate::data::lemma_first_fault(checks, checks.len() as int);
            }
        }
    }
}

fn structural_readiness(
    y: &Vec<Double>,
    n_groups: usize,
    min_groups: usize,
    prior: &Prior,
    likelihood: Likelihood,
) -> (r: Option<Readiness>)
    requires
        y@.len() > 0,
    ensures
        crate::catalog::common::verdict_of(r) == structural_verdict(
            y@,
            n_groups as nat,
            min_groups,
            *prior,
            likelihood,
        ),
{
    if n_groups < min_groups {
        Some(few_groups(n_groups, min_groups, FEW_GROUPS))
    } else if every_zero(y) {
        let mut text = "every one of the ".to_owned().concat(decimal(y.len()).as_str()).concat(
            NO_DEMAND,
        );
        if prior.is_proper(likelihood) {
            text.append(NO_DEMAND_PROPER);
        } else {
            text.append(NO_DEMAND_ADVICE);
        }
        Some(Readiness::degenerate(Message::of(text)))
    } else {
        None
    }
}

/// Compiles a request against the relation it names.
pub fn build(cfg: &Config, data: &DataView) -> (r: BayesResult<CompiledHierNegbin>)
    requires
        data.wf(),
        cfg@.list_fits("x"@),
    ensures
        crate::errors::outcome(r) == built(cfg@, *data),
        r matches Ok(model) ==> model.wf(),
{
    let request = Request::parse(cfg)?;
    let names = request.list_columns();
    let ghost all = crate::text::texts(names@);
    let group = Some(request.group.clone());
    let panel = read_panel(data, &names, &group, true)?;
    proof {
        assert(names@[0]@ == all[0]);
        assert forall|k: int| 0 <= k < request.x@.len() implies data.column(
            (#[trigger] request.x@[k])@,
        ) is Some by {
            assert(names@[1 + k]@ == all[1 + k]);
        }
    }
    let y_column = data.numeric(request.y.as_str())?;
    let x_columns = data.numerics(&request.x)?;
    let exposure_column: Option<&NumericColumn> = match &request.exposure {
        Some(name) => {
            proof {
                assert(names@[request.x@.len() as int + 1]@ == all[request.x@.len() as int + 1]);
            }
            Some(data.numeric(name.as_str())?)
        },
        None => None,
    };
    check_rows(y_column, exposure_column, &panel.order)?;
    let y = gather(y_column, &panel.order);
    let x = gather_all(&x_columns, &panel.order, data.n_rows);
    let exposure = match exposure_column {
        Some(column) => Some(gather(column, &panel.order)),
        None => None,
    };
    let n = y.len();
    let n_fixed: usize = 2 + request.x.len() + request.likelihood.count_dispersions();
    if n <= n_fixed {
        return Err(BayesError::InsufficientData { rows: n, params: n_fixed });
    }
    let mut params: Vec<ParamName> = Vec::new();
    proof {
        assert(crate::draws::ids(params@) =~= Seq::<ParamId>::empty());
        assert(crate::text::texts(panel.keys@).len() == panel.keys@.len());
    }
    push_global(&mut params, "intercept");
    push_coefficients(&mut params, global_group_key(), &request.x);
    push_global(&mut params, "tau");
    if matches!(request.likelihood, Likelihood::NegBinomial) {
        push_global(&mut params, "phi");
    }
    push_two_each(&mut params, &panel.keys, "u", "rate");
    let structural = structural_readiness(
        &y,
        panel.keys.len(),
        request.min_groups,
        &request.prior,
        request.likelihood,
    );
    let r = CompiledHierNegbin {
        params,
        y,
        x,
        exposure,
        group_of: panel.group_of,
        group_keys: panel.keys,
        likelihood: request.likelihood,
        prior: request.prior,
        structural,
    };
    proof {
        assert(r@ =~= Read::of(*data, request@, panel@));
        assert(r.x@.len() == crate::data::lists(r.x@).len());
    }
    Ok(r)
}

/// The formula of the dispersion, for a likelihood that has one.
pub open spec fn dispersion_formulas(p: int, likelihood: Likelihood) -> Seq<Formula> {
    match likelihood {
        Likelihood::Poisson => Seq::empty(),
        Likelihood::NegBinomial => seq![Formula::Exp { at: (2 + p) as usize }],
    }
}

/// How the parameters are computed from the coordinates.
///
/// ```text
///   [0]              intercept
///   [1 .. 1+p]       beta
///   [1+p]            log tau
///   [2+p]            log phi, where there is a dispersion
///   [k .. k+G]       z, the non-centred group offsets, from the next coordinate on
/// ```
pub open spec fn formulas(p: int, n_groups: int, likelihood: Likelihood) -> Seq<Formula> {
    seq![Formula::Coordinate { at: 0 }] + crate::formula::coordinates(1, p as nat) + seq![
        Formula::Exp { at: (1 + p) as usize },
    ] + dispersion_formulas(p, likelihood) + crate::catalog::common::level_pairs(
        1 + p,
        population_count(p, likelihood),
        n_groups,
    )
}

impl CompiledHierNegbin {
    /// One group per response, every group one of the named ones, and few enough of
    /// everything for the coordinates to be numbered.
    pub open spec fn wf(self) -> bool {
        &&& self.group_of@.len() == self.y@.len()
        &&& self.group_keys@.len() <= usize::MAX / 4 + 1
        &&& self.x@.len() <= usize::MAX / 4
        &&& forall|i: int|
            0 <= i < self.group_of@.len() ==> (#[trigger] self.group_of@[i])
                < self.group_keys@.len()
    }

    /// The verdict on the fit.
    pub open spec fn verdict(self) -> Verdict {
        crate::catalog::common::verdict_or_ready(self.structural)
    }

    /// Whether a point may be explored: its log scales lie within bounds, and no coordinate
    /// of the population is anything but a number. Elsewhere the density is zero, and is not
    /// evaluated.
    pub open spec fn explorable(self, theta: Seq<Double>) -> bool {
        &&& crate::catalog::common::in_box(theta[1 + self.x@.len() as int])
        &&& self.likelihood == Likelihood::NegBinomial ==> crate::catalog::common::in_box(
            theta[2 + self.x@.len() as int],
        )
        &&& crate::catalog::common::finite_until(
            theta,
            population_count(self.x@.len() as int, self.likelihood),
        )
    }

    /// The coordinates of the unconstrained vector.
    pub open spec fn spec_dim(self) -> int {
        population_count(self.x@.len() as int, self.likelihood) + self.group_keys@.len()
    }

    pub fn n_obs(&self) -> (r: usize)
        ensures
            r == self.y@.len(),
    {
        self.y.len()
    }

    pub fn n_groups(&self) -> (r: usize)
        ensures
            r == self.group_keys@.len(),
    {
        self.group_keys.len()
    }

    pub fn readiness(&self) -> (r: Readiness)
        ensures
            r@ == self.verdict(),
    {
        readiness_of(&self.structural)
    }

    /// A joint fit cannot single out a group: a verdict implicates all of them.
    pub fn n_groups_unready(&self) -> (r: usize)
        ensures
            r == if self.verdict().status == FitStatus::Converged {
                0
            } else {
                self.group_keys@.len()
            },
    {
        implicated(status_of(&self.structural), self.n_groups())
    }

    /// Whether there is no posterior here, so that every draw is absent.
    pub fn refuses(&self) -> (r: bool)
        ensures
            r == self.verdict().status.refused(),
    {
        status_of(&self.structural).withholds_draws()
    }

    pub fn n_beta(&self) -> (r: usize)
        ensures
            r == self.x@.len(),
    {
        self.x.len()
    }

    pub fn i_log_tau(&self) -> (r: usize)
        requires
            self.wf(),
        ensures
            r == 1 + self.x@.len(),
    {
        1 + self.n_beta()
    }

    /// The coordinate of the log dispersion, for a likelihood that has one.
    pub fn i_log_phi(&self) -> (r: Option<usize>)
        requires
            self.wf(),
        ensures
            r == match self.likelihood {
                Likelihood::NegBinomial => Some((2 + self.x@.len()) as usize),
                Likelihood::Poisson => None,
            },
    {
        match self.likelihood {
            Likelihood::NegBinomial => Some(2 + self.n_beta()),
            Likelihood::Poisson => None,
        }
    }

    /// The first of the group offsets.
    pub fn i_z0(&self) -> (r: usize)
        requires
            self.wf(),
        ensures
            r == population_count(self.x@.len() as int, self.likelihood),
    {
        match self.likelihood {
            Likelihood::NegBinomial => 3 + self.n_beta(),
            Likelihood::Poisson => 2 + self.n_beta(),
        }
    }

    pub fn dim(&self) -> (r: usize)
        requires
            self.wf(),
        ensures
            r == self.spec_dim(),
    {
        self.i_z0() + self.n_groups()
    }

    /// Whether a point may be explored; where it may not, its density is zero.
    pub fn is_explorable(&self, theta: &Vec<Double>) -> (r: bool)
        requires
            self.wf(),
            self.spec_dim() <= theta@.len(),
        ensures
            r == self.explorable(theta@),
    {
        if !is_in_box(theta[self.i_log_tau()]) {
            return false;
        }
        if let Some(at) = self.i_log_phi() {
            if !is_in_box(theta[at]) {
                return false;
            }
        }
        are_finite_until(theta, self.i_z0())
    }

    /// Refuses buffers that do not hold one entry per coordinate.
    pub fn check_gradient_buffers(&self, theta: usize, out: usize) -> (r: BayesResult<()>)
        requires
            self.wf(),
        ensures
            r is Ok <==> theta == self.spec_dim() && out == self.spec_dim(),
            r matches Err(e) ==> e@ == Fault::coordinates(self.spec_dim() as nat, theta, out),
    {
        BayesError::check_coordinates(self.dim(), theta, out)
    }

    /// How each parameter is computed from the coordinates, in the order of the names.
    pub fn constrain(&self) -> (r: Vec<Formula>)
        requires
            self.wf(),
        ensures
            r@ == if self.verdict().status.refused() {
                crate::formula::repeated(Formula::Absent, self.params@.len())
            } else {
                formulas(self.x@.len() as int, self.group_keys@.len() as int, self.likelihood)
            },
    {
        if self.refuses() {
            return absent(self.params.len());
        }
        let mut out: Vec<Formula> = Vec::new();
        out.push(Formula::Coordinate { at: 0 });
        push_coordinates(&mut out, 1, self.n_beta());
        out.push(Formula::Exp { at: self.i_log_tau() });
        if let Some(at) = self.i_log_phi() {
            out.push(Formula::Exp { at });
        }
        push_level_pairs(&mut out, self.i_log_tau(), self.i_z0(), self.n_groups());
        proof {
            assert(out@ =~= formulas(self.x@.len() as int, self.group_keys@.len() as int, self.likelihood));
        }
        out
    }
}

/// Each parameter has its formula: there are as many of them, and every coordinate that
/// one reads is a coordinate of the model.
pub proof fn every_parameter_has_a_formula(
    x: Seq<Seq<char>>,
    keys: Seq<Seq<char>>,
    likelihood: Likelihood,
)
    requires
        population_count(x.len() as int, likelihood) + keys.len() <= usize::MAX,
    ensures
        formulas(x.len() as int, keys.len() as int, likelihood).len() == param_ids(
            x,
            keys,
            likelihood,
        ).len(),
        forall|i: int|
            0 <= i < formulas(x.len() as int, keys.len() as int, likelihood).len() ==> (
            #[trigger] formulas(x.len() as int, keys.len() as int, likelihood)[i]).reads_within(
                population_count(x.len() as int, likelihood) + keys.len(),
            ),
{
}

/// Every coordinate of the model is read by some formula: none is sampled in vain.
pub proof fn every_coordinate_is_reported(p: int, n_groups: int, likelihood: Likelihood, c: int)
    requires
        0 <= p,
        0 <= n_groups,
        population_count(p, likelihood) + n_groups <= usize::MAX,
        0 <= c < population_count(p, likelihood) + n_groups,
    ensures
        exists|i: int|
            0 <= i < formulas(p, n_groups, likelihood).len() && (#[trigger] formulas(
                p,
                n_groups,
                likelihood,
            )[i]).reads(c),
{
    let f = formulas(p, n_groups, likelihood);
    let first = population_count(p, likelihood);
    if c < first {
        assert(f[c].reads(c));
    } else {
        let j = c - first;
        assert((2 * j) / 2 == j && (2 * j) % 2 == 0);
        assert(f[first + 2 * j] == crate::catalog::common::level_pairs(
            1 + p,
            first,
            n_groups,
        )[2 * j]);
        assert(f[first + 2 * j].reads(c));
    }
}

/// A Poisson model reports no dispersion at all, rather than one that happens to be
/// large.
pub proof fn a_poisson_model_has_no_dispersion(x: Seq<Seq<char>>, keys: Seq<Seq<char>>, i: int)
    requires
        0 <= i < param_ids(x, keys, Likelihood::Poisson).len(),
    ensures
        param_ids(x, keys, Likelihood::Poisson)[i].name != "phi"@,
{
    reveal_strlit("intercept");
    reveal_strlit("tau");
    reveal_strlit("phi");
    reveal_strlit("u");
    reveal_strlit("rate");
    reveal_strlit("beta[");
    let p = x.len() as int;
    let id = param_ids(x, keys, Likelihood::Poisson)[i];
    assert("phi"@[0] == 'p');
    if i == 0 {
        assert(id.name[0] == 'i');
    } else if i < 1 + p {
        assert(id.name == crate::draws::coefficient_name(x[i - 1]));
        assert(id.name[0] == 'b');
    } else if i == 1 + p {
        assert(id.name[0] == 't');
    } else {
        assert(id == crate::draws::two_each(keys, "u"@, "rate"@)[i - (2 + p)]);
        assert(id.name[0] == 'u' || id.name[0] == 'r');
    }
}

/// The rate of a group is exactly the exponential of the intercept plus the group's own
/// offset: it reads the same two coordinates that the offset and the intercept do.
pub proof fn a_rate_is_the_intercept_and_the_group_effect(
    p: int,
    n_groups: int,
    likelihood: Likelihood,
    j: int,
)
    requires
        0 <= p,
        0 <= j < n_groups,
        population_count(p, likelihood) + n_groups <= usize::MAX,
    ensures
        ({
            let f = formulas(p, n_groups, likelihood);
            let at = population_count(p, likelihood) + 2 * j;
            &&& f[0] == (Formula::Coordinate { at: 0 })
            &&& f[at] matches Formula::Scaled { log_scale, at: z } && f[at + 1]
                == (Formula::ExpSum { base: 0, log_scale, at: z })
        }),
{
    let f = formulas(p, n_groups, likelihood);
    let first = population_count(p, likelihood);
    let pairs = crate::catalog::common::level_pairs(1 + p, first, n_groups);
    assert((2 * j) / 2 == j && (2 * j) % 2 == 0);
    assert((2 * j + 1) / 2 == j && (2 * j + 1) % 2 == 1);
    assert(f[first + 2 * j] == pairs[2 * j]);
    assert(f[first + 2 * j + 1] == pairs[2 * j + 1]);
}

/// A model has the likelihood and the prior that its options say, and the verdict that its
/// groups and its counts force: too few groups for the least number asked for, or no demand
/// at all.
pub proof fn a_model_carries_its_options_and_its_verdict(
    cfg: Config,
    data: DataView,
    model: CompiledHierNegbin,
)
    requires
        built(cfg@, data) == Ok::<Read, Fault>(model@),
    ensures
        ({
            let e = cfg.entries@;
            let idle = forall|i: int| 0 <= i < model.y@.len() ==> (#[trigger] model.y@[i]).scaled() == 0;
            &&& match crate::config::text_of(e, "likelihood"@) {
                None => model.likelihood == Likelihood::NegBinomial,
                Some(s) => (s == "negbinomial"@ && model.likelihood == Likelihood::NegBinomial) || (
                s == "poisson"@ && model.likelihood == Likelihood::Poisson),
            }
            &&& prior_is_as_written(crate::config::table_of(e, "prior"@), model.prior)
            &&& forall|least: nat|
                #[trigger] crate::config::counts_or(e, "min_groups"@, 3, least) ==> {
                    &&& model.structural is None <==> model.group_keys@.len() >= least && !idle
                    &&& model.structural matches Some(r) ==> r.status == if model.group_keys@.len()
                        < least {
                        FitStatus::InsufficientData
                    } else {
                        FitStatus::Degenerate
                    }
                }
        }),
{
    let e = cfg.entries@;
    a_request_is_what_its_options_say(cfg@);
    let asked = Asked::of(cfg@)->Ok_0;
    let p = crate::panel::panel_of(data, asked.columns(), Some(asked.group), true)->Ok_0;
    assert(model@ == Read::of(data, asked, p));
    assert(model@.group_keys.len() == model.group_keys@.len());
    assert(model@.structural == crate::catalog::common::verdict_of(model.structural));
    let checks = row_checks(
        data.column(asked.y)->0,
        match asked.exposure {
            Some(name) => data.column(name),
            None => None,
        },
        p.order(),
    );
    crate::data::lemma_no_fault(checks);
    assert forall|i: int| 0 <= i < model.y@.len() implies (#[trigger] model.y@[i]).finite()
        && !model.y@[i].nan() by {
        assert(checks[i] is None);
    }
    crate::double::zero_is_nothing();
    assert forall|least: nat|
        #[trigger] crate::config::counts_or(e, "min_groups"@, 3, least) implies least
        == asked.min_groups by {
        crate::double::a_count_is_written_one_way(least, asked.min_groups as nat);
    }
}

/// Whether parameters are named and computed as they should be: the intercept and the
/// coefficients as they are, the scale and the dispersion as exponentials, and of each group
/// its offset and its rate.
pub open spec fn named_and_computed(
    x: Seq<Seq<char>>,
    keys: Seq<Seq<char>>,
    likelihood: Likelihood,
    ids: Seq<ParamId>,
    f: Seq<Formula>,
) -> bool {
    let p = x.len() as int;
    let first = if likelihood == Likelihood::NegBinomial {
        3 + p
    } else {
        2 + p
    };
    let global = "__global__"@;
    &&& ids.len() == first + 2 * keys.len()
    &&& f.len() == ids.len()
    &&& ids[0] == (ParamId { group: global, name: "intercept"@ })
    &&& f[0] == (Formula::Coordinate { at: 0 })
    &&& forall|k: int|
        #![trigger x[k]]
        0 <= k < p ==> ids[1 + k] == (ParamId { group: global, name: "beta["@ + x[k] + "]"@ })
            && f[1 + k] == (Formula::Coordinate { at: (1 + k) as usize })
    &&& ids[1 + p] == (ParamId { group: global, name: "tau"@ })
    &&& f[1 + p] == (Formula::Exp { at: (1 + p) as usize })
    &&& likelihood == Likelihood::NegBinomial ==> ids[2 + p] == (ParamId {
        group: global,
        name: "phi"@,
    }) && f[2 + p] == (Formula::Exp { at: (2 + p) as usize })
    &&& forall|g: int|
        #![trigger keys[g]]
        0 <= g < keys.len() ==> {
            let at = first + 2 * g;
            let log_scale = (1 + p) as usize;
            let z = (first + g) as usize;
            &&& ids[at] == (ParamId { group: keys[g], name: "u"@ })
            &&& f[at] == (Formula::Scaled { log_scale, at: z })
            &&& ids[at + 1] == (ParamId { group: keys[g], name: "rate"@ })
            &&& f[at + 1] == (Formula::ExpSum { base: 0, log_scale, at: z })
        }
}

proof fn lemma_named_and_computed(x: Seq<Seq<char>>, keys: Seq<Seq<char>>, likelihood: Likelihood)
    requires
        x.len() + keys.len() + 3 <= usize::MAX,
    ensures
        named_and_computed(
            x,
            keys,
            likelihood,
            param_ids(x, keys, likelihood),
            formulas(x.len() as int, keys.len() as int, likelihood),
        ),
{
    let p = x.len() as int;
    let n_groups = keys.len() as int;
    let first = population_count(p, likelihood);
    let ids = param_ids(x, keys, likelihood);
    let f = formulas(p, n_groups, likelihood);
    let pairs = crate::catalog::common::level_pairs(1 + p, first, n_groups);
    let two = crate::draws::two_each(keys, "u"@, "rate"@);
    assert forall|k: int| #![trigger x[k]] 0 <= k < p implies ids[1 + k] == (ParamId {
        group: "__global__"@,
        name: "beta["@ + x[k] + "]"@,
    }) && f[1 + k] == (Formula::Coordinate { at: (1 + k) as usize }) by {
        assert(ids[1 + k] == crate::draws::coefficients(crate::types::global_group(), x)[k]);
        assert(f[1 + k] == crate::formula::coordinates(1, p as nat)[k]);
    }
    assert forall|g: int| #![trigger keys[g]] 0 <= g < keys.len() implies {
        let at = first + 2 * g;
        let log_scale = (1 + p) as usize;
        let z = (first + g) as usize;
        &&& ids[at] == (ParamId { group: keys[g], name: "u"@ })
        &&& f[at] == (Formula::Scaled { log_scale, at: z })
        &&& ids[at + 1] == (ParamId { group: keys[g], name: "rate"@ })
        &&& f[at + 1] == (Formula::ExpSum { base: 0, log_scale, at: z })
    } by {
        let at = first + 2 * g;
        assert((2 * g) / 2 == g && (2 * g) % 2 == 0);
        assert((2 * g + 1) / 2 == g && (2 * g + 1) % 2 == 1);
        assert(f[at] == pairs[2 * g] && f[at + 1] == pairs[2 * g + 1]);
        assert(ids[at] == two[2 * g] && ids[at + 1] == two[2 * g + 1]);
    }
}

/// Every parameter of a model is reported under its own name and group, and computed from
/// its own coordinates.
pub proof fn a_parameter_is_computed_as_its_name_says(
    cfg: Config,
    data: DataView,
    model: CompiledHierNegbin,
)
    requires
        built(cfg@, data) == Ok::<Read, Fault>(model@),
        model.wf(),
    ensures
        named_and_computed(
            crate::config::texts_of(cfg.entries@, "x"@),
            Seq::new(model.group_keys@.len(), |g: int| model.group_keys@[g]@),
            model.likelihood,
            Seq::new(
                model.params@.len(),
                |i: int|
                    ParamId { group: model.params@[i].group_id@, name: model.params@[i].name@ },
            ),
            formulas(model.x@.len() as int, model.group_keys@.len() as int, model.likelihood),
        ),
{
    a_request_is_what_its_options_say(cfg@);
    let asked = Asked::of(cfg@)->Ok_0;
    let panel = crate::panel::panel_of(data, asked.columns(), Some(asked.group), true)->Ok_0;
    assert(model@ == Read::of(data, asked, panel));
    let keys = Seq::new(model.group_keys@.len(), |g: int| model.group_keys@[g]@);
    let ids = Seq::new(
        model.params@.len(),
        |i: int| ParamId { group: model.params@[i].group_id@, name: model.params@[i].name@ },
    );
    assert(model@.x.len() == model.x@.len());
    assert(keys =~= model@.group_keys);
    assert(ids =~= model@.params);
    lemma_named_and_computed(asked.x, keys, model.likelihood);
}

/// A request that asks for the Laplace engine is refused, in whatever case of letters it
/// is written.
pub proof fn laplace_is_refused_in_any_case(cfg: Scope)
    requires
        cfg.laplace_requested() == Ok::<bool, Fault>(true),
    ensures
        Asked::of(cfg) is Err,
{
}

/// What is read for the identity of the data is what a fit is made of: every column that the
/// options name, at every complete row, and nothing else.
pub proof fn the_columns_read_are_the_ones_named(cfg: Config, data: DataView, reading: Reading)
    requires
        reads(cfg@, data) == Ok::<Entries, Fault>(reading@),
    ensures
        crate::reading::holds_the_columns(
            data,
            columns_named(cfg.entries@),
            seq![crate::config::text_of(cfg.entries@, "group"@)->0],
            reading,
        ),
{
    a_request_is_what_its_options_say(cfg@);
    let asked = Asked::of(cfg@)->Ok_0;
    assert(asked.columns() =~= columns_named(cfg.entries@));
    assert(crate::panel::group_columns(Some(asked.group)) =~= seq![crate::config::text_of(cfg.entries@, "group"@)->0]);
    crate::reading::a_reading_holds_the_named_columns(
        data,
        columns_named(cfg.entries@),
        seq![crate::config::text_of(cfg.entries@, "group"@)->0],
        reading,
    );
}

/// A point may be explored exactly when the logarithms of the scales lie from minus thirty to
/// thirty and every coordinate of the population is a number.
pub proof fn a_point_is_explored_within_bounds(model: CompiledHierNegbin, theta: Seq<Double>)
    ensures
        model.explorable(theta) <==> {
            let p = model.x@.len() as int;
            &&& crate::catalog::common::within_thirty(theta[1 + p])
            &&& model.likelihood == Likelihood::NegBinomial ==> crate::catalog::common::within_thirty(theta[2 + p])
            &&& forall|i: int| 0 <= i < (if model.likelihood == Likelihood::NegBinomial {
                3 + p
            } else {
                2 + p
            }) ==> (#[trigger] theta[i]).finite()
        },
{
    let p = model.x@.len() as int;
    crate::catalog::common::the_bound_is_thirty_either_way(theta[1 + p]);
    crate::catalog::common::the_bound_is_thirty_either_way(theta[2 + p]);
}

/// Whether an error is the one of a row: it refuses the slot of the value that is not sound,
/// and shows it.
pub open spec fn blames_the_row(
    entries: Seq<Entry>,
    data: DataView,
    row: int,
    e: BayesError,
) -> bool {
    let y = data.column(crate::config::text_of(entries, "y"@)->0)->0.values@[row];
    if !(y.finite() && exists|n: nat| y.scaled() == #[trigger] (n * crate::double::one_scaled())) {
        crate::catalog::common::shows(e, "y"@, y)
    } else {
        crate::config::text_of(entries, "exposure"@) matches Some(name)
            && crate::catalog::common::shows(
            e,
            "exposure"@,
            data.column(name)->0.values@[row],
        )
    }
}

proof fn lemma_row_fault(cfg: Config, data: DataView, asked: Asked, row: usize, e: BayesError)
    requires
        Asked::of(cfg@) == Ok::<Asked, Fault>(asked),
    ensures
        ({
            let f = row_fault(
                data.column(asked.y)->0.values@[row as int],
                match asked.exposure {
                    Some(name) => Some(data.column(name)->0.values@[row as int]),
                    None => None,
                },
                row,
            );
            &&& f is None <==> row_is_sound(cfg.entries@, data, row as int)
            &&& f == Some(e@) ==> blames_the_row(cfg.entries@, data, row as int, e)
        }),
{
    let entries = cfg.entries@;
    assert(Some(asked.y) == crate::config::text_of(entries, "y"@) && asked.exposure
        == crate::config::text_of(entries, "exposure"@)) by {
        a_request_is_what_its_options_say(cfg@);
    }
    crate::double::a_count_is_its_value(data.column(asked.y)->0.values@[row as int]);
    let f = row_fault(
        data.column(asked.y)->0.values@[row as int],
        match asked.exposure {
            Some(name) => Some(data.column(name)->0.values@[row as int]),
            None => None,
        },
        row,
    );
    if f == Some(e@) {
        crate::catalog::common::lemma_shows(e, e@->slot);
    }
}

/// A sound request that a relation cannot serve is refused for what is wrong with the
/// relation, and for the first thing: a column that is not there, the reserved label, a
/// row that is not sound, which is shown, or fewer rows than it takes, with both numbers.
#[verifier::rlimit(60)]
pub proof fn a_refusal_says_what_is_wrong(
    cfg: Config,
    data: DataView,
    rows: Seq<usize>,
    e: BayesError,
)
    requires
        data.wf(),
        cfg@.list_fits("x"@),
        built(cfg@, data) == Err::<Read, Fault>(e@),
        request_is_sound(cfg.entries@),
        crate::panel::each_present_row_once(
            data,
            columns_named(cfg.entries@),
            seq![crate::config::text_of(cfg.entries@, "group"@)->0],
            rows,
        ),
    ensures
        refusal_is_right(cfg.entries@, data, rows, e),
{
    let entries = cfg.entries@;
    a_request_is_what_its_options_say(cfg@);
    let asked = Asked::of(cfg@)->Ok_0;
    let columns = asked.columns();
    let keys = seq![asked.group];
    assert(columns =~= columns_named(entries));
    assert(crate::panel::group_columns(Some(asked.group)) =~= keys);
    crate::panel::the_rows_read_are_the_complete_ones(data, columns, keys);
    crate::panel::a_panel_is_read_exactly_when_it_can_be(data, columns, asked.group, rows);
    assert(keys[0] == asked.group);
    crate::errors::an_error_says_what_it_holds(e);
    match crate::panel::panel_of(data, columns, Some(asked.group), true) {
        Err(f) => {
            crate::panel::a_panel_is_refused_for_what_is_missing(
                data,
                columns,
                Some(asked.group),
                true,
                e,
            );
            if data.usable(columns, keys) is Ok {
                assert(data.key_column(keys[0]) is Some);
            }
        },
        Ok(p) => {
            let order = p.order();
            crate::panel::a_panel_puts_each_row_into_its_own_group(
                data,
                columns,
                asked.group,
                true,
            );
            crate::panel::lemma_same_rows_read(data, columns, keys, rows, order);
            crate::panel::a_panel_holds_each_row_read_once(
                data,
                columns,
                Some(asked.group),
                true,
            );
            crate::data::usable_rows_are_no_more_than_rows(data, columns, keys);
            crate::double::zero_is_nothing();
            let checks = row_checks(
                data.column(asked.y)->0,
                match asked.exposure {
                    Some(name) => data.column(name),
                    None => None,
                },
                order,
            );
            if let Some(name) = asked.exposure {
                let at = columns.len() - 1;
                assert(columns[at] == name);
                assert(data.column(columns[at]) is Some);
            }
            assert forall|i: int| 0 <= i < order.len() implies ((#[trigger] checks[i]) is None
                <==> row_is_sound(entries, data, order[i] as int)) by {
                lemma_row_fault(cfg, data, asked, order[i], e);
            }
            if crate::data::first_fault(checks) is Some {
                crate::data::lemma_fault_of_a_check(checks);
                let i = choose|i: int|
                    0 <= i < checks.len() && (#[trigger] checks[i]) == crate::data::first_fault(
                        checks,
                    );
                assert(checks[i] is Some);
                assert(order.contains(order[i]));
                let j = choose|j: int| 0 <= j < rows.len() && rows[j] == order[i];
                assert(!row_is_sound(entries, data, rows[j] as int));
                lemma_row_fault(cfg, data, asked, order[i], e);
                assert(checks[i] == Some(e@));
                assert(blames_the_row(entries, data, rows[j] as int, e));
            } else {
                crate::data::lemma_no_fault(checks);
                assert forall|i: int| 0 <= i < rows.len() implies row_is_sound(
                    entries,
                    data,
                    (#[trigger] rows[i]) as int,
                ) by {
                    assert(rows.contains(rows[i]));
                    let j = choose|j: int| 0 <= j < order.len() && order[j] == rows[i];
                    assert(checks[j] is None);
                }
            }
        },
    }
}

/// Whether an error is the one that a relation deserves.
pub open spec fn refusal_is_right(
    entries: Seq<Entry>,
    data: DataView,
    rows: Seq<usize>,
    e: BayesError,
) -> bool {
    let group = crate::config::text_of(entries, "group"@)->0;
    let names = columns_named(entries);
    if (exists|c: int| 0 <= c < names.len() && data.column(#[trigger] names[c]) is None)
        || data.key_column(group) is None {
        crate::panel::names_a_missing_column(data, names, seq![group], e)
    } else if exists|i: int|
        0 <= i < rows.len() && data.key_column(group)->0.values@[(#[trigger] rows[i]) as int]@
            == "__global__"@ {
        crate::catalog::common::refuses(e, "group"@)
    } else if exists|i: int|
        0 <= i < rows.len() && !row_is_sound(entries, data, (#[trigger] rows[i]) as int) {
        exists|i: int|
            0 <= i < rows.len() && !row_is_sound(entries, data, (#[trigger] rows[i]) as int)
                && blames_the_row(entries, data, rows[i] as int, e)
    } else {
        e matches BayesError::InsufficientData { rows: n, params } && n == rows.len() && params
            == crate::config::texts_of(entries, "x"@).len() + (if crate::config::text_of(
                entries,
                "likelihood"@,
            ) == Some("poisson"@) {
                2int
            } else {
                3int
            })
    }
}

/// Whether a slot of the options is at fault: it is not known, or what is written in it may not
/// stand there, or the prior is not sound.
pub open spec fn is_at_fault(entries: Seq<Entry>, slot: Seq<char>) -> bool {
    ||| exists|i: int|
        0 <= i < entries.len() && slot == (#[trigger] entries[i]).name@ && !seq![
            "y"@,
            "group"@,
            "x"@,
            "exposure"@,
            "likelihood"@,
            "min_groups"@,
            "prior"@,
            "draws"@,
            "chains"@,
            "warmup"@,
            "max_draw_megabytes"@,
            "seed"@,
            "engine"@,
            "sample_from"@,
        ].contains(slot)
    ||| slot == "y"@ && (crate::config::text_of(entries, "y"@) is None)
    ||| slot == "group"@ && (crate::config::text_of(entries, "group"@) is None)
    ||| slot == "x"@ && (!crate::config::takes_texts(entries, "x"@))
    ||| slot == "exposure"@ && (!crate::config::takes_text(entries, "exposure"@))
    ||| slot == "likelihood"@ && (!crate::config::takes_text(entries, "likelihood"@)
        || (crate::config::text_of(entries, "likelihood"@) matches Some(s) && !seq!["negbinomial"@, "poisson"@].contains(s)))
    ||| slot == "min_groups"@ && (!crate::config::takes_count(entries, "min_groups"@, 2, 1_000_000_000))
    ||| slot == "engine"@ && (!crate::config::takes_text(entries, "engine"@)
        || (crate::config::text_of(entries, "engine"@) matches Some(s) && crate::text::small(s) == "laplace"@))
    ||| !(crate::config::takes_table(entries, "prior"@) && prior_is_sound(
        crate::config::table_of(entries, "prior"@),
    ))
}

/// A request that is refused for its options names a slot that is at fault.
#[verifier::rlimit(40)]
pub proof fn the_slot_that_is_named_is_at_fault(cfg: Config)
    ensures
        Asked::of(cfg@) matches Err(f) ==> (f matches Fault::Config { slot, .. } && is_at_fault(
            cfg.entries@,
            slot,
        )),
{
    let entries = cfg.entries@;
    let known = crate::text::words(SLOTS@);
    assert(known =~= seq![
        "y"@,
        "group"@,
        "x"@,
        "exposure"@,
        "likelihood"@,
        "min_groups"@,
        "prior"@,
        "draws"@,
        "chains"@,
        "warmup"@,
        "max_draw_megabytes"@,
        "seed"@,
        "engine"@,
        "sample_from"@,
    ]);
    crate::config::an_unknown_slot_is_named_by_its_path(cfg@, known);
    assert forall|name: Seq<char>| #[trigger] (Seq::<char>::empty() + name) == name by {
        assert(Seq::<char>::empty() + name =~= name);
    }
    reveal_strlit("negbinomial");
    reveal_strlit("poisson");
    crate::config::a_text_slot_gives_the_text_written(cfg@, "y"@);
    crate::config::a_refused_slot_is_named_by_its_path(
        cfg@,
        "y"@,
        Double { bits: 0 },
        0,
        1,
        0,
        Seq::empty(),
        "y"@,
    );
    crate::config::a_text_slot_gives_the_text_written(cfg@, "group"@);
    crate::config::a_refused_slot_is_named_by_its_path(
        cfg@,
        "group"@,
        Double { bits: 0 },
        0,
        1,
        0,
        Seq::empty(),
        "group"@,
    );
    crate::config::a_text_slot_gives_the_text_written(cfg@, "x"@);
    crate::config::a_refused_slot_is_named_by_its_path(
        cfg@,
        "x"@,
        Double { bits: 0 },
        0,
        1,
        0,
        Seq::empty(),
        "x"@,
    );
    crate::config::a_text_slot_gives_the_text_written(cfg@, "exposure"@);
    crate::config::a_refused_slot_is_named_by_its_path(
        cfg@,
        "exposure"@,
        Double { bits: 0 },
        0,
        1,
        0,
        Seq::empty(),
        "exposure"@,
    );
    assert(crate::text::words(LIKELIHOODS@) =~= seq!["negbinomial"@, "poisson"@]);
    assert(seq!["negbinomial"@, "poisson"@][0] == "negbinomial"@);
    assert(seq!["negbinomial"@, "poisson"@][1] == "poisson"@);
    crate::config::a_choice_is_the_word_written(
        cfg@,
        "likelihood"@,
        crate::text::words(LIKELIHOODS@),
        "negbinomial"@,
    );
    crate::config::a_refused_slot_is_named_by_its_path(
        cfg@,
        "likelihood"@,
        Double { bits: 0 },
        0,
        1,
        0,
        crate::text::words(LIKELIHOODS@),
        "negbinomial"@,
    );
    crate::config::a_count_slot_gives_the_count_written(cfg@, "min_groups"@, 3, 2, 1_000_000_000);
    crate::config::a_refused_slot_is_named_by_its_path(
        cfg@,
        "min_groups"@,
        Double { bits: 0 },
        2,
        1_000_000_000,
        3,
        Seq::empty(),
        "min_groups"@,
    );
    crate::config::an_engine_and_a_source_are_asked_for_by_name(cfg@);
    crate::config::a_refused_slot_is_named_by_its_path(
        cfg@,
        "engine"@,
        Double { bits: 0 },
        0,
        1,
        0,
        Seq::empty(),
        "engine"@,
    );
    crate::config::a_text_slot_gives_the_text_written(cfg@, "prior"@);
    if let Ok(table) = cfg@.table("prior"@) {
        lemma_prior_asked(table);
    }
}

impl HierNegbin {
    pub fn id(&self) -> (r: &'static str)
        ensures
            r@ == ID@,
    {
        ID
    }

    pub fn code(&self) -> (r: FamilyCode)
        ensures
            r == FamilyCode::HierNegbin,
    {
        FamilyCode::HierNegbin
    }

    pub fn description(&self) -> (r: &'static str)
        ensures
            r@ == DESCRIPTION@,
    {
        DESCRIPTION
    }

    pub fn default_engine(&self) -> (r: EngineKind)
        ensures
            r == EngineKind::Nuts,
    {
        EngineKind::Nuts
    }

    pub fn config_slots(&self) -> (r: [&'static str; 14])
        ensures
            r == SLOTS,
    {
        SLOTS
    }

    /// Compiles a request against the relation it names.
    pub fn compile(&self, cfg: &Config, data: &DataView) -> (r: BayesResult<CompiledHierNegbin>)
        requires
            data.wf(),
            cfg@.list_fits("x"@),
        ensures
            crate::errors::outcome(r) == built(cfg@, *data),
            r matches Ok(model) ==> model.wf(),
    {
        build(cfg, data)
    }

    /// The columns and rows that a fit of this request reads: what the fingerprint of its
    /// data is taken of.
    pub fn reading(&self, cfg: &Config, data: &DataView) -> (r: BayesResult<Reading>)
        requires
            data.wf(),
        ensures
            crate::errors::outcome(r) == reads(cfg@, *data),
    {
        let request = Request::parse(cfg)?;
        read_columns(data, request.list_columns(), &Some(request.group))
    }
}

} // verus!
