//! Hierarchical price elasticity, negative by construction, on a count or a positive
//! response.
//!
//! ```text
//!   log mu_i = intercept + eta_{g(i)} + b_{g(i)} * logprice_i + x_i'beta
//!
//!   eta_g = tau_level * v_g,          v_g ~ N(0, 1)    (segment volume level)
//!   b_g   = -exp(psi + tau * z_g),    z_g ~ N(0, 1)    (segment elasticity)
//! ```
//!
//! Two things set the family apart. The sign of an elasticity is a constraint: it is
//! reported through a formula that cannot be positive. And refusals are per segment: a
//! segment whose price never moved is named, and the segments whose prices did move are
//! not implicated.
use super::common::{
    are_finite_until, every_zero, few_groups, implicated, is_in_box, readiness_of, status_of,
    PRIOR_DRAW_REFUSAL,
};
use crate::config::{Config, Entry, Scope, Section};
use crate::data::{gather, gather_all, DataView, NumericColumn};
use crate::double::Double;
use crate::draws::{push_coefficients, push_global, push_two_each, ParamId, ParamName};
use crate::errors::{BayesError, BayesResult, Fault, Message};
use crate::formula::{absent, push_coordinates, Formula, Sign};
use crate::panel::{read_panel, PanelView};
use crate::readiness::{Readiness, Verdict};
use crate::reading::{read_columns, Entries, Reading};
use crate::text::{contains_text, decimal, join, push_text, push_texts, same_text};
use crate::types::{global_group_key, EngineKind, FamilyCode, FitStatus};
use vstd::prelude::*;

verus! {

/// The family of hierarchical price elasticities.
#[derive(Debug)]
pub struct HierElasticity;

pub const SLOTS: [&'static str; 15] = [
    "y",
    "price",
    "group",
    "x",
    "likelihood",
    "min_groups",
    "min_price_variation",
    "prior",
    "draws",
    "chains",
    "warmup",
    "max_draw_megabytes",
    "seed",
    "engine",
    "sample_from",
];

pub const PRIOR_SLOTS: [&'static str; 6] = [
    "intercept",
    "beta",
    "elasticity",
    "tau",
    "tau_level",
    "dispersion",
];

pub const LIKELIHOODS: [&'static str; 2] = ["negbinomial", "gamma"];

/// The bits of 0.01: a spread of one percent, in log units of price, below which a
/// segment's elasticity is not identified.
pub const MIN_PRICE_VARIATION_BITS: u64 = 0x3F84_7AE1_47AE_147B;

/// The bits of 1: one log unit of spread of the magnitude of the elasticity.
pub const ELASTICITY_SPREAD_BITS: u64 = 0x3FF0_0000_0000_0000;

/// The bits of 0.5: the scale of the spread of log elasticities across segments.
pub const TAU_SCALE_BITS: u64 = 0x3FE0_0000_0000_0000;

/// The bits of 2: the scale of the spread of log volumes across segments.
pub const TAU_LEVEL_SCALE_BITS: u64 = 0x4000_0000_0000_0000;

pub const ID: &'static str = "hier_elasticity";

pub const DESCRIPTION: &'static str =
    "Hierarchical price elasticity -- a log-link negative binomial or Gamma GLM \
     whose per-segment elasticity is pooled on the log of its magnitude and is \
     negative by construction. For a positive slope, use 'pooled_gaussian' with \
     'random_slopes' instead.";

pub const LAPLACE_REFUSAL: &'static str =
    "'hier_elasticity' is served by NUTS only. A Laplace posterior is a \
     Gaussian at the joint mode, and a non-centred hierarchy has no usable one: \
     the likelihood does not depend on a pooling scale when every group offset \
     is zero, so the mode search climbs a ridge that carries no posterior mass. \
     Drop the 'engine' slot to use the default";

pub const PRICE_TWICE: &'static str =
    "' is already the `price` slot; naming it again as a \
     control would give the same column two coefficients and the design \
     would be rank deficient";

pub const COUNT_NEEDED: &'static str =
    "under the negative binomial likelihood the response \
     must be a non-negative whole count; row ";

pub const COUNT_ADVICE: &'static str =
    ". For revenue or tonnage set \"likelihood\": \"gamma\"";

pub const POSITIVE_NEEDED: &'static str =
    "under the Gamma likelihood the response must be strictly positive; row ";

pub const POSITIVE_ADVICE: &'static str =
    ". For unit counts, which may be zero, use the default negative binomial";

pub const FEW_GROUPS: &'static str =
    ": two pooling scales estimated from this few describe the sample rather than the \
     population, and every per-segment elasticity inherits that";

pub const STILL_PRICES: &'static str =
    " in log units over the whole period, so nothing in this data identifies an elasticity at \
     any level. Keine Aussage moeglich: the prices were constant.";

pub const STILL_PRICES_PROPER: &'static str =
    " Every coordinate carries a proper prior, so a draw is still available \
     -- but it would be the prior, not a finding";

pub const NO_VOLUME: &'static str =
    " volumes is zero, so the level is identified only in \
     the limit of a zero rate and there is no interior maximum to put a \
     posterior around";

pub const PARTLY_STILL: &'static str =
    "), so their elasticities are the pooled prior rather than a finding. They are \
     named individually in the `__group_status__` rows; the remaining segments \
     are estimated from their own data";

/// Which likelihood the response is drawn from.
#[derive(Debug, Clone, Copy, PartialEq, Eq, Structural)]
pub enum Likelihood {
    /// Whole counts: units, cases, orders. Admits a zero.
    NegBinomial,
    /// A positive continuous response: revenue, tonnage.
    Gamma,
}

impl Likelihood {
    /// What a name stands for.
    pub open spec fn named(name: Seq<char>) -> Result<Likelihood, Fault> {
        if name == "negbinomial"@ {
            Ok(Likelihood::NegBinomial)
        } else if name == "gamma"@ {
            Ok(Likelihood::Gamma)
        } else {
            Err(Fault::config("likelihood"@, "unknown: '"@ + name + "'"@))
        }
    }

    pub open spec fn spec_dispersion_name(self) -> Seq<char> {
        match self {
            Likelihood::NegBinomial => "phi"@,
            Likelihood::Gamma => "shape"@,
        }
    }

    pub fn parse(name: &str) -> (r: BayesResult<Likelihood>)
        ensures
            crate::errors::plain(r) == Likelihood::named(name@),
    {
        if same_text(name, "negbinomial") {
            Ok(Likelihood::NegBinomial)
        } else if same_text(name, "gamma") {
            Ok(Likelihood::Gamma)
        } else {
            Err(
                BayesError::config_text(
                    "likelihood",
                    "unknown: '".to_owned().concat(name).concat("'"),
                ),
            )
        }
    }

    /// The name the dispersion parameter is reported under: a large `phi` is a tight
    /// negative binomial, a large `shape` a tight Gamma, and they are different
    /// quantities.
    pub fn dispersion_name(&self) -> (r: &'static str)
        ensures
            r@ == self.spec_dispersion_name(),
    {
        match self {
            Likelihood::NegBinomial => "phi",
            Likelihood::Gamma => "shape",
        }
    }
}

/// Prior hyperparameters.
#[derive(Debug, Clone, Copy)]
pub struct Prior {
    pub intercept_mean: Double,
    pub intercept_sd: Double,
    pub beta_scale: Double,
    /// Mean and standard deviation of the log of the population elasticity's magnitude.
    pub elasticity_log: (Double, Double),
    /// Half-Normal scale of the spread of log elasticities.
    pub tau_scale: Double,
    /// Half-Normal scale of the spread of log volumes.
    pub tau_level_scale: Double,
    /// Mean and standard deviation of the log of the dispersion.
    pub dispersion_log: (Double, Double),
}

impl Prior {
    /// The prior that a table of options asks for.
    pub open spec fn asked(cfg: Scope) -> Result<Prior, Fault> {
        let zero = Double { bits: 0 };
        let flat = Double::spec_infinity();
        let intercept = cfg.centre_and_spread("intercept"@, "mean"@, zero, "sd"@, flat);
        let beta = cfg.scale("beta"@, flat);
        let elasticity = cfg.centre_and_spread(
            "elasticity"@,
            "log_mean"@,
            zero,
            "log_sd"@,
            Double { bits: ELASTICITY_SPREAD_BITS },
        );
        let tau = cfg.scale("tau"@, Double { bits: TAU_SCALE_BITS });
        let tau_level = cfg.scale("tau_level"@, Double { bits: TAU_LEVEL_SCALE_BITS });
        let dispersion = cfg.centre_and_spread(
            "dispersion"@,
            "log_mean"@,
            zero,
            "log_sd"@,
            flat,
        );
        if let Some(f) = cfg.unknown_slot(crate::text::words(PRIOR_SLOTS@)) {
            Err(f)
        } else if let Err(f) = intercept {
            Err(f)
        } else if let Err(f) = beta {
            Err(f)
        } else if let Err(f) = elasticity {
            Err(f)
        } else if let Err(f) = tau {
            Err(f)
        } else if let Err(f) = tau_level {
            Err(f)
        } else if let Err(f) = dispersion {
            Err(f)
        } else {
            Ok(
                Prior {
                    intercept_mean: intercept->Ok_0.0,
                    intercept_sd: intercept->Ok_0.1,
                    beta_scale: beta->Ok_0,
                    elasticity_log: elasticity->Ok_0,
                    tau_scale: tau->Ok_0,
                    tau_level_scale: tau_level->Ok_0,
                    dispersion_log: dispersion->Ok_0,
                },
            )
        }
    }

    /// Whether every coordinate carries a proper prior.
    pub open spec fn proper(self) -> bool {
        &&& self.intercept_sd.finite()
        &&& self.beta_scale.finite()
        &&& self.elasticity_log.1.finite()
        &&& self.tau_scale.finite()
        &&& self.tau_level_scale.finite()
        &&& self.dispersion_log.1.finite()
    }

    pub fn parse(cfg: &Section) -> (r: BayesResult<Prior>)
        ensures
            crate::errors::plain(r) == Prior::asked(cfg@),
    {
        cfg.reject_unknown(&PRIOR_SLOTS)?;
        let zero = Double::zero();
        let flat = Double::infinity();
        let intercept = cfg.location_and_scale("intercept", "mean", zero, "sd", flat)?;
        let beta_scale = cfg.scale_or("beta", flat)?;
        let elasticity_log = cfg.location_and_scale(
            "elasticity",
            "log_mean",
            zero,
            "log_sd",
            Double { bits: ELASTICITY_SPREAD_BITS },
        )?;
        let tau_scale = cfg.scale_or("tau", Double { bits: TAU_SCALE_BITS })?;
        let tau_level_scale = cfg.scale_or("tau_level", Double { bits: TAU_LEVEL_SCALE_BITS })?;
        let dispersion_log = cfg.location_and_scale(
            "dispersion",
            "log_mean",
            zero,
            "log_sd",
            flat,
        )?;
        Ok(
            Prior {
                intercept_mean: intercept.0,
                intercept_sd: intercept.1,
                beta_scale,
                elasticity_log,
                tau_scale,
                tau_level_scale,
                dispersion_log,
            },
        )
    }

    /// Whether every coordinate carries a proper prior.
    pub fn is_proper(&self) -> (r: bool)
        ensures
            r == self.proper(),
    {
        self.intercept_sd.is_finite() && self.beta_scale.is_finite()
            && self.elasticity_log.1.is_finite() && self.tau_scale.is_finite()
            && self.tau_level_scale.is_finite() && self.dispersion_log.1.is_finite()
    }
}

/// What a request asks for.
#[derive(Debug)]
pub struct Request {
    pub y: String,
    pub price: String,
    pub group: String,
    pub x: Vec<String>,
    pub likelihood: Likelihood,
    pub min_groups: usize,
    pub min_price_variation: Double,
    pub prior: Prior,
}

/// What a [`Request`] says.
#[verifier::ext_equal]
pub struct Asked {
    pub y: Seq<char>,
    pub price: Seq<char>,
    pub group: Seq<char>,
    pub x: Seq<Seq<char>>,
    pub likelihood: Likelihood,
    pub min_groups: usize,
    pub min_price_variation: Double,
    pub prior: Prior,
}

impl View for Request {
    type V = Asked;

    open spec fn view(&self) -> Asked {
        Asked {
            y: self.y@,
            price: self.price@,
            group: self.group@,
            x: crate::text::texts(self.x@),
            likelihood: self.likelihood,
            min_groups: self.min_groups,
            min_price_variation: self.min_price_variation,
            prior: self.prior,
        }
    }
}

impl Asked {
    /// The request that the options make, or the first thing wrong with them.
    pub open spec fn of(cfg: Scope) -> Result<Asked, Fault> {
        let y = cfg.required_text("y"@);
        let price = cfg.required_text("price"@);
        let group = cfg.required_text("group"@);
        let x = cfg.text_list("x"@);
        let chosen = cfg.choice("likelihood"@, crate::text::words(LIKELIHOODS@), "negbinomial"@);
        let likelihood = Likelihood::named(chosen->Ok_0);
        let min_groups = cfg.count_in("min_groups"@, 3, 2, 1_000_000_000);
        let variation = cfg.positive_number(
            "min_price_variation"@,
            Double { bits: MIN_PRICE_VARIATION_BITS },
        );
        let table = cfg.table("prior"@);
        let prior = Prior::asked(table->Ok_0);
        if let Some(f) = cfg.unknown_slot(crate::text::words(SLOTS@)) {
            Err(f)
        } else if let Err(f) = y {
            Err(f)
        } else if let Err(f) = price {
            Err(f)
        } else if let Err(f) = group {
            Err(f)
        } else if let Err(f) = x {
            Err(f)
        } else if let Err(f) = chosen {
            Err(f)
        } else if let Err(f) = likelihood {
            Err(f)
        } else if let Err(f) = min_groups {
            Err(f)
        } else if let Err(f) = variation {
            Err(f)
        } else if x->Ok_0.contains(price->Ok_0) {
            Err(Fault::config("x"@, "'"@ + price->Ok_0 + PRICE_TWICE@))
        } else if let Err(f) = cfg.laplace_requested() {
            Err(f)
        } else if cfg.laplace_requested()->Ok_0 {
            Err(Fault::config("engine"@, LAPLACE_REFUSAL@))
        } else if let Err(f) = cfg.prior_draws_requested() {
            Err(f)
        } else if cfg.prior_draws_requested()->Ok_0 {
            Err(Fault::config("sample_from"@, PRIOR_DRAW_REFUSAL@))
        } else if let Err(f) = table {
            Err(f)
        } else if let Err(f) = prior {
            Err(f)
        } else {
            Ok(
                Asked {
                    y: y->Ok_0,
                    price: price->Ok_0,
                    group: group->Ok_0,
                    x: x->Ok_0,
                    likelihood: likelihood->Ok_0,
                    min_groups: min_groups->Ok_0,
                    min_price_variation: variation->Ok_0,
                    prior: prior->Ok_0,
                },
            )
        }
    }

    /// The number columns that the request reads.
    pub open spec fn columns(self) -> Seq<Seq<char>> {
        seq![self.y, self.price] + self.x
    }
}

impl Request {
    /// Reads a request from its options.
    pub fn parse(cfg: &Config) -> (r: BayesResult<Request>)
        ensures
            crate::errors::outcome(r) == Asked::of(cfg@),
    {
        let cfg = cfg.root();
        cfg.reject_unknown(&SLOTS)?;
        let y = cfg.require_str("y")?;
        let price = cfg.require_str("price")?;
        let group = cfg.require_str("group")?;
        let x = cfg.str_list("x")?;
        let chosen = cfg.one_of("likelihood", &LIKELIHOODS, "negbinomial")?;
        let likelihood = Likelihood::parse(chosen.as_str())?;
        let min_groups = cfg.usize_in("min_groups", 3, 2, 1_000_000_000)?;
        let min_price_variation = cfg.positive_f64_or(
            "min_price_variation",
            Double { bits: MIN_PRICE_VARIATION_BITS },
        )?;
        if contains_text(&x, price.as_str()) {
            return Err(
                BayesError::config_text(
                    "x",
                    "'".to_owned().concat(price.as_str()).concat(PRICE_TWICE),
                ),
            );
        }
        if cfg.asks_for_laplace()? {
            return Err(BayesError::config("engine", LAPLACE_REFUSAL));
        }
        if cfg.asks_for_prior_draws()? {
            return Err(BayesError::config("sample_from", PRIOR_DRAW_REFUSAL));
        }
        let table = cfg.nested("prior")?;
        let prior = Prior::parse(&table)?;
        Ok(Request { y, price, group, x, likelihood, min_groups, min_price_variation, prior })
    }

    /// The number columns that the request reads.
    fn list_columns(&self) -> (r: Vec<String>)
        ensures
            crate::text::texts(r@) == self@.columns(),
    {
        let mut names: Vec<String> = Vec::new();
        proof {
            assert(crate::text::texts(names@) =~= Seq::<Seq<char>>::empty());
        }
        push_text(&mut names, self.y.as_str());
        push_text(&mut names, self.price.as_str());
        push_texts(&mut names, &self.x);
        proof {
            assert(crate::text::texts(names@) =~= self@.columns());
        }
        names
    }
}

/// What is wrong with a row, if anything.
pub open spec fn row_fault(likelihood: Likelihood, y: Double, price: Double, row: usize) -> Option<
    Fault,
> {
    let number = crate::text::numeral(row as nat);
    if likelihood == Likelihood::NegBinomial && !y.whole_count() {
        Some(Fault::config_showing("y"@, COUNT_NEEDED@ + number + " is "@, y, COUNT_ADVICE@))
    } else if likelihood == Likelihood::Gamma && !y.finite_positive() {
        Some(Fault::config_showing("y"@, POSITIVE_NEEDED@ + number + " is "@, y, POSITIVE_ADVICE@))
    } else if !price.finite() {
        Some(
            Fault::config_showing("price"@, "must be finite; row "@ + number + " is "@, price, ""@),
        )
    } else {
        None
    }
}

/// Row by row, what is wrong with it.
pub open spec fn row_checks(
    likelihood: Likelihood,
    y: NumericColumn,
    price: NumericColumn,
    order: Seq<usize>,
) -> Seq<Option<Fault>> {
    Seq::new(
        order.len(),
        |i: int|
            row_fault(
                likelihood,
                y.values@[order[i] as int],
                price.values@[order[i] as int],
                order[i],
            ),
    )
}

fn check_row(likelihood: Likelihood, y: Double, price: Double, row: usize) -> (r: BayesResult<()>)
    ensures
        match r {
            Ok(_) => row_fault(likelihood, y, price, row) is None,
            Err(e) => row_fault(likelihood, y, price, row) == Some(e@),
        },
{
    match likelihood {
        Likelihood::NegBinomial => {
            if !y.is_whole_count() {
                return Err(
                    BayesError::config_number(
                        "y",
                        COUNT_NEEDED.to_owned().concat(decimal(row).as_str()).concat(" is "),
                        y,
                        COUNT_ADVICE,
                    ),
                );
            }
        },
        Likelihood::Gamma => {
            if !y.is_finite_positive() {
                return Err(
                    BayesError::config_number(
                        "y",
                        POSITIVE_NEEDED.to_owned().concat(decimal(row).as_str()).concat(" is "),
                        y,
                        POSITIVE_ADVICE,
                    ),
                );
            }
        },
    }
    if !price.is_finite() {
        return Err(
            BayesError::config_number(
                "price",
                "must be finite; row ".to_owned().concat(decimal(row).as_str()).concat(" is "),
                price,
                "",
            ),
        );
    }
    Ok(())
}

fn check_rows(
    likelihood: Likelihood,
    y: &NumericColumn,
    price: &NumericColumn,
    order: &Vec<usize>,
) -> (r: BayesResult<()>)
    requires
        crate::data::rows_within(order@, y.values@.len() as int),
        crate::data::rows_within(order@, price.values@.len() as int),
    ensures
        match r {
            Ok(_) => crate::data::first_fault(row_checks(likelihood, *y, *price, order@)) is None,
            Err(e) => crate::data::first_fault(row_checks(likelihood, *y, *price, order@)) == Some(
                e@,
            ),
        },
{
    let ghost checks = row_checks(likelihood, *y, *price, order@);
    let mut k: usize = 0;
    while k < order.len()
        invariant
            k <= order@.len(),
            crate::data::rows_within(order@, y.values@.len() as int),
            crate::data::rows_within(order@, price.values@.len() as int),
            checks == row_checks(likelihood, *y, *price, order@),
            forall|i: int| 0 <= i < k ==> (#[trigger] checks[i]) is None,
        decreases order@.len() - k,
    {
        let row: usize = order[k];
        let checked = check_row(likelihood, y.values[row], price.values[row], row);
        if checked.is_err() {
            proof {
                crate::data::lemma_first_fault(checks, k as int);
            }
            return checked;
        }
        k += 1;
    }
    proof {
        crate::data::lemma_first_fault(checks, k as int);
    }
    Ok(())
}

/// The data of a fit, in group order, with everything about it that does not take
/// arithmetic on prices.
#[derive(Debug)]
pub struct ElasticityPanel {
    pub params: Vec<ParamName>,
    /// Response, one entry per usable row.
    pub y: Vec<Double>,
    /// The log-price column whose coefficient is the elasticity.
    pub price: Vec<Double>,
    /// Control columns.
    pub x: Vec<Vec<Double>>,
    pub group_of: Vec<usize>,
    pub group_keys: Vec<String>,
    pub likelihood: Likelihood,
    pub prior: Prior,
    pub min_groups: usize,
    pub min_price_variation: Double,
}

/// What an [`ElasticityPanel`] holds.
#[verifier::ext_equal]
pub struct Read {
    pub params: Seq<ParamId>,
    pub y: Seq<Double>,
    pub price: Seq<Double>,
    pub x: Seq<Seq<Double>>,
    pub group_of: Seq<usize>,
    pub group_keys: Seq<Seq<char>>,
    pub likelihood: Likelihood,
    pub prior: Prior,
    pub min_groups: usize,
    pub min_price_variation: Double,
}

impl View for ElasticityPanel {
    type V = Read;

    open spec fn view(&self) -> Read {
        Read {
            params: crate::draws::ids(self.params@),
            y: self.y@,
            price: self.price@,
            x: crate::data::lists(self.x@),
            group_of: self.group_of@,
            group_keys: crate::text::texts(self.group_keys@),
            likelihood: self.likelihood,
            prior: self.prior,
            min_groups: self.min_groups,
            min_price_variation: self.min_price_variation,
        }
    }
}

/// The parameters, in the order in which draws report them.
pub open spec fn param_ids(
    x: Seq<Seq<char>>,
    keys: Seq<Seq<char>>,
    likelihood: Likelihood,
) -> Seq<ParamId> {
    seq![ParamId::global("intercept"@)] + crate::draws::coefficients(
        crate::types::global_group(),
        x,
    ) + seq![ParamId::global("elasticity"@)] + seq![ParamId::global("tau"@)] + seq![
        ParamId::global("tau_level"@),
    ] + seq![ParamId::global(likelihood.spec_dispersion_name())] + crate::draws::two_each(
        keys,
        "group_effect"@,
        "group_elasticity"@,
    )
}

/// The coefficients of the population: intercept, controls, population elasticity, two
/// scales and the dispersion.
pub open spec fn population_count(q: int) -> int {
    5 + q
}

impl Read {
    /// The data of a fit of a panel.
    pub open spec fn of(data: DataView, asked: Asked, panel: PanelView) -> Read {
        Read {
            params: param_ids(asked.x, panel.keys(), asked.likelihood),
            y: crate::data::gathered(data.column(asked.y)->0, panel.order()),
            price: crate::data::gathered(data.column(asked.price)->0, panel.order()),
            x: Seq::new(
                asked.x.len(),
                |k: int| crate::data::gathered(data.column(asked.x[k])->0, panel.order()),
            ),
            group_of: panel.group_of(),
            group_keys: panel.keys(),
            likelihood: asked.likelihood,
            prior: asked.prior,
            min_groups: asked.min_groups,
            min_price_variation: asked.min_price_variation,
        }
    }
}

/// What a request makes of a relation: the panel, or the first thing that stands in its
/// way, in the order options, columns, group keys, rows, number of rows.
pub open spec fn built(cfg: Scope, data: DataView) -> Result<Read, Fault> {
    match Asked::of(cfg) {
        Err(f) => Err(f),
        Ok(asked) => match crate::panel::panel_of(data, asked.columns(), Some(asked.group), true) {
            Err(f) => Err(f),
            Ok(panel) => {
                let checks = row_checks(
                    asked.likelihood,
                    data.column(asked.y)->0,
                    data.column(asked.price)->0,
                    panel.order(),
                );
                let n = panel.order().len();
                if let Some(f) = crate::data::first_fault(checks) {
                    Err(f)
                } else if n <= population_count(asked.x.len() as int) {
                    Err(
                        Fault::InsufficientData {
                            rows: n as usize,
                            params: population_count(asked.x.len() as int) as usize,
                        },
                    )
                } else {
                    Ok(Read::of(data, asked, panel))
                }
            },
        },
    }
}

/// What a request reads of a relation, or the first thing wrong with its options and
/// columns.
pub open spec fn reads(cfg: Scope, data: DataView) -> Result<Entries, Fault> {
    match Asked::of(cfg) {
        Err(f) => Err(f),
        Ok(asked) => crate::reading::reading_of(
            data,
            asked.columns(),
            crate::panel::group_columns(Some(asked.group)),
        ),
    }
}

/// A fit has one response per row that was read.
pub proof fn a_fit_holds_every_row_read(cfg: Scope, data: DataView)
    ensures
        built(cfg, data) matches Ok(model) ==> (reads(cfg, data) matches Ok(r) && model.y.len()
            == r.rows.len()),
{
    if let Ok(asked) = Asked::of(cfg) {
        crate::panel::a_panel_holds_each_row_read_once(
            data,
            asked.columns(),
            Some(asked.group),
            true,
        );
    }
}

/// Two relations that were read alike give the same fit, wherever one of them gives any:
/// nothing else of a relation reaches it.
pub proof fn what_is_read_decides_the_fit(cfg: Scope, a: DataView, b: DataView)
    requires
        built(cfg, a) is Ok,
        reads(cfg, b) is Ok,
        reads(cfg, a)->Ok_0.same_entries(reads(cfg, b)->Ok_0),
    ensures
        built(cfg, a) == built(cfg, b),
{
    let asked = Asked::of(cfg)->Ok_0;
    let columns = asked.columns();
    crate::reading::what_is_read_decides_the_panel(a, b, columns, Some(asked.group), true);
    let mine = crate::panel::panel_of(a, columns, Some(asked.group), true)->Ok_0;
    let theirs = crate::panel::panel_of(b, columns, Some(asked.group), true)->Ok_0;
    let values_a = crate::data::gathered(a.column(asked.y)->0, mine.order());
    let values_b = crate::data::gathered(b.column(asked.y)->0, theirs.order());
    let prices_a = crate::data::gathered(a.column(asked.price)->0, mine.order());
    let prices_b = crate::data::gathered(b.column(asked.price)->0, theirs.order());
    let checks_a = row_checks(
        asked.likelihood,
        a.column(asked.y)->0,
        a.column(asked.price)->0,
        mine.order(),
    );
    let checks_b = row_checks(
        asked.likelihood,
        b.column(asked.y)->0,
        b.column(asked.price)->0,
        theirs.order(),
    );
    assert(columns[0] == asked.y && columns[1] == asked.price);
    assert forall|i: int| 0 <= i < checks_a.len() && checks_a[i] is None implies (
    #[trigger] checks_b[i]) is None by {
        assert(values_a[i] == values_b[i]);
        assert(prices_a[i] == prices_b[i]);
    }
    crate::data::lemma_no_fault_follows(checks_a, checks_b);
    let m = built(cfg, a)->Ok_0;
    let n = built(cfg, b)->Ok_0;
    assert forall|k: int| 0 <= k < asked.x.len() implies #[trigger] m.x[k] == n.x[k] by {
        assert(columns[2 + k] == asked.x[k]);
    }
    assert(m.x =~= n.x);
    assert(m =~= n);
}

/// The names of the number columns that a request names.
pub open spec fn columns_named(entries: Seq<Entry>) -> Seq<Seq<char>> {
    seq![
        crate::config::text_of(entries, "y"@)->0,
        crate::config::text_of(entries, "price"@)->0,
    ] + crate::config::texts_of(entries, "x"@)
}

/// Whether the table of a prior may be written as it is.
pub open spec fn prior_is_sound(entries: Seq<Entry>) -> bool {
    &&& crate::config::only(entries, seq![
        "intercept"@,
        "beta"@,
        "elasticity"@,
        "tau"@,
        "tau_level"@,
        "dispersion"@,
    ])
    &&& crate::config::takes_table(entries, "intercept"@)
    &&& crate::config::only(crate::config::table_of(entries, "intercept"@), seq!["mean"@, "sd"@])
    &&& crate::config::takes_number(crate::config::table_of(entries, "intercept"@), "mean"@)
    &&& crate::config::takes_positive(crate::config::table_of(entries, "intercept"@), "sd"@)
    &&& crate::config::takes_table(entries, "beta"@)
    &&& crate::config::only(crate::config::table_of(entries, "beta"@), seq!["scale"@])
    &&& crate::config::takes_positive(crate::config::table_of(entries, "beta"@), "scale"@)
    &&& crate::config::takes_table(entries, "elasticity"@)
    &&& crate::config::only(crate::config::table_of(entries, "elasticity"@), seq!["log_mean"@, "log_sd"@])
    &&& crate::config::takes_number(crate::config::table_of(entries, "elasticity"@), "log_mean"@)
    &&& crate::config::takes_positive(crate::config::table_of(entries, "elasticity"@), "log_sd"@)
    &&& crate::config::takes_table(entries, "tau"@)
    &&& crate::config::only(crate::config::table_of(entries, "tau"@), seq!["scale"@])
    &&& crate::config::takes_positive(crate::config::table_of(entries, "tau"@), "scale"@)
    &&& crate::config::takes_table(entries, "tau_level"@)
    &&& crate::config::only(crate::config::table_of(entries, "tau_level"@), seq!["scale"@])
    &&& crate::config::takes_positive(crate::config::table_of(entries, "tau_level"@), "scale"@)
    &&& crate::config::takes_table(entries, "dispersion"@)
    &&& crate::config::only(crate::config::table_of(entries, "dispersion"@), seq!["log_mean"@, "log_sd"@])
    &&& crate::config::takes_number(crate::config::table_of(entries, "dispersion"@), "log_mean"@)
    &&& crate::config::takes_positive(crate::config::table_of(entries, "dispersion"@), "log_sd"@)
}

/// Whether a prior is the one that its table asks for: each number from the slot of its own
/// name, and its default where nothing is written.
pub open spec fn prior_is_as_written(entries: Seq<Entry>, prior: Prior) -> bool {
    &&& prior.intercept_mean == crate::config::number_or(
        crate::config::table_of(entries, "intercept"@),
        "mean"@,
        Double { bits: 0 },
    )
    &&& prior.intercept_sd == crate::config::number_or(
        crate::config::table_of(entries, "intercept"@),
        "sd"@,
        Double { bits: 0x7FF0_0000_0000_0000 },
    )
    &&& prior.beta_scale == crate::config::number_or(
        crate::config::table_of(entries, "beta"@),
        "scale"@,
        Double { bits: 0x7FF0_0000_0000_0000 },
    )
    &&& prior.elasticity_log.0 == crate::config::number_or(
        crate::config::table_of(entries, "elasticity"@),
        "log_mean"@,
        Double { bits: 0 },
    )
    &&& prior.elasticity_log.1 == crate::config::number_or(
        crate::config::table_of(entries, "elasticity"@),
        "log_sd"@,
        Double { bits: 0x3FF0_0000_0000_0000 },
    )
    &&& prior.tau_scale == crate::config::number_or(
        crate::config::table_of(entries, "tau"@),
        "scale"@,
        Double { bits: 0x3FE0_0000_0000_0000 },
    )
    &&& prior.tau_level_scale == crate::config::number_or(
        crate::config::table_of(entries, "tau_level"@),
        "scale"@,
        Double { bits: 0x4000_0000_0000_0000 },
    )
    &&& prior.dispersion_log.0 == crate::config::number_or(
        crate::config::table_of(entries, "dispersion"@),
        "log_mean"@,
        Double { bits: 0 },
    )
    &&& prior.dispersion_log.1 == crate::config::number_or(
        crate::config::table_of(entries, "dispersion"@),
        "log_sd"@,
        Double { bits: 0x7FF0_0000_0000_0000 },
    )
}

proof fn lemma_prior_asked(cfg: Scope)
    ensures
        Prior::asked(cfg) is Ok <==> prior_is_sound(cfg.entries),
        Prior::asked(cfg) matches Ok(prior) ==> prior_is_as_written(cfg.entries, prior),
{
    assert(crate::text::words(PRIOR_SLOTS@) =~= seq![
        "intercept"@,
        "beta"@,
        "elasticity"@,
        "tau"@,
        "tau_level"@,
        "dispersion"@,
    ]);
    crate::config::an_unknown_slot_is_named_by_its_path(cfg, crate::text::words(PRIOR_SLOTS@));
    crate::config::a_table_gives_the_numbers_written(
        cfg,
        "intercept"@,
        "mean"@,
        Double { bits: 0 },
        "sd"@,
        Double { bits: 0x7FF0_0000_0000_0000 },
    );
    crate::config::a_table_gives_the_numbers_written(
        cfg,
        "beta"@,
        "mean"@,
        Double { bits: 0 },
        "sd"@,
        Double { bits: 0x7FF0_0000_0000_0000 },
    );
    crate::config::a_table_gives_the_numbers_written(
        cfg,
        "elasticity"@,
        "log_mean"@,
        Double { bits: 0 },
        "log_sd"@,
        Double { bits: 0x3FF0_0000_0000_0000 },
    );
    crate::config::a_table_gives_the_numbers_written(
        cfg,
        "tau"@,
        "mean"@,
        Double { bits: 0 },
        "sd"@,
        Double { bits: 0x3FE0_0000_0000_0000 },
    );
    crate::config::a_table_gives_the_numbers_written(
        cfg,
        "tau_level"@,
        "mean"@,
        Double { bits: 0 },
        "sd"@,
        Double { bits: 0x4000_0000_0000_0000 },
    );
    crate::config::a_table_gives_the_numbers_written(
        cfg,
        "dispersion"@,
        "log_mean"@,
        Double { bits: 0 },
        "log_sd"@,
        Double { bits: 0x7FF0_0000_0000_0000 },
    );
}

/// Whether the options of a request may be written as they are.
pub open spec fn request_is_sound(entries: Seq<Entry>) -> bool {
    &&& crate::config::only(entries, seq![
        "y"@,
        "price"@,
        "group"@,
        "x"@,
        "likelihood"@,
        "min_groups"@,
        "min_price_variation"@,
        "prior"@,
        "draws"@,
        "chains"@,
        "warmup"@,
        "max_draw_megabytes"@,
        "seed"@,
        "engine"@,
        "sample_from"@,
    ])
    &&& crate::config::text_of(entries, "y"@) is Some
    &&& crate::config::text_of(entries, "price"@) is Some
    &&& crate::config::text_of(entries, "group"@) is Some
    &&& crate::config::takes_texts(entries, "x"@)
    &&& !crate::config::texts_of(entries, "x"@).contains(crate::config::text_of(entries, "price"@)->0)
    &&& crate::config::takes_text(entries, "likelihood"@)
    &&& crate::config::text_of(entries, "likelihood"@) matches Some(s) ==> s == "negbinomial"@ || s == "gamma"@
    &&& crate::config::takes_count(entries, "min_groups"@, 2, 1_000_000_000)
    &&& crate::config::takes_positive(entries, "min_price_variation"@)
    &&& crate::config::takes_text(entries, "engine"@)
    &&& crate::config::text_of(entries, "engine"@) matches Some(s) ==> crate::text::small(s) != "laplace"@
    &&& crate::config::takes_text(entries, "sample_from"@)
    &&& crate::config::text_of(entries, "sample_from"@) != Some("prior"@)
    &&& crate::config::takes_table(entries, "prior"@)
    &&& prior_is_sound(crate::config::table_of(entries, "prior"@))
}

/// A request is what its options say, each taken from the slot of its own name, and it is
/// served exactly when its options may be written as they are.
pub proof fn a_request_is_what_its_options_say(cfg: Scope)
    ensures
        Asked::of(cfg) is Ok <==> request_is_sound(cfg.entries),
        Asked::of(cfg) matches Ok(asked) ==> {
            let e = cfg.entries;
            &&& Some(asked.y) == crate::config::text_of(e, "y"@)
            &&& Some(asked.price) == crate::config::text_of(e, "price"@)
            &&& Some(asked.group) == crate::config::text_of(e, "group"@)
            &&& asked.x == crate::config::texts_of(e, "x"@)
            &&& match crate::config::text_of(e, "likelihood"@) {
                None => asked.likelihood == Likelihood::NegBinomial,
                Some(s) => (s == "negbinomial"@ && asked.likelihood == Likelihood::NegBinomial)
                    || (s == "gamma"@ && asked.likelihood == Likelihood::Gamma),
            }
            &&& crate::config::counts_or(e, "min_groups"@, 3, asked.min_groups as nat)
            &&& asked.min_price_variation == crate::config::number_or(
                e,
                "min_price_variation"@,
                Double { bits: 0x3F84_7AE1_47AE_147B },
            )
            &&& prior_is_as_written(crate::config::table_of(e, "prior"@), asked.prior)
        },
{
    reveal_strlit("negbinomial");
    reveal_strlit("gamma");
    let known = crate::text::words(SLOTS@);
    assert(known =~= seq![
        "y"@,
        "price"@,
        "group"@,
        "x"@,
        "likelihood"@,
        "min_groups"@,
        "min_price_variation"@,
        "prior"@,
        "draws"@,
        "chains"@,
        "warmup"@,
        "max_draw_megabytes"@,
        "seed"@,
        "engine"@,
        "sample_from"@,
    ]);
    crate::config::an_unknown_slot_is_named_by_its_path(cfg, known);
    crate::config::a_text_slot_gives_the_text_written(cfg, "y"@);
    crate::config::a_text_slot_gives_the_text_written(cfg, "price"@);
    crate::config::a_text_slot_gives_the_text_written(cfg, "group"@);
    crate::config::a_text_slot_gives_the_text_written(cfg, "x"@);
    let admitted = crate::text::words(LIKELIHOODS@);
    assert(admitted =~= seq!["negbinomial"@, "gamma"@]);
    assert(admitted[0] == "negbinomial"@ && admitted[1] == "gamma"@);
    crate::config::a_choice_is_the_word_written(cfg, "likelihood"@, admitted, "negbinomial"@);
    crate::config::a_count_slot_gives_the_count_written(cfg, "min_groups"@, 3, 2, 1_000_000_000);
    crate::config::a_number_slot_gives_the_number_written(
        cfg,
        "min_price_variation"@,
        Double { bits: 0x3F84_7AE1_47AE_147B },
    );
    crate::config::an_engine_and_a_source_are_asked_for_by_name(cfg);
    crate::config::a_text_slot_gives_the_text_written(cfg, "prior"@);
    if let Ok(table) = cfg.table("prior"@) {
        lemma_prior_asked(table);
    }
}

/// Whether a model holds the values of those rows, in that order: of each row its own
/// values, and the number of the group that its label names.
pub open spec fn holds_the_rows(
    entries: Seq<Entry>,
    data: DataView,
    model: ElasticityPanel,
    rows: Seq<usize>,
) -> bool {
    let x = crate::config::texts_of(entries, "x"@);
    let group = crate::config::text_of(entries, "group"@)->0;
    let labels = Seq::new(model.group_keys@.len(), |g: int| model.group_keys@[g]@);
    &&& crate::panel::each_present_row_once(data, columns_named(entries), seq![group], rows)
    &&& crate::panel::grouped_by_label(data.key_column(group)->0, rows, model.group_of@, labels)
    &&& model.y@.len() == rows.len()
    &&& forall|i: int|
        0 <= i < rows.len() ==> (#[trigger] model.y@[i])
            == data.column(crate::config::text_of(entries, "y"@)->0)->0.values@[rows[i] as int]
    &&& model.price@.len() == rows.len()
    &&& forall|i: int|
        0 <= i < rows.len() ==> (#[trigger] model.price@[i])
            == data.column(crate::config::text_of(entries, "price"@)->0)->0.values@[rows[i] as int]
    &&& model.x@.len() == x.len()
    &&& forall|k: int| 0 <= k < x.len() ==> (#[trigger] model.x@[k])@.len() == rows.len()
    &&& forall|k: int, i: int|
        0 <= k < x.len() && 0 <= i < rows.len() ==> (#[trigger] model.x@[k]@[i]) == data.column(
            x[k],
        )->0.values@[rows[i] as int]
}

/// Each complete row of the relation is in the model once, with its own values, in the group
/// of its own label.
pub proof fn a_row_keeps_its_own_values(cfg: Config, data: DataView, model: ElasticityPanel)
    requires
        built(cfg@, data) == Ok::<Read, Fault>(model@),
    ensures
        exists|rows: Seq<usize>| holds_the_rows(cfg.entries@, data, model, rows),
{
    let e = cfg.entries@;
    a_request_is_what_its_options_say(cfg@);
    let asked = Asked::of(cfg@)->Ok_0;
    let columns = asked.columns();
    assert(columns =~= columns_named(e));
    let p = crate::panel::panel_of(data, columns, Some(asked.group), true)->Ok_0;
    crate::panel::a_panel_puts_each_row_into_its_own_group(data, columns, asked.group, true);
    let rows = p.order();
    let labels = Seq::new(model.group_keys@.len(), |g: int| model.group_keys@[g]@);
    assert(labels =~= model@.group_keys);
    assert(model@ == Read::of(data, asked, p));
    let x = crate::config::texts_of(e, "x"@);
    assert(model.x@.len() == model@.x.len());
    assert forall|k: int| 0 <= k < x.len() implies (#[trigger] model.x@[k])@
        == crate::data::gathered(data.column(x[k])->0, rows) by {
        assert(model.x@[k]@ == model@.x[k]);
    }
    assert(holds_the_rows(e, data, model, rows));
}

/// Whether a row may be fitted.
pub open spec fn row_is_sound(entries: Seq<Entry>, data: DataView, row: int) -> bool {
    let y = data.column(crate::config::text_of(entries, "y"@)->0)->0.values@[row];
    let price = data.column(crate::config::text_of(entries, "price"@)->0)->0.values@[row];
    &&& price.finite()
    &&& y.finite()
    &&& if crate::config::text_of(entries, "likelihood"@) == Some("gamma"@) {
        y.scaled() > 0
    } else {
        exists|n: nat| y.scaled() == #[trigger] (n * crate::double::one_scaled())
    }
}

/// A model is built exactly when the options are sound, the columns are there, no label is
/// the reserved one, every complete row is sound, and there are more of them than the
/// population has parameters.
pub proof fn a_model_is_built_exactly_when_it_can_be(cfg: Config, data: DataView, rows: Seq<usize>)
    requires
        crate::panel::each_present_row_once(
            data,
            columns_named(cfg.entries@),
            seq![crate::config::text_of(cfg.entries@, "group"@)->0],
            rows,
        ),
    ensures
        built(cfg@, data) is Ok <==> {
            let e = cfg.entries@;
            let group = crate::config::text_of(e, "group"@)->0;
            let names = columns_named(e);
            &&& request_is_sound(e)
            &&& forall|c: int| 0 <= c < names.len() ==> data.column(#[trigger] names[c]) is Some
            &&& data.key_column(group) is Some
            &&& forall|i: int|
                0 <= i < rows.len() ==> data.key_column(group)->0.values@[(
                #[trigger] rows[i]) as int]@ != "__global__"@ && row_is_sound(
                    e,
                    data,
                    rows[i] as int,
                )
            &&& rows.len() > 5 + crate::config::texts_of(e, "x"@).len()
        },
{
    let e = cfg.entries@;
    a_request_is_what_its_options_say(cfg@);
    reveal_strlit("negbinomial");
    reveal_strlit("gamma");
    if request_is_sound(e) {
        let asked = Asked::of(cfg@)->Ok_0;
        let columns = asked.columns();
        assert(columns =~= columns_named(e));
        crate::panel::a_panel_is_read_exactly_when_it_can_be(data, columns, asked.group, rows);
        if let Ok(p) = crate::panel::panel_of(data, columns, Some(asked.group), true) {
            let order = p.order();
            crate::panel::a_panel_puts_each_row_into_its_own_group(
                data,
                columns,
                asked.group,
                true,
            );
            crate::panel::lemma_same_rows_read(data, columns, seq![asked.group], rows, order);
            let checks = row_checks(
                asked.likelihood,
                data.column(asked.y)->0,
                data.column(asked.price)->0,
                order,
            );
            assert(columns[0] == asked.y && columns[1] == asked.price);
            assert forall|i: int| 0 <= i < order.len() implies ((#[trigger] checks[i]) is None
                <==> row_is_sound(e, data, order[i] as int)) by {
                crate::double::a_count_is_its_value(
                    data.column(asked.y)->0.values@[order[i] as int],
                );
            }
            if crate::data::first_fault(checks) is None {
                crate::data::lemma_no_fault(checks);
                assert forall|i: int| 0 <= i < rows.len() implies row_is_sound(
                    e,
                    data,
                    (#[trigger] rows[i]) as int,
                ) by {
                    assert(rows.contains(rows[i]));
                    let j = choose|j: int| 0 <= j < order.len() && order[j] == rows[i];
                    assert(checks[j] is None);
                }
            } else if forall|i: int|
                0 <= i < rows.len() ==> row_is_sound(e, data, (#[trigger] rows[i]) as int) {
                assert forall|i: int| 0 <= i < checks.len() implies (#[trigger] checks[i]) is None
                    by {
                    assert(order.contains(order[i]));
                    let j = choose|j: int| 0 <= j < rows.len() && rows[j] == order[i];
                    assert(row_is_sound(e, data, rows[j] as int));
                }
                crate::data::lemma_first_fault(checks, checks.len() as int);
            }
        }
    }
}

/// Whether parameters are named and computed as they should be.
pub open spec fn named_and_computed(
    x: Seq<Seq<char>>,
    keys: Seq<Seq<char>>,
    likelihood: Likelihood,
    ids: Seq<ParamId>,
    f: Seq<Formula>,
) -> bool {
    let p = x.len() as int;
    let first = 5 + p;
    let global = "__global__"@;
    &&& ids.len() == first + 2 * keys.len()
    &&& f.len() == ids.len()
    &&& ids[0] == (ParamId { group: global, name: "intercept"@ })
    &&& f[0] == (Formula::Coordinate { at: 0 })
    &&& forall|k: int|
        #![trigger x[k]]
        0 <= k < p ==> ids[1 + k] == (ParamId { group: global, name: "beta["@ + x[k] + "]"@ })
            && f[1 + k] == (Formula::Coordinate { at: (1 + k) as usize })
    &&& ids[1 + p] == (ParamId { group: global, name: "elasticity"@ })
    &&& f[1 + p] == (Formula::MinusExp { at: (1 + p) as usize })
    &&& ids[2 + p] == (ParamId { group: global, name: "tau"@ })
    &&& f[2 + p] == (Formula::Exp { at: (2 + p) as usize })
    &&& ids[3 + p] == (ParamId { group: global, name: "tau_level"@ })
    &&& f[3 + p] == (Formula::Exp { at: (3 + p) as usize })
    &&& ids[4 + p] == (ParamId {
        group: global,
        name: match likelihood {
            Likelihood::NegBinomial => "phi"@,
            Likelihood::Gamma => "shape"@,
        },
    })
    &&& f[4 + p] == (Formula::Exp { at: (4 + p) as usize })
    &&& forall|g: int|
        #![trigger keys[g]]
        0 <= g < keys.len() ==> {
            let at = first + 2 * g;
            &&& ids[at] == (ParamId { group: keys[g], name: "group_effect"@ })
            &&& f[at] == (Formula::Scaled { log_scale: (3 + p) as usize, at: (first + keys.len() + g) as usize })
            &&& ids[at + 1] == (ParamId { group: keys[g], name: "group_elasticity"@ })
            &&& f[at + 1] == (Formula::MinusExpSum { base: (1 + p) as usize, log_scale: (2 + p) as usize, at: (first + g) as usize })
        }
}

proof fn lemma_named_and_computed(x: Seq<Seq<char>>, keys: Seq<Seq<char>>, likelihood: Likelihood)
    requires
        x.len() + 2 * keys.len() + 5 <= usize::MAX,
    ensures
        named_and_computed(
            x,
            keys,
            likelihood,
            param_ids(x, keys, likelihood),
            formulas(x.len() as int, keys.len() as int),
        ),
{
    let p = x.len() as int;
    let n_groups = keys.len() as int;
    let first = 5 + p;
    let ids = param_ids(x, keys, likelihood);
    let f = formulas(p, n_groups);
    let pairs = group_formulas(p, n_groups);
    let two = crate::draws::two_each(keys, "group_effect"@, "group_elasticity"@);
    assert forall|k: int| #![trigger x[k]] 0 <= k < p implies ids[1 + k] == (ParamId {
        group: "__global__"@,
        name: "beta["@ + x[k] + "]"@,
    }) && f[1 + k] == (Formula::Coordinate { at: (1 + k) as usize }) by {
        assert(ids[1 + k] == crate::draws::coefficients(crate::types::global_group(), x)[k]);
        assert(f[1 + k] == crate::formula::coordinates(1, p as nat)[k]);
    }
    assert forall|g: int| #![trigger keys[g]] 0 <= g < keys.len() implies {
        let at = first + 2 * g;
        &&& ids[at] == (ParamId { group: keys[g], name: "group_effect"@ })
        &&& f[at] == (Formula::Scaled { log_scale: (3 + p) as usize, at: (first + keys.len() + g) as usize })
        &&& ids[at + 1] == (ParamId { group: keys[g], name: "group_elasticity"@ })
        &&& f[at + 1] == (Formula::MinusExpSum { base: (1 + p) as usize, log_scale: (2 + p) as usize, at: (first + g) as usize })
    } by {
        let at = first + 2 * g;
        assert((2 * g) / 2 == g && (2 * g) % 2 == 0);
        assert((2 * g + 1) / 2 == g && (2 * g + 1) % 2 == 1);
        assert(f[at] == pairs[2 * g] && f[at + 1] == pairs[2 * g + 1]);
        assert(ids[at] == two[2 * g] && ids[at + 1] == two[2 * g + 1]);
    }
}

/// Every parameter of a model is reported under its own name and group, and computed from
/// its own coordinates.
pub proof fn a_parameter_is_computed_as_its_name_says(
    cfg: Config,
    data: DataView,
    model: ElasticityPanel,
)
    requires
        built(cfg@, data) == Ok::<Read, Fault>(model@),
        model.wf(),
    ensures
        named_and_computed(
            crate::config::texts_of(cfg.entries@, "x"@),
            Seq::new(model.group_keys@.len(), |g: int| model.group_keys@[g]@),
            model.likelihood,
            Seq::new(
                model.params@.len(),
                |i: int|
                    ParamId { group: model.params@[i].group_id@, name: model.params@[i].name@ },
            ),
            formulas(model.x@.len() as int, model.group_keys@.len() as int),
        ),
{
    a_request_is_what_its_options_say(cfg@);
    let asked = Asked::of(cfg@)->Ok_0;
    let panel = crate::panel::panel_of(data, asked.columns(), Some(asked.group), true)->Ok_0;
    assert(model@ == Read::of(data, asked, panel));
    let keys = Seq::new(model.group_keys@.len(), |g: int| model.group_keys@[g]@);
    let ids = Seq::new(
        model.params@.len(),
        |i: int| ParamId { group: model.params@[i].group_id@, name: model.params@[i].name@ },
    );
    assert(model@.x.len() == model.x@.len());
    assert(keys =~= model@.group_keys);
    assert(ids =~= model@.params);
    lemma_named_and_computed(asked.x, keys, model.likelihood);
}

/// A panel has the likelihood, the thresholds and the prior that its options say.
pub proof fn a_panel_carries_its_options(cfg: Config, data: DataView, model: ElasticityPanel)
    requires
        built(cfg@, data) == Ok::<Read, Fault>(model@),
    ensures
        ({
            let e = cfg.entries@;
            &&& match crate::config::text_of(e, "likelihood"@) {
                None => model.likelihood == Likelihood::NegBinomial,
                Some(s) => (s == "negbinomial"@ && model.likelihood == Likelihood::NegBinomial)
                    || (s == "gamma"@ && model.likelihood == Likelihood::Gamma),
            }
            &&& crate::config::counts_or(e, "min_groups"@, 3, model.min_groups as nat)
            &&& model.min_price_variation == crate::config::number_or(
                e,
                "min_price_variation"@,
                Double { bits: 0x3F84_7AE1_47AE_147B },
            )
            &&& prior_is_as_written(crate::config::table_of(e, "prior"@), model.prior)
        }),
{
    a_request_is_what_its_options_say(cfg@);
    let asked = Asked::of(cfg@)->Ok_0;
    let p = crate::panel::panel_of(data, asked.columns(), Some(asked.group), true)->Ok_0;
    assert(model@ == Read::of(data, asked, p));
}

/// Whether texts are those of the segments whose spread is below the least one, each once
/// and in the order of the segments.
pub open spec fn names_the_still(
    texts: Seq<Seq<char>>,
    keys: Seq<Seq<char>>,
    spans: Seq<Double>,
    least: Double,
    at: Seq<int>,
) -> bool {
    &&& at.len() == texts.len()
    &&& forall|k: int|
        0 <= k < at.len() ==> 0 <= (#[trigger] at[k]) < spans.len() && spans[at[k]].lt(least)
            && texts[k] == keys[at[k]]
    &&& forall|k: int, l: int| 0 <= k < l < at.len() ==> (#[trigger] at[k]) < (#[trigger] at[l])
    &&& forall|j: int| 0 <= j < spans.len() && (#[trigger] spans[j]).lt(least) ==> at.contains(j)
}

/// Whether the segments that a model lists as unready are those whose spread is below the
/// least one that it asks for.
pub open spec fn lists_its_still_segments(
    model: CompiledHierElasticity,
    spans: Seq<Double>,
    at: Seq<int>,
) -> bool {
    names_the_still(
        Seq::new(model.unready@.len(), |k: int| model.unready@[k]@),
        Seq::new(model.panel.group_keys@.len(), |g: int| model.panel.group_keys@[g]@),
        spans,
        model.panel.min_price_variation,
        at,
    )
}

proof fn lemma_names_the_still(
    keys: Seq<Seq<char>>,
    spans: Seq<Double>,
    least: Double,
    n: nat,
) -> (at: Seq<int>)
    requires
        n <= spans.len(),
    ensures
        names_the_still(still_keys(keys, spans, least, n), keys, spans.take(n as int), least, at),
    decreases n,
{
    if n == 0 {
        Seq::empty()
    } else {
        let before = lemma_names_the_still(keys, spans, least, (n - 1) as nat);
        let now = spans.take(n as int);
        let earlier = spans.take(n - 1);
        assert forall|k: int| 0 <= k < before.len() implies 0 <= (#[trigger] before[k]) < n - 1
            && now[before[k]].lt(least) by {
            assert(now[before[k]] == earlier[before[k]]);
        }
        let at = if spans[n - 1].lt(least) {
            before.push(n - 1)
        } else {
            before
        };
        assert forall|j: int| 0 <= j < now.len() && (#[trigger] now[j]).lt(
            least,
        ) implies at.contains(j) by {
            if j < n - 1 {
                assert(earlier[j].lt(least));
                let k = choose|k: int| 0 <= k < before.len() && before[k] == j;
                assert(at[k] == j);
            } else {
                assert(at[at.len() - 1] == j);
            }
        }
        at
    }
}

/// The verdict on a panel goes by its segments and by how far their prices moved: too few
/// segments, no price that moved, no volume, and only then the segments whose own price
/// stood still, which are named, each once and no other.
pub proof fn a_verdict_goes_by_segments_and_prices(
    model: CompiledHierElasticity,
    spans: Seq<Double>,
)
    requires
        spans.len() == model.panel.group_keys@.len(),
        crate::text::texts(model.unready@) == still_keys(
            model.panel@.group_keys,
            spans,
            model.panel.min_price_variation,
            spans.len(),
        ),
        crate::catalog::common::verdict_of(model.structural) == structural_verdict(
            model.panel@,
            spans,
        ),
    ensures
        ({
            let least = model.panel.min_price_variation;
            let n_groups = model.panel.group_keys@.len();
            let few = n_groups < model.panel.min_groups;
            let stuck = forall|j: int| 0 <= j < spans.len() ==> (#[trigger] spans[j]).lt(least);
            let idle = model.panel.likelihood == Likelihood::NegBinomial && forall|i: int|
                0 <= i < model.panel.y@.len() ==> (#[trigger] model.panel.y@[i]).same_value(
                    Double { bits: 0 },
                );
            let some = exists|j: int| 0 <= j < spans.len() && (#[trigger] spans[j]).lt(least);
            &&& model.structural is None <==> !few && !stuck && !idle && !some
            &&& model.structural matches Some(r) ==> r.status == if few {
                FitStatus::InsufficientData
            } else if stuck || idle {
                FitStatus::Degenerate
            } else {
                FitStatus::InsufficientData
            }
            &&& exists|at: Seq<int>| lists_its_still_segments(model, spans, at)
        }),
{
    let least = model.panel.min_price_variation;
    let keys = model.panel@.group_keys;
    assert(keys.len() == model.panel.group_keys@.len());
    lemma_still_keys(keys, spans, least, spans.len());
    let at = lemma_names_the_still(keys, spans, least, spans.len());
    assert(spans.take(spans.len() as int) =~= spans);
    let raw = Seq::new(model.unready@.len(), |k: int| model.unready@[k]@);
    let raw_keys = Seq::new(
        model.panel.group_keys@.len(),
        |g: int| model.panel.group_keys@[g]@,
    );
    assert(raw =~= crate::text::texts(model.unready@));
    assert(raw_keys =~= keys);
    assert(lists_its_still_segments(model, spans, at));
}

/// Reads a request and the relation it names.
pub fn build(cfg: &Config, data: &DataView) -> (r: BayesResult<ElasticityPanel>)
    requires
        data.wf(),
        cfg@.list_fits("x"@),
    ensures
        crate::errors::outcome(r) == built(cfg@, *data),
        r matches Ok(panel) ==> panel.wf(),
{
    let request = Request::parse(cfg)?;
    let names = request.list_columns();
    let ghost all = crate::text::texts(names@);
    let group = Some(request.group.clone());
    let panel = read_panel(data, &names, &group, true)?;
    proof {
        assert(names@[0]@ == all[0]);
        assert(names@[1]@ == all[1]);
        assert forall|k: int| 0 <= k < request.x@.len() implies data.column(
            (#[trigger] request.x@[k])@,
        ) is Some by {
            assert(names@[2 + k]@ == all[2 + k]);
        }
    }
    let y_column = data.numeric(request.y.as_str())?;
    let price_column = data.numeric(request.price.as_str())?;
    let x_columns = data.numerics(&request.x)?;
    check_rows(request.likelihood, y_column, price_column, &panel.order)?;
    let y = gather(y_column, &panel.order);
    let price = gather(price_column, &panel.order);
    let x = gather_all(&x_columns, &panel.order, data.n_rows);
    let n = y.len();
    let n_fixed: usize = 5 + request.x.len();
    if n <= n_fixed {
        return Err(BayesError::InsufficientData { rows: n, params: n_fixed });
    }
    let mut params: Vec<ParamName> = Vec::new();
    proof {
        assert(crate::draws::ids(params@) =~= Seq::<ParamId>::empty());
    }
    push_global(&mut params, "intercept");
    push_coefficients(&mut params, global_group_key(), &request.x);
    push_global(&mut params, "elasticity");
    push_global(&mut params, "tau");
    push_global(&mut params, "tau_level");
    push_global(&mut params, request.likelihood.dispersion_name());
    push_two_each(&mut params, &panel.keys, "group_effect", "group_elasticity");
    let r = ElasticityPanel {
        params,
        y,
        price,
        x,
        group_of: panel.group_of,
        group_keys: panel.keys,
        likelihood: request.likelihood,
        prior: request.prior,
        min_groups: request.min_groups,
        min_price_variation: request.min_price_variation,
    };
    proof {
        let checks = row_checks(request.likelihood, *y_column, *price_column, panel.order@);
        crate::data::lemma_no_fault(checks);
        assert forall|i: int| 0 <= i < r.price@.len() implies (
        #[trigger] r.price@[i]).finite() by {
            assert(checks[i] is None);
        }
        assert(r@ =~= Read::of(*data, request@, panel@));
        assert(r.x@.len() == crate::data::lists(r.x@).len());
        assert(r.group_keys@.len() == crate::text::texts(r.group_keys@).len());
    }
    Ok(r)
}

impl ElasticityPanel {
    /// One finite price and one group per response, every group one of the named ones,
    /// and few enough of everything for the coordinates to be numbered.
    pub open spec fn wf(self) -> bool {
        &&& self.price@.len() == self.y@.len()
        &&& self.group_of@.len() == self.y@.len()
        &&& self.group_keys@.len() <= usize::MAX / 4 + 1
        &&& self.x@.len() <= usize::MAX / 4
        &&& forall|i: int|
            0 <= i < self.group_of@.len() ==> (#[trigger] self.group_of@[i])
                < self.group_keys@.len()
        &&& forall|i: int| 0 <= i < self.price@.len() ==> (#[trigger] self.price@[i]).finite()
    }

    /// Per segment, its lowest and its highest price.
    pub fn price_ranges(&self) -> (r: Vec<(Double, Double)>)
        requires
            self.wf(),
        ensures
            r@.len() == self.group_keys@.len(),
            forall|j: int| 0 <= j < r@.len() ==> self@.spans_prices(j, #[trigger] r@[j]),
    {
        let lowest = Double::infinity();
        let highest = Double { bits: 0xFFF0_0000_0000_0000 };
        let n_groups = self.group_keys.len();
        let mut out: Vec<(Double, Double)> = Vec::new();
        let mut j: usize = 0;
        while j < n_groups
            invariant
                self.wf(),
                n_groups == self.group_keys@.len(),
                j <= n_groups,
                lowest == Double::spec_infinity(),
                highest == (Double { bits: 0xFFF0_0000_0000_0000 }),
                out@.len() == j,
                forall|t: int| 0 <= t < j ==> self@.spans_prices(t, #[trigger] out@[t]),
            decreases n_groups - j,
        {
            let mut lo = lowest;
            let mut hi = highest;
            let mut i: usize = 0;
            while i < self.price.len()
                invariant
                    self.wf(),
                    i <= self.price@.len(),
                    lowest == Double::spec_infinity(),
                    highest == (Double { bits: 0xFFF0_0000_0000_0000 }),
                    self@.spans_prices_upto(j as int, (lo, hi), i as int),
                decreases self.price@.len() - i,
            {
                proof {
                    lemma_range_step(*self, j as int, (lo, hi), i as int);
                }
                if self.group_of[i] == j {
                    let p = self.price[i];
                    if p.less_than(lo) {
                        lo = p;
                    }
                    if hi.less_than(p) {
                        hi = p;
                    }
                }
                i += 1;
            }
            out.push((lo, hi));
            j += 1;
        }
        out
    }
}

impl Read {
    /// Whether a range spans the prices of a segment's first `n` rows: both ends are
    /// prices of the segment and no price of it lies outside, or there is none and the
    /// range is empty.
    pub open spec fn spans_prices_upto(self, j: int, range: (Double, Double), n: int) -> bool {
        if exists|i: int| 0 <= i < n && (#[trigger] self.group_of[i]) == j {
            &&& exists|i: int|
                0 <= i < n && (#[trigger] self.group_of[i]) == j && self.price[i] == range.0
            &&& exists|i: int|
                0 <= i < n && (#[trigger] self.group_of[i]) == j && self.price[i] == range.1
            &&& forall|i: int|
                0 <= i < n && (#[trigger] self.group_of[i]) == j ==> range.0.le(self.price[i])
                    && self.price[i].le(range.1)
        } else {
            range == (Double::spec_infinity(), Double { bits: 0xFFF0_0000_0000_0000 })
        }
    }

    /// Whether a range spans the prices of a segment.
    pub open spec fn spans_prices(self, j: int, range: (Double, Double)) -> bool {
        self.spans_prices_upto(j, range, self.price.len() as int)
    }
}

proof fn lemma_range_step(panel: ElasticityPanel, j: int, range: (Double, Double), i: int)
    requires
        panel.wf(),
        0 <= i < panel.price@.len(),
        panel@.spans_prices_upto(j, range, i),
    ensures
        panel.group_of@[i] != j ==> panel@.spans_prices_upto(j, range, i + 1),
        panel.group_of@[i] == j ==> {
            let p = panel.price@[i];
            let lo = if p.lt(range.0) {
                p
            } else {
                range.0
            };
            let hi = if range.1.lt(p) {
                p
            } else {
                range.1
            };
            panel@.spans_prices_upto(j, (lo, hi), i + 1)
        },
{
    let read = panel@;
    let p = panel.price@[i];
    assert(p.finite());
    let some = exists|t: int| 0 <= t < i && (#[trigger] read.group_of[t]) == j;
    if some {
        let a = choose|t: int|
            0 <= t < i && (#[trigger] read.group_of[t]) == j && read.price[t] == range.0;
        let b = choose|t: int|
            0 <= t < i && (#[trigger] read.group_of[t]) == j && read.price[t] == range.1;
        assert(read.group_of[a] == j && read.price[a] == range.0 && read.price[a].finite());
        assert(read.group_of[b] == j && read.price[b] == range.1 && read.price[b].finite());
    } else {
        crate::double::every_finite_number_lies_between_the_infinities(p);
    }
    if panel.group_of@[i] == j {
        assert(read.group_of[i] == j);
    }
}

/// The keys of the first `n` segments whose price moved by less than the least variation
/// that identifies an elasticity.
pub open spec fn still_keys(
    keys: Seq<Seq<char>>,
    spans: Seq<Double>,
    least: Double,
    n: nat,
) -> Seq<Seq<char>>
    decreases n,
{
    if n == 0 {
        Seq::empty()
    } else {
        let before = still_keys(keys, spans, least, (n - 1) as nat);
        if spans[n - 1].lt(least) {
            before.push(keys[n - 1])
        } else {
            before
        }
    }
}

/// Whether every segment's price stood still.
pub open spec fn all_still(spans: Seq<Double>, least: Double) -> bool {
    forall|j: int| 0 <= j < spans.len() ==> (#[trigger] spans[j]).lt(least)
}

/// The verdict that the data forces, if any, given how far each segment's price moved.
///
/// Too few segments come first; then a panel that identifies nothing at all; only then
/// the segments that are named one by one.
pub open spec fn structural_verdict(read: Read, spans: Seq<Double>) -> Option<Verdict> {
    let n_groups = read.group_keys.len();
    let still = still_keys(read.group_keys, spans, read.min_price_variation, n_groups);
    if n_groups < read.min_groups {
        Some(
            crate::catalog::common::few_groups_verdict(n_groups, read.min_groups, FEW_GROUPS@),
        )
    } else if all_still(spans, read.min_price_variation) {
        Some(
            Verdict::because(
                FitStatus::Degenerate,
                Message::showing(
                    "no segment's price moved by as much as "@,
                    read.min_price_variation,
                    if read.prior.proper() {
                        STILL_PRICES@ + STILL_PRICES_PROPER@
                    } else {
                        STILL_PRICES@
                    },
                ),
            ),
        )
    } else if read.likelihood == Likelihood::NegBinomial && crate::catalog::common::all_zero(read.y) {
        Some(
            Verdict::because(
                FitStatus::Degenerate,
                Message::saying(
                    "every one of the "@ + crate::text::numeral(read.y.len()) + NO_VOLUME@,
                ),
            ),
        )
    } else if still.len() > 0 {
        Some(
            Verdict::because(
                FitStatus::InsufficientData,
                Message::saying(
                    crate::text::numeral(still.len()) + " of "@ + crate::text::numeral(n_groups)
                        + " segment(s) had no price variation to speak of ("@
                        + crate::text::joined(still, ", "@) + PARTLY_STILL@,
                ),
            ),
        )
    } else {
        None
    }
}

/// A compiled model.
#[derive(Debug)]
pub struct CompiledHierElasticity {
    pub panel: ElasticityPanel,
    /// The segments that cannot identify an elasticity.
    pub unready: Vec<String>,
    pub structural: Option<Readiness>,
}

impl ElasticityPanel {
    /// Decides the verdict, given how far each segment's price moved.
    pub fn judge(self, spans: &Vec<Double>) -> (r: CompiledHierElasticity)
        requires
            self.wf(),
            spans@.len() == self.group_keys@.len(),
        ensures
            r.panel == self,
            r.wf(),
            crate::text::texts(r.unready@) == still_keys(
                self@.group_keys,
                spans@,
                self.min_price_variation,
                spans@.len(),
            ),
            crate::catalog::common::verdict_of(r.structural) == structural_verdict(self@, spans@),
    {
        let n_groups = self.group_keys.len();
        let least = self.min_price_variation;
        let mut unready: Vec<String> = Vec::new();
        let mut still = true;
        let mut j: usize = 0;
        proof {
            assert(crate::text::texts(unready@) =~= Seq::<Seq<char>>::empty());
        }
        while j < n_groups
            invariant
                j <= n_groups,
                n_groups == self.group_keys@.len(),
                n_groups == spans@.len(),
                least == self.min_price_variation,
                unready@.len() <= j,
                crate::text::texts(unready@) == still_keys(
                    self@.group_keys,
                    spans@,
                    least,
                    j as nat,
                ),
                still == forall|t: int| 0 <= t < j ==> (#[trigger] spans@[t]).lt(least),
            decreases n_groups - j,
        {
            if spans[j].less_than(least) {
                push_text(&mut unready, self.group_keys[j].as_str());
                proof {
                    assert(crate::text::texts(unready@) =~= still_keys(
                        self@.group_keys,
                        spans@,
                        least,
                        (j + 1) as nat,
                    ));
                    assert(unready@.len() == crate::text::texts(unready@).len());
                }
            } else {
                still = false;
                proof {
                    assert(!spans@[j as int].lt(least));
                }
            }
            j += 1;
        }
        let n = self.y.len();
        let structural = if n_groups < self.min_groups {
            Some(few_groups(n_groups, self.min_groups, FEW_GROUPS))
        } else if still {
            let mut tail = STILL_PRICES.to_owned();
            if self.prior.is_proper() {
                tail.append(STILL_PRICES_PROPER);
            }
            Some(
                Readiness::degenerate(
                    Message::with_number(
                        "no segment's price moved by as much as ".to_owned(),
                        least,
                        tail.as_str(),
                    ),
                ),
            )
        } else if matches!(self.likelihood, Likelihood::NegBinomial) && every_zero(&self.y) {
            Some(
                Readiness::degenerate(
                    Message::of(
                        "every one of the ".to_owned().concat(decimal(n).as_str()).concat(
                            NO_VOLUME,
                        ),
                    ),
                ),
            )
        } else if unready.len() > 0 {
            Some(
                Readiness::insufficient(
                    Message::of(
                        decimal(unready.len()).concat(" of ").concat(
                            decimal(n_groups).as_str(),
                        ).concat(" segment(s) had no price variation to speak of (").concat(
                            join(unready.as_slice(), ", ").as_str(),
                        ).concat(PARTLY_STILL),
                    ),
                ),
            )
        } else {
            None
        };
        proof {
            assert(unready@.len() == crate::text::texts(unready@).len());
            assert(self@.group_keys.len() == n_groups);
        }
        CompiledHierElasticity { panel: self, unready, structural }
    }
}

/// How the parameters of a group are computed: its level, then its elasticity.
pub open spec fn group_formulas(q: int, n_groups: int) -> Seq<Formula> {
    Seq::new(
        (2 * n_groups) as nat,
        |i: int|
            if i % 2 == 0 {
                Formula::Scaled {
                    log_scale: (3 + q) as usize,
                    at: (5 + q + n_groups + i / 2) as usize,
                }
            } else {
                Formula::MinusExpSum {
                    base: (1 + q) as usize,
                    log_scale: (2 + q) as usize,
                    at: (5 + q + i / 2) as usize,
                }
            },
    )
}

/// How the parameters are computed from the coordinates.
///
/// ```text
///   [0]                    intercept
///   [1 .. 1+q]             beta, the control coefficients
///   [1+q]                  psi              log |population elasticity|
///   [2+q]                  log tau          spread of log |elasticity|
///   [3+q]                  log tau_level    spread of log volume
///   [4+q]                  log phi / log shape
///   [5+q .. 5+q+G]         z, the non-centred elasticity offsets
///   [5+q+G .. 5+q+2G]      v, the non-centred level offsets
/// ```
pub open spec fn formulas(q: int, n_groups: int) -> Seq<Formula> {
    seq![Formula::Coordinate { at: 0 }] + crate::formula::coordinates(1, q as nat) + seq![
        Formula::MinusExp { at: (1 + q) as usize },
    ] + seq![Formula::Exp { at: (2 + q) as usize }] + seq![
        Formula::Exp { at: (3 + q) as usize },
    ] + seq![Formula::Exp { at: (4 + q) as usize }] + group_formulas(q, n_groups)
}

impl CompiledHierElasticity {
    pub open spec fn wf(self) -> bool {
        &&& self.panel.wf()
        &&& self.unready@.len() <= self.panel.group_keys@.len()
    }

    /// The verdict on the fit.
    pub open spec fn verdict(self) -> Verdict {
        crate::catalog::common::verdict_or_ready(self.structural)
    }

    /// Whether it is the model as a whole that the data refuses, rather than segments of
    /// it: too few segments, no price that moved anywhere, or no volume at all.
    pub open spec fn refused_as_a_whole(self) -> bool {
        ||| self.panel.group_keys@.len() < self.panel.min_groups
        ||| self.unready@.len() == self.panel.group_keys@.len()
        ||| self.panel.likelihood == Likelihood::NegBinomial && crate::catalog::common::all_zero(
            self.panel.y@,
        )
    }

    /// Whether a point may be explored: its log scales lie within bounds, and no coordinate
    /// of the population is anything but a number. Elsewhere the density is zero, and is not
    /// evaluated.
    pub open spec fn explorable(self, theta: Seq<Double>) -> bool {
        &&& crate::catalog::common::in_box(theta[1 + self.panel.x@.len() as int])
        &&& crate::catalog::common::in_box(theta[2 + self.panel.x@.len() as int])
        &&& crate::catalog::common::in_box(theta[3 + self.panel.x@.len() as int])
        &&& crate::catalog::common::in_box(theta[4 + self.panel.x@.len() as int])
        &&& crate::catalog::common::finite_until(
            theta,
            population_count(self.panel.x@.len() as int),
        )
    }

    /// The coordinates of the unconstrained vector.
    pub open spec fn spec_dim(self) -> int {
        (5 + self.panel.x@.len() + 2 * self.panel.group_keys@.len()) as int
    }

    pub fn n_obs(&self) -> (r: usize)
        ensures
            r == self.panel.y@.len(),
    {
        self.panel.y.len()
    }

    pub fn n_groups(&self) -> (r: usize)
        ensures
            r == self.panel.group_keys@.len(),
    {
        self.panel.group_keys.len()
    }

    pub fn readiness(&self) -> (r: Readiness)
        ensures
            r@ == self.verdict(),
    {
        readiness_of(&self.structural)
    }

    /// How many groups are implicated in a refusal.
    ///
    /// A refusal of the model as a whole implicates every group, whichever segments stood
    /// still; otherwise the segments that could not be identified are counted, and only
    /// those.
    pub fn n_groups_unready(&self) -> (r: usize)
        ensures
            r == if self.verdict().status == FitStatus::Converged {
                0
            } else if self.refused_as_a_whole() {
                self.panel.group_keys@.len()
            } else {
                self.unready@.len()
            },
    {
        let n_groups = self.n_groups();
        let n_unready = self.unready.len();
        let whole = n_groups < self.panel.min_groups || n_unready == n_groups || (matches!(
            self.panel.likelihood,
            Likelihood::NegBinomial
        ) && every_zero(&self.panel.y));
        implicated(
            status_of(&self.structural),
            if whole {
                n_groups
            } else {
                n_unready
            },
        )
    }

    /// The segments that could not be identified, each with its status.
    pub fn unready_groups(&self) -> (r: Vec<(String, FitStatus)>)
        ensures
            r@.len() == self.unready@.len(),
            forall|i: int|
                0 <= i < r@.len() ==> (#[trigger] r@[i]).0@ == self.unready@[i]@ && r@[i].1
                    == FitStatus::InsufficientData,
    {
        let mut out: Vec<(String, FitStatus)> = Vec::new();
        let mut k: usize = 0;
        while k < self.unready.len()
            invariant
                k <= self.unready@.len(),
                out@.len() == k,
                forall|i: int|
                    0 <= i < k ==> (#[trigger] out@[i]).0@ == self.unready@[i]@ && out@[i].1
                        == FitStatus::InsufficientData,
            decreases self.unready@.len() - k,
        {
            out.push((self.unready[k].clone(), FitStatus::InsufficientData));
            k += 1;
        }
        out
    }

    /// Whether there is no posterior here, so that every draw is absent.
    pub fn refuses(&self) -> (r: bool)
        ensures
            r == self.verdict().status.refused(),
    {
        status_of(&self.structural).withholds_draws()
    }

    pub fn n_beta(&self) -> (r: usize)
        ensures
            r == self.panel.x@.len(),
    {
        self.panel.x.len()
    }

    /// The coordinate of the log magnitude of the population elasticity.
    pub fn i_psi(&self) -> (r: usize)
        requires
            self.wf(),
        ensures
            r == 1 + self.panel.x@.len(),
    {
        1 + self.n_beta()
    }

    pub fn i_log_tau(&self) -> (r: usize)
        requires
            self.wf(),
        ensures
            r == 2 + self.panel.x@.len(),
    {
        2 + self.n_beta()
    }

    pub fn i_log_tau_level(&self) -> (r: usize)
        requires
            self.wf(),
        ensures
            r == 3 + self.panel.x@.len(),
    {
        3 + self.n_beta()
    }

    pub fn i_log_disp(&self) -> (r: usize)
        requires
            self.wf(),
        ensures
            r == 4 + self.panel.x@.len(),
    {
        4 + self.n_beta()
    }

    /// The first of the elasticity offsets.
    pub fn i_z0(&self) -> (r: usize)
        requires
            self.wf(),
        ensures
            r == 5 + self.panel.x@.len(),
    {
        5 + self.n_beta()
    }

    /// The first of the level offsets.
    pub fn i_v0(&self) -> (r: usize)
        requires
            self.wf(),
        ensures
            r == 5 + self.panel.x@.len() + self.panel.group_keys@.len(),
    {
        self.i_z0() + self.n_groups()
    }

    pub fn dim(&self) -> (r: usize)
        requires
            self.wf(),
        ensures
            r == self.spec_dim(),
    {
        self.i_v0() + self.n_groups()
    }

    /// Whether a point may be explored; where it may not, its density is zero.
    pub fn is_explorable(&self, theta: &Vec<Double>) -> (r: bool)
        requires
            self.wf(),
            self.spec_dim() <= theta@.len(),
        ensures
            r == self.explorable(theta@),
    {
        is_in_box(theta[self.i_psi()]) && is_in_box(theta[self.i_log_tau()]) && is_in_box(
            theta[self.i_log_tau_level()],
        ) && is_in_box(theta[self.i_log_disp()]) && are_finite_until(theta, self.i_z0())
    }

    /// Refuses buffers that do not hold one entry per coordinate.
    pub fn check_gradient_buffers(&self, theta: usize, out: usize) -> (r: BayesResult<()>)
        requires
            self.wf(),
        ensures
            r is Ok <==> theta == self.spec_dim() && out == self.spec_dim(),
            r matches Err(e) ==> e@ == Fault::coordinates(self.spec_dim() as nat, theta, out),
    {
        BayesError::check_coordinates(self.dim(), theta, out)
    }

    /// How each parameter is computed from the coordinates, in the order of the names.
    pub fn constrain(&self) -> (r: Vec<Formula>)
        requires
            self.wf(),
        ensures
            r@ == if self.verdict().status.refused() {
                crate::formula::repeated(Formula::Absent, self.panel.params@.len())
            } else {
                formulas(self.panel.x@.len() as int, self.panel.group_keys@.len() as int)
            },
    {
        if self.refuses() {
            return absent(self.panel.params.len());
        }
        let n_groups = self.n_groups();
        let mut out: Vec<Formula> = Vec::new();
        out.push(Formula::Coordinate { at: 0 });
        push_coordinates(&mut out, 1, self.n_beta());
        out.push(Formula::MinusExp { at: self.i_psi() });
        out.push(Formula::Exp { at: self.i_log_tau() });
        out.push(Formula::Exp { at: self.i_log_tau_level() });
        out.push(Formula::Exp { at: self.i_log_disp() });
        let ghost q = self.panel.x@.len() as int;
        let ghost before = out@;
        let ghost pairs = group_formulas(q, n_groups as int);
        let mut j: usize = 0;
        proof {
            assert(before =~= before + pairs.take(0));
        }
        while j < n_groups
            invariant
                self.wf(),
                j <= n_groups,
                n_groups == self.panel.group_keys@.len(),
                q == self.panel.x@.len(),
                pairs == group_formulas(q, n_groups as int),
                out@ == before + pairs.take(2 * j),
            decreases n_groups - j,
        {
            out.push(Formula::Scaled { log_scale: self.i_log_tau_level(), at: self.i_v0() + j });
            out.push(
                Formula::MinusExpSum {
                    base: self.i_psi(),
                    log_scale: self.i_log_tau(),
                    at: self.i_z0() + j,
                },
            );
            proof {
                assert((2 * j) / 2 == j && (2 * j + 1) / 2 == j);
                assert(out@ =~= before + pairs.take(2 * (j + 1)));
            }
            j += 1;
        }
        proof {
            assert(pairs.take(2 * j) =~= pairs);
            assert(out@ =~= formulas(q, n_groups as int));
        }
        out
    }
}

/// Each parameter has its formula: there are as many of them, and every coordinate that
/// one reads is a coordinate of the model.
pub proof fn every_parameter_has_a_formula(
    x: Seq<Seq<char>>,
    keys: Seq<Seq<char>>,
    likelihood: Likelihood,
)
    requires
        5 + x.len() + 2 * keys.len() <= usize::MAX,
    ensures
        formulas(x.len() as int, keys.len() as int).len() == param_ids(x, keys, likelihood).len(),
        forall|i: int|
            0 <= i < formulas(x.len() as int, keys.len() as int).len() ==> (#[trigger] formulas(
                x.len() as int,
                keys.len() as int,
            )[i]).reads_within((5 + x.len() + 2 * keys.len()) as int),
{
}

/// Every coordinate of the model is read by some formula: none is sampled in vain.
pub proof fn every_coordinate_is_reported(q: int, n_groups: int, c: int)
    requires
        0 <= q,
        0 <= n_groups,
        5 + q + 2 * n_groups <= usize::MAX,
        0 <= c < 5 + q + 2 * n_groups,
    ensures
        exists|i: int|
            0 <= i < formulas(q, n_groups).len() && (#[trigger] formulas(q, n_groups)[i]).reads(c),
{
    let f = formulas(q, n_groups);
    if c < 5 + q {
        assert(f[c].reads(c));
    } else if c < 5 + q + n_groups {
        let j = c - (5 + q);
        assert((2 * j + 1) / 2 == j && (2 * j + 1) % 2 == 1);
        assert(f[5 + q + 2 * j + 1] == group_formulas(q, n_groups)[2 * j + 1]);
        assert(f[5 + q + 2 * j + 1].reads(c));
    } else {
        let j = c - (5 + q + n_groups);
        assert((2 * j) / 2 == j && (2 * j) % 2 == 0);
        assert(f[5 + q + 2 * j] == group_formulas(q, n_groups)[2 * j]);
        assert(f[5 + q + 2 * j].reads(c));
    }
}

/// The sign of an elasticity is a constraint: whatever the coordinates are, the formula
/// of the population elasticity and of every segment's elasticity is minus a power of e.
/// The scales and the dispersion are powers of e.
pub proof fn elasticities_are_negative_by_construction(
    x: Seq<Seq<char>>,
    keys: Seq<Seq<char>>,
    likelihood: Likelihood,
    i: int,
)
    requires
        0 <= i < param_ids(x, keys, likelihood).len(),
    ensures
        ({
            let id = param_ids(x, keys, likelihood)[i];
            let formula = formulas(x.len() as int, keys.len() as int)[i];
            &&& id.name == "elasticity"@ || id.name == "group_elasticity"@ ==> formula.sign()
                == Sign::Negative
            &&& id.name == "tau"@ || id.name == "tau_level"@ || id.name == "phi"@ || id.name
                == "shape"@ ==> formula.sign() == Sign::Positive
        }),
{
    reveal_strlit("intercept");
    reveal_strlit("elasticity");
    reveal_strlit("tau");
    reveal_strlit("tau_level");
    reveal_strlit("phi");
    reveal_strlit("shape");
    reveal_strlit("group_effect");
    reveal_strlit("group_elasticity");
    reveal_strlit("beta[");
    let q = x.len() as int;
    let id = param_ids(x, keys, likelihood)[i];
    if i == 0 {
        assert(id.name[0] == 'i');
    } else if i < 1 + q {
        assert(id.name == crate::draws::coefficient_name(x[i - 1]));
        assert(id.name[0] == 'b');
    } else if i == 1 + q {
        assert(id.name[0] == 'e');
    } else if i < 5 + q {
        assert(id.name[0] == 't' || id.name[0] == 'p' || id.name[0] == 's');
    } else {
        assert(id.name[0] == 'g');
        assert("group_effect"@[6] == 'e' && "group_effect"@[7] == 'f');
        assert("group_elasticity"@[7] == 'l');
        let k = i - (5 + q);
        assert(id == crate::draws::two_each(keys, "group_effect"@, "group_elasticity"@)[k]);
        assert(formulas(q, keys.len() as int)[i] == group_formulas(q, keys.len() as int)[k]);
    }
}

/// The refusal for too few segments comes before every other, and a segment is named as
/// unready exactly when its own price stood still.
pub proof fn a_segment_is_named_for_its_own_price_alone(
    read: Read,
    spans: Seq<Double>,
    j: int,
)
    requires
        spans.len() == read.group_keys.len(),
        0 <= j < spans.len(),
    ensures
        spans[j].lt(read.min_price_variation) ==> still_keys(
            read.group_keys,
            spans,
            read.min_price_variation,
            spans.len(),
        ).contains(read.group_keys[j]),
        still_keys(read.group_keys, spans, read.min_price_variation, spans.len()).len()
            <= spans.len(),
        (read.group_keys.len() >= read.min_groups && !all_still(spans, read.min_price_variation)
            && !(read.likelihood == Likelihood::NegBinomial && crate::catalog::common::all_zero(read.y)))
            ==> (structural_verdict(read, spans) is Some <==> exists|t: int|
            0 <= t < spans.len() && (#[trigger] spans[t]).lt(read.min_price_variation)),
{
    lemma_still_keys(read.group_keys, spans, read.min_price_variation, spans.len());
}

proof fn lemma_still_keys(keys: Seq<Seq<char>>, spans: Seq<Double>, least: Double, n: nat)
    requires
        n <= spans.len(),
        keys.len() == spans.len(),
    ensures
        still_keys(keys, spans, least, n).len() <= n,
        forall|t: int|
            0 <= t < n && (#[trigger] spans[t]).lt(least) ==> still_keys(
                keys,
                spans,
                least,
                n,
            ).contains(keys[t]),
        still_keys(keys, spans, least, n).len() > 0 <==> exists|t: int|
            0 <= t < n && (#[trigger] spans[t]).lt(least),
    decreases n,
{
    if n > 0 {
        lemma_still_keys(keys, spans, least, (n - 1) as nat);
        let before = still_keys(keys, spans, least, (n - 1) as nat);
        let now = still_keys(keys, spans, least, n);
        assert forall|t: int| 0 <= t < n && (#[trigger] spans[t]).lt(least) implies now.contains(
            keys[t],
        ) by {
            if t < n - 1 {
                let k = choose|k: int| 0 <= k < before.len() && before[k] == keys[t];
                assert(now[k] == keys[t]);
            } else {
                assert(now[now.len() - 1] == keys[t]);
            }
        }
        if now.len() > 0 && before.len() == 0 {
            assert(spans[n - 1].lt(least));
        }
        if before.len() > 0 {
            let t = choose|t: int| 0 <= t < n - 1 && (#[trigger] spans[t]).lt(least);
            assert(spans[t].lt(least));
        }
    }
}

/// A request that asks for the Laplace engine is refused, in whatever case of letters it
/// is written.
pub proof fn laplace_is_refused_in_any_case(cfg: Scope)
    requires
        cfg.laplace_requested() == Ok::<bool, Fault>(true),
    ensures
        Asked::of(cfg) is Err,
{
}

/// What is read for the identity of the data is what a fit is made of: every column that the
/// options name, at every complete row, and nothing else.
pub proof fn the_columns_read_are_the_ones_named(cfg: Config, data: DataView, reading: Reading)
    requires
        reads(cfg@, data) == Ok::<Entries, Fault>(reading@),
    ensures
        crate::reading::holds_the_columns(
            data,
            columns_named(cfg.entries@),
            seq![crate::config::text_of(cfg.entries@, "group"@)->0],
            reading,
        ),
{
    a_request_is_what_its_options_say(cfg@);
    let asked = Asked::of(cfg@)->Ok_0;
    assert(asked.columns() =~= columns_named(cfg.entries@));
    assert(crate::panel::group_columns(Some(asked.group)) =~= seq![crate::config::text_of(cfg.entries@, "group"@)->0]);
    crate::reading::a_reading_holds_the_named_columns(
        data,
        columns_named(cfg.entries@),
        seq![crate::config::text_of(cfg.entries@, "group"@)->0],
        reading,
    );
}

/// A point may be explored exactly when the logarithms of the scales lie from minus thirty to
/// thirty and every coordinate of the population is a number.
pub proof fn a_point_is_explored_within_bounds(model: CompiledHierElasticity, theta: Seq<Double>)
    ensures
        model.explorable(theta) <==> {
            let p = model.panel.x@.len() as int;
            &&& crate::catalog::common::within_thirty(theta[1 + p])
            &&& crate::catalog::common::within_thirty(theta[2 + p])
            &&& crate::catalog::common::within_thirty(theta[3 + p])
            &&& crate::catalog::common::within_thirty(theta[4 + p])
            &&& forall|i: int| 0 <= i < 5 + p ==> (#[trigger] theta[i]).finite()
        },
{
    let p = model.panel.x@.len() as int;
    crate::catalog::common::the_bound_is_thirty_either_way(theta[1 + p]);
    crate::catalog::common::the_bound_is_thirty_either_way(theta[2 + p]);
    crate::catalog::common::the_bound_is_thirty_either_way(theta[3 + p]);
    crate::catalog::common::the_bound_is_thirty_either_way(theta[4 + p]);
}

/// The range of a segment's prices runs from its lowest to its highest: both are prices of the
/// segment's own rows, and none of those is below the one or above the other.
pub proof fn a_range_spans_the_prices_of_its_own_segment(
    panel: ElasticityPanel,
    j: int,
    range: (Double, Double),
    i: int,
)
    requires
        panel.wf(),
        panel@.spans_prices(j, range),
        0 <= i < panel.price@.len(),
        panel.group_of@[i] == j,
    ensures
        exists|k: int|
            0 <= k < panel.price@.len() && (#[trigger] panel.group_of@[k]) == j && panel.price@[k]
                == range.0,
        exists|k: int|
            0 <= k < panel.price@.len() && (#[trigger] panel.group_of@[k]) == j && panel.price@[k]
                == range.1,
        range.0.scaled() <= panel.price@[i].scaled() <= range.1.scaled(),
{
    let read = panel@;
    assert(read.group_of[i] == j);
    let a = choose|k: int|
        0 <= k < read.price.len() && (#[trigger] read.group_of[k]) == j && read.price[k] == range.0;
    let b = choose|k: int|
        0 <= k < read.price.len() && (#[trigger] read.group_of[k]) == j && read.price[k] == range.1;
    assert(panel.group_of@[a] == j && panel.price@[a] == range.0);
    assert(panel.group_of@[b] == j && panel.price@[b] == range.1);
}

/// Whether an error is the one of a row: it refuses the slot of the value that is not sound,
/// and shows it.
pub open spec fn blames_the_row(
    entries: Seq<Entry>,
    data: DataView,
    row: int,
    e: BayesError,
) -> bool {
    let y = data.column(crate::config::text_of(entries, "y"@)->0)->0.values@[row];
    let price = data.column(crate::config::text_of(entries, "price"@)->0)->0.values@[row];
    if !y.finite() || if crate::config::text_of(entries, "likelihood"@) == Some("gamma"@) {
        y.scaled() <= 0
    } else {
        !exists|n: nat| y.scaled() == #[trigger] (n * crate::double::one_scaled())
    } {
        crate::catalog::common::shows(e, "y"@, y)
    } else {
        crate::catalog::common::shows(e, "price"@, price)
    }
}

proof fn lemma_row_fault(cfg: Config, data: DataView, asked: Asked, row: usize, e: BayesError)
    requires
        Asked::of(cfg@) == Ok::<Asked, Fault>(asked),
    ensures
        ({
            let f = row_fault(
                asked.likelihood,
                data.column(asked.y)->0.values@[row as int],
                data.column(asked.price)->0.values@[row as int],
                row,
            );
            &&& f is None <==> row_is_sound(cfg.entries@, data, row as int)
            &&& f == Some(e@) ==> blames_the_row(cfg.entries@, data, row as int, e)
        }),
{
    let entries = cfg.entries@;
    assert(Some(asked.y) == crate::config::text_of(entries, "y"@) && Some(asked.price)
        == crate::config::text_of(entries, "price"@) && (asked.likelihood == Likelihood::Gamma
        <==> crate::config::text_of(entries, "likelihood"@) == Some("gamma"@))) by {
        a_request_is_what_its_options_say(cfg@);
        reveal_strlit("negbinomial");
        reveal_strlit("gamma");
    }
    crate::double::a_count_is_its_value(data.column(asked.y)->0.values@[row as int]);
    let f = row_fault(
        asked.likelihood,
        data.column(asked.y)->0.values@[row as int],
        data.column(asked.price)->0.values@[row as int],
        row,
    );
    if f == Some(e@) {
        crate::catalog::common::lemma_shows(e, e@->slot);
    }
}

/// A sound request that a relation cannot serve is refused for what is wrong with the
/// relation, and for the first thing: a column that is not there, the reserved label, a
/// row that is not sound, which is shown, or fewer rows than it takes, with both numbers.
#[verifier::rlimit(60)]
pub proof fn a_refusal_says_what_is_wrong(
    cfg: Config,
    data: DataView,
    rows: Seq<usize>,
    e: BayesError,
)
    requires
        data.wf(),
        cfg@.list_fits("x"@),
        built(cfg@, data) == Err::<Read, Fault>(e@),
        request_is_sound(cfg.entries@),
        crate::panel::each_present_row_once(
            data,
            columns_named(cfg.entries@),
            seq![crate::config::text_of(cfg.entries@, "group"@)->0],
            rows,
        ),
    ensures
        refusal_is_right(cfg.entries@, data, rows, e),
{
    let entries = cfg.entries@;
    a_request_is_what_its_options_say(cfg@);
    let asked = Asked::of(cfg@)->Ok_0;
    let columns = asked.columns();
    let keys = seq![asked.group];
    assert(columns =~= columns_named(entries));
    assert(crate::panel::group_columns(Some(asked.group)) =~= keys);
    crate::panel::the_rows_read_are_the_complete_ones(data, columns, keys);
    crate::panel::a_panel_is_read_exactly_when_it_can_be(data, columns, asked.group, rows);
    assert(keys[0] == asked.group);
    crate::errors::an_error_says_what_it_holds(e);
    match crate::panel::panel_of(data, columns, Some(asked.group), true) {
        Err(f) => {
            crate::panel::a_panel_is_refused_for_what_is_missing(
                data,
                columns,
                Some(asked.group),
                true,
                e,
            );
            if data.usable(columns, keys) is Ok {
                assert(data.key_column(keys[0]) is Some);
            }
        },
        Ok(p) => {
            let order = p.order();
            crate::panel::a_panel_puts_each_row_into_its_own_group(
                data,
                columns,
                asked.group,
                true,
            );
            crate::panel::lemma_same_rows_read(data, columns, keys, rows, order);
            crate::panel::a_panel_holds_each_row_read_once(
                data,
                columns,
                Some(asked.group),
                true,
            );
            crate::data::usable_rows_are_no_more_than_rows(data, columns, keys);
            crate::double::zero_is_nothing();
            let checks = row_checks(
                asked.likelihood,
                data.column(asked.y)->0,
                data.column(asked.price)->0,
                order,
            );
            assert forall|i: int| 0 <= i < order.len() implies ((#[trigger] checks[i]) is None
                <==> row_is_sound(entries, data, order[i] as int)) by {
                lemma_row_fault(cfg, data, asked, order[i], e);
            }
            if crate::data::first_fault(checks) is Some {
                crate::data::lemma_fault_of_a_check(checks);
                let i = choose|i: int|
                    0 <= i < checks.len() && (#[trigger] checks[i]) == crate::data::first_fault(
                        checks,
                    );
                assert(checks[i] is Some);
                assert(order.contains(order[i]));
                let j = choose|j: int| 0 <= j < rows.len() && rows[j] == order[i];
                assert(!row_is_sound(entries, data, rows[j] as int));
                lemma_row_fault(cfg, data, asked, order[i], e);
                assert(checks[i] == Some(e@));
                assert(blames_the_row(entries, data, rows[j] as int, e));
            } else {
                crate::data::lemma_no_fault(checks);
                assert forall|i: int| 0 <= i < rows.len() implies row_is_sound(
                    entries,
                    data,
                    (#[trigger] rows[i]) as int,
                ) by {
                    assert(rows.contains(rows[i]));
                    let j = choose|j: int| 0 <= j < order.len() && order[j] == rows[i];
                    assert(checks[j] is None);
                }
            }
        },
    }
}

/// Whether an error is the one that a relation deserves.
pub open spec fn refusal_is_right(
    entries: Seq<Entry>,
    data: DataView,
    rows: Seq<usize>,
    e: BayesError,
) -> bool {
    let group = crate::config::text_of(entries, "group"@)->0;
    let names = columns_named(entries);
    if (exists|c: int| 0 <= c < names.len() && data.column(#[trigger] names[c]) is None)
        || data.key_column(group) is None {
        crate::panel::names_a_missing_column(data, names, seq![group], e)
    } else if exists|i: int|
        0 <= i < rows.len() && data.key_column(group)->0.values@[(#[trigger] rows[i]) as int]@
            == "__global__"@ {
        crate::catalog::common::refuses(e, "group"@)
    } else if exists|i: int|
        0 <= i < rows.len() && !row_is_sound(entries, data, (#[trigger] rows[i]) as int) {
        exists|i: int|
            0 <= i < rows.len() && !row_is_sound(entries, data, (#[trigger] rows[i]) as int)
                && blames_the_row(entries, data, rows[i] as int, e)
    } else {
        e matches BayesError::InsufficientData { rows: n, params } && n == rows.len() && params
            == 5 + crate::config::texts_of(entries, "x"@).len()
    }
}

/// Whether a slot of the options is at fault: it is not known, or what is written in it may not
/// stand there.
pub open spec fn is_at_fault(entries: Seq<Entry>, slot: Seq<char>) -> bool {
    ||| exists|i: int|
        0 <= i < entries.len() && slot == (#[trigger] entries[i]).name@ && !seq![
            "y"@,
            "price"@,
            "group"@,
            "x"@,
            "likelihood"@,
            "min_groups"@,
            "min_price_variation"@,
            "prior"@,
            "draws"@,
            "chains"@,
            "warmup"@,
            "max_draw_megabytes"@,
            "seed"@,
            "engine"@,
            "sample_from"@,
        ].contains(slot)
    ||| slot == "y"@ && (crate::config::text_of(entries, "y"@) is None)
    ||| slot == "price"@ && (crate::config::text_of(entries, "price"@) is None)
    ||| slot == "group"@ && (crate::config::text_of(entries, "group"@) is None)
    ||| slot == "x"@ && ((!crate::config::takes_texts(entries, "x"@))
        || (crate::config::texts_of(entries, "x"@).contains(crate::config::text_of(entries, "price"@)->0)))
    ||| slot == "likelihood"@ && (!crate::config::takes_text(entries, "likelihood"@)
        || (crate::config::text_of(entries, "likelihood"@) matches Some(s) && !seq!["negbinomial"@, "gamma"@].contains(s)))
    ||| slot == "min_groups"@ && (!crate::config::takes_count(entries, "min_groups"@, 2, 1_000_000_000))
    ||| slot == "min_price_variation"@ && (!crate::config::takes_positive(entries, "min_price_variation"@))
    ||| slot == "engine"@ && (!crate::config::takes_text(entries, "engine"@)
        || (crate::config::text_of(entries, "engine"@) matches Some(s) && crate::text::small(s) == "laplace"@))
    ||| slot == "sample_from"@ && (!crate::config::takes_text(entries, "sample_from"@)
        || crate::config::text_of(entries, "sample_from"@) == Some("prior"@))
}

/// A request with a sound prior that is refused for its options names a slot that is at fault.
#[verifier::rlimit(80)]
pub proof fn the_slot_that_is_named_is_at_fault(cfg: Config)
    requires
        crate::config::takes_table(cfg.entries@, "prior"@),
        prior_is_sound(crate::config::table_of(cfg.entries@, "prior"@)),
    ensures
        Asked::of(cfg@) matches Err(f) ==> (f matches Fault::Config { slot, .. } && is_at_fault(
            cfg.entries@,
            slot,
        )),
{
    let entries = cfg.entries@;
    let known = crate::text::words(SLOTS@);
    assert(known =~= seq![
        "y"@,
        "price"@,
        "group"@,
        "x"@,
        "likelihood"@,
        "min_groups"@,
        "min_price_variation"@,
        "prior"@,
        "draws"@,
        "chains"@,
        "warmup"@,
        "max_draw_megabytes"@,
        "seed"@,
        "engine"@,
        "sample_from"@,
    ]);
    crate::config::an_unknown_slot_is_named_by_its_path(cfg@, known);
    assert(cfg@.table("prior"@) is Ok && Prior::asked(cfg@.table("prior"@)->Ok_0) is Ok) by {
        crate::config::a_text_slot_gives_the_text_written(cfg@, "prior"@);
        lemma_prior_asked(cfg@.table("prior"@)->Ok_0);
    }
    assert forall|name: Seq<char>| #[trigger] (cfg@.path + name) == name by {
        assert(cfg@.path + name =~= name);
    }
    reveal_strlit("negbinomial");
    reveal_strlit("gamma");
    crate::config::a_text_slot_gives_the_text_written(cfg@, "y"@);
    crate::config::a_refused_slot_is_named_by_its_path(
        cfg@,
        "y"@,
        Double { bits: 0 },
        0,
        1,
        0,
        Seq::empty(),
        "y"@,
    );
    crate::config::a_text_slot_gives_the_text_written(cfg@, "price"@);
    crate::config::a_refused_slot_is_named_by_its_path(
        cfg@,
        "price"@,
        Double { bits: 0 },
        0,
        1,
        0,
        Seq::empty(),
        "price"@,
    );
    crate::config::a_text_slot_gives_the_text_written(cfg@, "group"@);
    crate::config::a_refused_slot_is_named_by_its_path(
        cfg@,
        "group"@,
        Double { bits: 0 },
        0,
        1,
        0,
        Seq::empty(),
        "group"@,
    );
    crate::config::a_text_slot_gives_the_text_written(cfg@, "x"@);
    crate::config::a_refused_slot_is_named_by_its_path(
        cfg@,
        "x"@,
        Double { bits: 0 },
        0,
        1,
        0,
        Seq::empty(),
        "x"@,
    );
    assert(crate::text::words(LIKELIHOODS@) =~= seq!["negbinomial"@, "gamma"@]);
    assert(seq!["negbinomial"@, "gamma"@][0] == "negbinomial"@);
    assert(seq!["negbinomial"@, "gamma"@][1] == "gamma"@);
    crate::config::a_choice_is_the_word_written(
        cfg@,
        "likelihood"@,
        crate::text::words(LIKELIHOODS@),
        "negbinomial"@,
    );
    crate::config::a_refused_slot_is_named_by_its_path(
        cfg@,
        "likelihood"@,
        Double { bits: 0 },
        0,
        1,
        0,
        crate::text::words(LIKELIHOODS@),
        "negbinomial"@,
    );
    crate::config::a_count_slot_gives_the_count_written(cfg@, "min_groups"@, 3, 2, 1_000_000_000);
    crate::config::a_refused_slot_is_named_by_its_path(
        cfg@,
        "min_groups"@,
        Double { bits: 0 },
        2,
        1_000_000_000,
        3,
        Seq::empty(),
        "min_groups"@,
    );
    crate::config::a_number_slot_gives_the_number_written(
        cfg@,
        "min_price_variation"@,
        Double { bits: 0x3F84_7AE1_47AE_147B },
    );
    crate::config::a_refused_slot_is_named_by_its_path(
        cfg@,
        "min_price_variation"@,
        Double { bits: 0x3F84_7AE1_47AE_147B },
        0,
        1,
        0,
        Seq::empty(),
        "min_price_variation"@,
    );
    crate::config::an_engine_and_a_source_are_asked_for_by_name(cfg@);
    crate::config::a_refused_slot_is_named_by_its_path(
        cfg@,
        "engine"@,
        Double { bits: 0 },
        0,
        1,
        0,
        Seq::empty(),
        "engine"@,
    );
    crate::config::a_refused_slot_is_named_by_its_path(
        cfg@,
        "sample_from"@,
        Double { bits: 0 },
        0,
        1,
        0,
        Seq::empty(),
        "sample_from"@,
    );
}

impl HierElasticity {
    pub fn id(&self) -> (r: &'static str)
        ensures
            r@ == ID@,
    {
        ID
    }

    pub fn code(&self) -> (r: FamilyCode)
        ensures
            r == FamilyCode::HierElasticity,
    {
        FamilyCode::HierElasticity
    }

    pub fn description(&self) -> (r: &'static str)
        ensures
            r@ == DESCRIPTION@,
    {
        DESCRIPTION
    }

    pub fn default_engine(&self) -> (r: EngineKind)
        ensures
            r == EngineKind::Nuts,
    {
        EngineKind::Nuts
    }

    pub fn config_slots(&self) -> (r: [&'static str; 15])
        ensures
            r == SLOTS,
    {
        SLOTS
    }

    /// Reads a request and the relation it names.
    pub fn compile(&self, cfg: &Config, data: &DataView) -> (r: BayesResult<ElasticityPanel>)
        requires
            data.wf(),
            cfg@.list_fits("x"@),
        ensures
            crate::errors::outcome(r) == built(cfg@, *data),
            r matches Ok(panel) ==> panel.wf(),
    {
        build(cfg, data)
    }

    /// The columns and rows that a fit of this request reads: what the fingerprint of its
    /// data is taken of.
    pub fn reading(&self, cfg: &Config, data: &DataView) -> (r: BayesResult<Reading>)
        requires
            data.wf(),
        ensures
            crate::errors::outcome(r) == reads(cfg@, *data),
    {
        let request = Request::parse(cfg)?;
        read_columns(data, request.list_columns(), &Some(request.group))
    }
}

} // verus!
