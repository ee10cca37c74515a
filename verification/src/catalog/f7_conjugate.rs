//! Conjugate anomaly detection: a closed-form posterior per group, over the level the
//! group operates at.
//!
//! Conjugacy makes the posterior the prior's own family with updated hyperparameters. The
//! update is arithmetic; what the library decides is which rows it may read, whether what
//! comes out is a distribution, which coordinates a group holds, and where its draws go.
use crate::catalog::common::every_same;
use crate::config::{Config, Entry, Scope, Section};
use crate::data::{gather, DataView, Group, Members, NumericColumn};
use crate::double::Double;
use crate::draws::{push_one_each, push_two_each, ParamId, ParamName};
use crate::errors::{BayesError, BayesResult, Fault, Message};
use crate::formula::Formula;
use crate::panel::{read_panel, Panel, PanelView};
use crate::readiness::{Readiness, Verdict};
use crate::reading::{read_columns, Entries, Reading};
use crate::scatter::{group_batch, slabs, Slab};
use crate::text::{decimal, push_text, same_text};
use crate::types::{EngineKind, FamilyCode, FitStatus, SampleFrom};
use vstd::prelude::*;

verus! {

/// The family of per-group conjugate posteriors.
#[derive(Debug)]
pub struct ConjugateAnomaly;

pub const SLOTS: [&'static str; 12] = [
    "value",
    "group",
    "likelihood",
    "exposure",
    "prior",
    "draws",
    "chains",
    "max_draw_megabytes",
    "seed",
    "engine",
    "sample_from",
    "min_obs",
];

pub const LIKELIHOODS: [&'static str; 2] = ["normal", "poisson"];

pub const NORMAL_PRIOR_SLOTS: [&'static str; 4] = ["mu0", "kappa0", "alpha0", "beta0"];

pub const POISSON_PRIOR_SLOTS: [&'static str; 2] = ["a0", "b0"];

/// The bits of -1.
pub const MINUS_ONE_BITS: u64 = 0xBFF0_0000_0000_0000;

/// The bits of -1/2.
pub const MINUS_HALF_BITS: u64 = 0xBFE0_0000_0000_0000;

/// The bits of 1/2.
pub const HALF_BITS: u64 = 0x3FE0_0000_0000_0000;

pub const ID: &'static str = "conjugate_anomaly";

pub const DESCRIPTION: &'static str =
    "Closed-form Normal or Poisson posteriors per group, for anomaly and \
     outlier questions answered as posterior tail probabilities.";

pub const NO_EXPOSURE_TERM: &'static str =
    "only applies to the Poisson likelihood; a Normal model has no exposure term";

pub const IMPROPER_PRIOR: &'static str =
    "a prior predictive check needs a proper prior, and this fit's prior \
     is improper. The defaults are reference priors, which are scale-free \
     precisely because they carry no finite mass -- there is nothing to \
     draw from. Set an explicit prior: ";

pub const NORMAL_PRIOR_NEEDED: &'static str =
    "prior.kappa0, prior.alpha0 and prior.beta0 must all be > 0";

pub const POISSON_PRIOR_NEEDED: &'static str = "prior.a0 and prior.b0 must both be > 0";

pub const ALPHA_NEEDED: &'static str = "must be >= -1 (reference values are -1, -0.5 or 0), got ";

pub const COUNT_NEEDED: &'static str = "a Poisson likelihood needs non-negative whole counts; row ";

pub const NO_RATE: &'static str =
    " events over zero \
     exposure, which no rate can produce. Drop the row, or \
     supply the exposure it was observed over";

pub const IDENTICAL: &'static str =
    " observations are identical, so the variance is not estimable";

pub const TOO_FEW: &'static str =
    " observations are too few to identify a mean and a variance";

pub const NO_EXPOSURE: &'static str =
    "': total exposure is zero, so no rate is identifiable";

pub const NO_GROUPS: &'static str = "no groups survived null filtering";

pub const NOTHING_TO_DRAW: &'static str =
    "this fit's prior is improper, so there is nothing to draw from";

/// The distribution of an observation.
#[derive(Debug, Clone, Copy, PartialEq, Eq, Structural)]
pub enum Likelihood {
    Normal,
    Poisson,
}

impl Likelihood {
    /// What a name stands for.
    pub open spec fn named(name: Seq<char>) -> Result<Likelihood, Fault> {
        if name == "normal"@ {
            Ok(Likelihood::Normal)
        } else if name == "poisson"@ {
            Ok(Likelihood::Poisson)
        } else {
            Err(Fault::config("likelihood"@, "unknown: "@ + name))
        }
    }

    /// How many parameters a group has: a mean and a scale, or a rate.
    pub open spec fn spec_width(self) -> nat {
        match self {
            Likelihood::Normal => 2,
            Likelihood::Poisson => 1,
        }
    }

    /// The fewest observations with which a group is reported as ready, unless a request
    /// says otherwise. One count is informative about a rate; one number says nothing
    /// about a spread.
    pub open spec fn spec_min_obs(self) -> usize {
        match self {
            Likelihood::Normal => 2,
            Likelihood::Poisson => 1,
        }
    }

    pub fn parse(name: &str) -> (r: BayesResult<Likelihood>)
        ensures
            crate::errors::plain(r) == Likelihood::named(name@),
    {
        if same_text(name, "normal") {
            Ok(Likelihood::Normal)
        } else if same_text(name, "poisson") {
            Ok(Likelihood::Poisson)
        } else {
            Err(BayesError::config_text("likelihood", "unknown: ".to_owned().concat(name)))
        }
    }

    pub fn width(self) -> (r: usize)
        ensures
            r == self.spec_width(),
    {
        match self {
            Likelihood::Normal => 2,
            Likelihood::Poisson => 1,
        }
    }

    pub fn default_min_obs(self) -> (r: usize)
        ensures
            r == self.spec_min_obs(),
    {
        match self {
            Likelihood::Normal => 2,
            Likelihood::Poisson => 1,
        }
    }
}

/// The hyperparameters of a group's posterior, or of its prior.
#[derive(Debug, Clone, Copy, PartialEq, Eq, Structural)]
pub enum PosteriorKind {
    /// Normal-Inverse-Gamma over a mean and a variance.
    Nig { mu_n: Double, kappa_n: Double, alpha_n: Double, beta_n: Double },
    /// Gamma, by shape and rate, over a rate.
    Gamma { a_n: Double, b_n: Double },
}

impl PosteriorKind {
    /// Whether it is a distribution at all.
    pub open spec fn proper(self) -> bool {
        match self {
            PosteriorKind::Nig { mu_n, kappa_n, alpha_n, beta_n } => mu_n.finite()
                && kappa_n.positive() && alpha_n.positive() && beta_n.positive(),
            PosteriorKind::Gamma { a_n, b_n } => a_n.positive() && b_n.positive(),
        }
    }

    /// What stands for a posterior that does not exist.
    pub open spec fn spec_nothing() -> PosteriorKind {
        let nan = Double::spec_nan();
        PosteriorKind::Nig { mu_n: nan, kappa_n: nan, alpha_n: nan, beta_n: nan }
    }

    /// Whether it is a distribution at all.
    pub fn is_proper(self) -> (r: bool)
        ensures
            r == self.proper(),
    {
        match self {
            PosteriorKind::Nig { mu_n, kappa_n, alpha_n, beta_n } => mu_n.is_finite()
                && kappa_n.is_positive() && alpha_n.is_positive() && beta_n.is_positive(),
            PosteriorKind::Gamma { a_n, b_n } => a_n.is_positive() && b_n.is_positive(),
        }
    }

    fn nothing() -> (r: PosteriorKind)
        ensures
            r == PosteriorKind::spec_nothing(),
    {
        let nan = Double::not_a_number();
        PosteriorKind::Nig { mu_n: nan, kappa_n: nan, alpha_n: nan, beta_n: nan }
    }
}

/// Prior hyperparameters. Those of the likelihood that a request does not name are zero.
#[derive(Debug, Clone, Copy)]
pub struct Prior {
    pub mu0: Double,
    pub kappa0: Double,
    pub alpha0: Double,
    pub beta0: Double,
    pub a0: Double,
    pub b0: Double,
}

impl Prior {
    /// The shape of the variance's prior: any number from -1 on.
    pub open spec fn alpha_asked(cfg: Scope) -> Result<Double, Fault> {
        match cfg.number("alpha0"@, Double { bits: MINUS_HALF_BITS }) {
            Err(f) => Err(f),
            Ok(a) => if a.lt(Double { bits: MINUS_ONE_BITS }) {
                Err(Fault::config_showing("prior.alpha0"@, ALPHA_NEEDED@, a, ""@))
            } else {
                Ok(a)
            },
        }
    }

    pub open spec fn normal_asked(cfg: Scope) -> Result<Prior, Fault> {
        let zero = Double { bits: 0 };
        let mu0 = cfg.number("mu0"@, zero);
        let kappa0 = cfg.non_negative_number("kappa0"@, zero);
        let alpha0 = Prior::alpha_asked(cfg);
        let beta0 = cfg.non_negative_number("beta0"@, zero);
        if let Some(f) = cfg.unknown_slot(crate::text::words(NORMAL_PRIOR_SLOTS@)) {
            Err(f)
        } else if let Err(f) = mu0 {
            Err(f)
        } else if let Err(f) = kappa0 {
            Err(f)
        } else if let Err(f) = alpha0 {
            Err(f)
        } else if let Err(f) = beta0 {
            Err(f)
        } else {
            Ok(
                Prior {
                    mu0: mu0->Ok_0,
                    kappa0: kappa0->Ok_0,
                    alpha0: alpha0->Ok_0,
                    beta0: beta0->Ok_0,
                    a0: zero,
                    b0: zero,
                },
            )
        }
    }

    pub open spec fn poisson_asked(cfg: Scope) -> Result<Prior, Fault> {
        let zero = Double { bits: 0 };
        let a0 = cfg.positive_number("a0"@, Double { bits: HALF_BITS });
        let b0 = cfg.non_negative_number("b0"@, zero);
        if let Some(f) = cfg.unknown_slot(crate::text::words(POISSON_PRIOR_SLOTS@)) {
            Err(f)
        } else if let Err(f) = a0 {
            Err(f)
        } else if let Err(f) = b0 {
            Err(f)
        } else {
            Ok(
                Prior {
                    mu0: zero,
                    kappa0: zero,
                    alpha0: zero,
                    beta0: zero,
                    a0: a0->Ok_0,
                    b0: b0->Ok_0,
                },
            )
        }
    }

    /// The prior that a table of options asks for. The defaults are the reference priors,
    /// which make no claim about units.
    pub open spec fn asked(cfg: Scope, likelihood: Likelihood) -> Result<Prior, Fault> {
        match likelihood {
            Likelihood::Normal => Prior::normal_asked(cfg),
            Likelihood::Poisson => Prior::poisson_asked(cfg),
        }
    }

    /// The prior in the form of the posterior.
    pub open spec fn kind(self, likelihood: Likelihood) -> PosteriorKind {
        match likelihood {
            Likelihood::Normal => PosteriorKind::Nig {
                mu_n: self.mu0,
                kappa_n: self.kappa0,
                alpha_n: self.alpha0,
                beta_n: self.beta0,
            },
            Likelihood::Poisson => PosteriorKind::Gamma { a_n: self.a0, b_n: self.b0 },
        }
    }

    /// Whether the prior is a distribution to draw from.
    pub open spec fn proper(self, likelihood: Likelihood) -> bool {
        match likelihood {
            Likelihood::Normal => self.kappa0.positive() && self.alpha0.positive()
                && self.beta0.positive(),
            Likelihood::Poisson => self.a0.positive() && self.b0.positive(),
        }
    }

    fn parse_normal(cfg: &Section) -> (r: BayesResult<Prior>)
        ensures
            crate::errors::plain(r) == Prior::normal_asked(cfg@),
    {
        cfg.reject_unknown(&NORMAL_PRIOR_SLOTS)?;
        let zero = Double::zero();
        let mu0 = cfg.f64_or("mu0", zero)?;
        let kappa0 = cfg.non_negative_f64_or("kappa0", zero)?;
        let alpha0 = cfg.f64_or("alpha0", Double { bits: MINUS_HALF_BITS })?;
        if alpha0.less_than(Double { bits: MINUS_ONE_BITS }) {
            return Err(
                BayesError::config_number("prior.alpha0", ALPHA_NEEDED.to_owned(), alpha0, ""),
            );
        }
        let beta0 = cfg.non_negative_f64_or("beta0", zero)?;
        Ok(Prior { mu0, kappa0, alpha0, beta0, a0: zero, b0: zero })
    }

    fn parse_poisson(cfg: &Section) -> (r: BayesResult<Prior>)
        ensures
            crate::errors::plain(r) == Prior::poisson_asked(cfg@),
    {
        cfg.reject_unknown(&POISSON_PRIOR_SLOTS)?;
        let zero = Double::zero();
        let a0 = cfg.positive_f64_or("a0", Double { bits: HALF_BITS })?;
        let b0 = cfg.non_negative_f64_or("b0", zero)?;
        Ok(Prior { mu0: zero, kappa0: zero, alpha0: zero, beta0: zero, a0, b0 })
    }

    pub fn parse(cfg: &Section, likelihood: Likelihood) -> (r: BayesResult<Prior>)
        ensures
            crate::errors::plain(r) == Prior::asked(cfg@, likelihood),
    {
        match likelihood {
            Likelihood::Normal => Prior::parse_normal(cfg),
            Likelihood::Poisson => Prior::parse_poisson(cfg),
        }
    }

    /// The prior in the form of the posterior.
    pub fn as_kind(&self, likelihood: Likelihood) -> (r: PosteriorKind)
        ensures
            r == self.kind(likelihood),
    {
        match likelihood {
            Likelihood::Normal => PosteriorKind::Nig {
                mu_n: self.mu0,
                kappa_n: self.kappa0,
                alpha_n: self.alpha0,
                beta_n: self.beta0,
            },
            Likelihood::Poisson => PosteriorKind::Gamma { a_n: self.a0, b_n: self.b0 },
        }
    }

    /// Whether the prior is a distribution to draw from.
    pub fn is_proper(&self, likelihood: Likelihood) -> (r: bool)
        ensures
            r == self.proper(likelihood),
    {
        match likelihood {
            Likelihood::Normal => self.kappa0.is_positive() && self.alpha0.is_positive()
                && self.beta0.is_positive(),
            Likelihood::Poisson => self.a0.is_positive() && self.b0.is_positive(),
        }
    }
}

/// What a request asks for.
#[derive(Debug)]
pub struct Request {
    pub value: String,
    pub group: Option<String>,
    pub likelihood: Likelihood,
    pub exposure: Option<String>,
    pub min_obs: usize,
    pub prior: Prior,
}

/// What a [`Request`] says.
#[verifier::ext_equal]
pub struct Asked {
    pub value: Seq<char>,
    pub group: Option<Seq<char>>,
    pub likelihood: Likelihood,
    pub exposure: Option<Seq<char>>,
    pub min_obs: usize,
    pub prior: Prior,
}

impl View for Request {
    type V = Asked;

    open spec fn view(&self) -> Asked {
        Asked {
            value: self.value@,
            group: crate::data::name_of(self.group),
            likelihood: self.likelihood,
            exposure: crate::data::name_of(self.exposure),
            min_obs: self.min_obs,
            prior: self.prior,
        }
    }
}

/// What a prior that is a distribution would need.
pub open spec fn prior_needed(likelihood: Likelihood) -> Seq<char> {
    match likelihood {
        Likelihood::Normal => NORMAL_PRIOR_NEEDED@,
        Likelihood::Poisson => POISSON_PRIOR_NEEDED@,
    }
}

impl Asked {
    /// The request that the options make, or the first thing wrong with them.
    pub open spec fn of(cfg: Scope) -> Result<Asked, Fault> {
        let value = cfg.required_text("value"@);
        let group = cfg.optional_text("group"@);
        let chosen = cfg.choice("likelihood"@, crate::text::words(LIKELIHOODS@), "normal"@);
        let likelihood = Likelihood::named(chosen->Ok_0);
        let exposure = cfg.optional_text("exposure"@);
        let min_obs = cfg.count_in(
            "min_obs"@,
            likelihood->Ok_0.spec_min_obs(),
            1,
            1_000_000,
        );
        let table = cfg.table("prior"@);
        let prior = Prior::asked(table->Ok_0, likelihood->Ok_0);
        let from_prior = cfg.prior_draws_requested();
        if let Some(f) = cfg.unknown_slot(crate::text::words(SLOTS@)) {
            Err(f)
        } else if let Err(f) = value {
            Err(f)
        } else if let Err(f) = group {
            Err(f)
        } else if let Err(f) = chosen {
            Err(f)
        } else if let Err(f) = likelihood {
            Err(f)
        } else if let Err(f) = exposure {
            Err(f)
        } else if let Err(f) = min_obs {
            Err(f)
        } else if exposure->Ok_0 is Some && likelihood->Ok_0 == Likelihood::Normal {
            Err(Fault::config("exposure"@, NO_EXPOSURE_TERM@))
        } else if let Err(f) = table {
            Err(f)
        } else if let Err(f) = prior {
            Err(f)
        } else if let Err(f) = from_prior {
            Err(f)
        } else if from_prior->Ok_0 && !prior->Ok_0.proper(likelihood->Ok_0) {
            Err(
                Fault::config("sample_from"@, IMPROPER_PRIOR@ + prior_needed(likelihood->Ok_0)),
            )
        } else {
            Ok(
                Asked {
                    value: value->Ok_0,
                    group: group->Ok_0,
                    likelihood: likelihood->Ok_0,
                    exposure: exposure->Ok_0,
                    min_obs: min_obs->Ok_0,
                    prior: prior->Ok_0,
                },
            )
        }
    }

    /// The number columns that the request reads.
    pub open spec fn columns(self) -> Seq<Seq<char>> {
        seq![self.value] + match self.exposure {
            Some(name) => seq![name],
            None => Seq::empty(),
        }
    }
}

impl Request {
    /// Reads a request from its options.
    pub fn parse(cfg: &Config) -> (r: BayesResult<Request>)
        ensures
            crate::errors::outcome(r) == Asked::of(cfg@),
    {
        let cfg = cfg.root();
        cfg.reject_unknown(&SLOTS)?;
        let value = cfg.require_str("value")?;
        let group = cfg.opt_str("group")?;
        let chosen = cfg.one_of("likelihood", &LIKELIHOODS, "normal")?;
        let likelihood = Likelihood::parse(chosen.as_str())?;
        let exposure = cfg.opt_str("exposure")?;
        let min_obs = cfg.usize_in("min_obs", likelihood.default_min_obs(), 1, 1_000_000)?;
        if exposure.is_some() && likelihood == Likelihood::Normal {
            return Err(BayesError::config("exposure", NO_EXPOSURE_TERM));
        }
        let table = cfg.nested("prior")?;
        let prior = Prior::parse(&table, likelihood)?;
        if cfg.asks_for_prior_draws()? && !prior.is_proper(likelihood) {
            let needed = match likelihood {
                Likelihood::Normal => NORMAL_PRIOR_NEEDED,
                Likelihood::Poisson => POISSON_PRIOR_NEEDED,
            };
            return Err(
                BayesError::config_text("sample_from", IMPROPER_PRIOR.to_owned().concat(needed)),
            );
        }
        Ok(Request { value, group, likelihood, exposure, min_obs, prior })
    }

    /// The number columns that the request reads.
    fn list_columns(&self) -> (r: Vec<String>)
        ensures
            crate::text::texts(r@) == self@.columns(),
    {
        let mut names: Vec<String> = Vec::new();
        proof {
            assert(crate::text::texts(names@) =~= Seq::<Seq<char>>::empty());
        }
        push_text(&mut names, self.value.as_str());
        match &self.exposure {
            Some(name) => {
                push_text(&mut names, name.as_str());
            },
            None => {},
        }
        proof {
            assert(crate::text::texts(names@) =~= self@.columns());
        }
        names
    }
}

/// What a group's posterior is computed from.
#[derive(Debug)]
pub struct GroupData {
    pub key: String,
    pub values: Vec<Double>,
    pub exposures: Option<Vec<Double>>,
    /// Observations that say something: those with an exposure above zero, or all of them
    /// where there is no exposure.
    pub informative: usize,
}

/// What a [`GroupData`] holds.
#[verifier::ext_equal]
pub struct Sampled {
    pub key: Seq<char>,
    pub values: Seq<Double>,
    pub exposures: Option<Seq<Double>>,
}

impl View for GroupData {
    type V = Sampled;

    open spec fn view(&self) -> Sampled {
        Sampled { key: self.key@, values: self.values@, exposures: crate::catalog::common::list_of(self.exposures) }
    }
}

/// How many of the first `n` numbers are above zero.
pub open spec fn positive_count(s: Seq<Double>, n: nat) -> nat
    decreases n,
{
    if n == 0 {
        0
    } else {
        positive_count(s, (n - 1) as nat) + if s[n - 1].positive() {
            1nat
        } else {
            0nat
        }
    }
}

impl Sampled {
    /// How many observations say something.
    pub open spec fn informative(self) -> nat {
        match self.exposures {
            None => self.values.len(),
            Some(es) => positive_count(es, es.len()),
        }
    }

    /// "row i of group 'key'"
    pub open spec fn row_name(self, i: int) -> Seq<char> {
        crate::text::numeral(i as nat) + " of group '"@ + self.key + "'"@
    }

    /// Row by row, what keeps a value from being a count.
    pub open spec fn count_checks(self) -> Seq<Option<Fault>> {
        Seq::new(
            self.values.len(),
            |i: int|
                if self.values[i].whole_count() {
                    None
                } else {
                    Some(
                        Fault::config_showing(
                            "value"@,
                            COUNT_NEEDED@ + self.row_name(i) + " is "@,
                            self.values[i],
                            ""@,
                        ),
                    )
                },
        )
    }

    /// Row by row, what is wrong with an exposure: below zero, or not above it although
    /// something happened.
    pub open spec fn exposure_checks(self, es: Seq<Double>) -> Seq<Option<Fault>> {
        Seq::new(
            es.len(),
            |i: int|
                if es[i].below_zero() {
                    Some(
                        Fault::config_showing(
                            "exposure"@,
                            "must be non-negative; row "@ + self.row_name(i) + " is "@,
                            es[i],
                            ""@,
                        ),
                    )
                } else if !es[i].positive() && self.values[i].positive() {
                    Some(
                        Fault::config_showing(
                            "exposure"@,
                            "row "@ + self.row_name(i) + " has "@,
                            self.values[i],
                            NO_RATE@,
                        ),
                    )
                } else {
                    None
                },
        )
    }

    /// What keeps a group from being a record of counts, if anything.
    pub open spec fn fault(self) -> Option<Fault> {
        match crate::data::first_fault(self.count_checks()) {
            Some(f) => Some(f),
            None => match self.exposures {
                None => None,
                Some(es) => crate::data::first_fault(self.exposure_checks(es)),
            },
        }
    }
}

impl GroupData {
    pub open spec fn wf(self) -> bool {
        &&& self.informative == self@.informative()
        &&& self@.exposures matches Some(es) ==> es.len() == self.values@.len()
    }

    fn row_text(&self, i: usize) -> (r: String)
        ensures
            r@ == self@.row_name(i as int),
    {
        decimal(i).concat(" of group '").concat(self.key.as_str()).concat("'")
    }

    fn check_counts(&self) -> (r: BayesResult<()>)
        ensures
            match r {
                Ok(_) => crate::data::first_fault(self@.count_checks()) is None,
                Err(e) => crate::data::first_fault(self@.count_checks()) == Some(e@),
            },
    {
        let ghost checks = self@.count_checks();
        let mut k: usize = 0;
        while k < self.values.len()
            invariant
                k <= self.values@.len(),
                checks == self@.count_checks(),
                forall|i: int| 0 <= i < k ==> (#[trigger] checks[i]) is None,
            decreases self.values@.len() - k,
        {
            if !self.values[k].is_whole_count() {
                let before = COUNT_NEEDED.to_owned().concat(self.row_text(k).as_str()).concat(
                    " is ",
                );
                let e = BayesError::config_number("value", before, self.values[k], "");
                proof {
                    assert(checks[k as int] == Some(e@));
                    crate::data::lemma_first_fault(checks, k as int);
                }
                return Err(e);
            }
            k += 1;
        }
        proof {
            crate::data::lemma_first_fault(checks, k as int);
        }
        Ok(())
    }

    fn check_exposures(&self, es: &Vec<Double>) -> (r: BayesResult<()>)
        requires
            es@.len() == self.values@.len(),
        ensures
            match r {
                Ok(_) => crate::data::first_fault(self@.exposure_checks(es@)) is None,
                Err(e) => crate::data::first_fault(self@.exposure_checks(es@)) == Some(e@),
            },
    {
        let ghost checks = self@.exposure_checks(es@);
        let mut k: usize = 0;
        while k < es.len()
            invariant
                k <= es@.len(),
                es@.len() == self.values@.len(),
                checks == self@.exposure_checks(es@),
                forall|i: int| 0 <= i < k ==> (#[trigger] checks[i]) is None,
            decreases es@.len() - k,
        {
            if es[k].is_below_zero() {
                let before = "must be non-negative; row ".to_owned().concat(
                    self.row_text(k).as_str(),
                ).concat(" is ");
                let e = BayesError::config_number("exposure", before, es[k], "");
                proof {
                    assert(checks[k as int] == Some(e@));
                    crate::data::lemma_first_fault(checks, k as int);
                }
                return Err(e);
            }
            if !es[k].is_positive() && self.values[k].is_positive() {
                let before = "row ".to_owned().concat(self.row_text(k).as_str()).concat(" has ");
                let e = BayesError::config_number("exposure", before, self.values[k], NO_RATE);
                proof {
                    assert(checks[k as int] == Some(e@));
                    crate::data::lemma_first_fault(checks, k as int);
                }
                return Err(e);
            }
            k += 1;
        }
        proof {
            crate::data::lemma_first_fault(checks, k as int);
        }
        Ok(())
    }

    fn check(&self) -> (r: BayesResult<()>)
        requires
            self.wf(),
        ensures
            match r {
                Ok(_) => self@.fault() is None,
                Err(e) => self@.fault() == Some(e@),
            },
    {
        self.check_counts()?;
        match &self.exposures {
            Some(es) => self.check_exposures(es),
            None => Ok(()),
        }
    }

    fn count_positive(es: &Vec<Double>) -> (r: usize)
        ensures
            r == positive_count(es@, es@.len()),
    {
        let mut n: usize = 0;
        let mut k: usize = 0;
        while k < es.len()
            invariant
                k <= es@.len(),
                n <= k,
                n == positive_count(es@, k as nat),
            decreases es@.len() - k,
        {
            if es[k].is_positive() {
                n += 1;
            }
            k += 1;
        }
        n
    }

    fn read(group: &Group, values: &NumericColumn, exposures: Option<&NumericColumn>) -> (r:
        GroupData)
        requires
            crate::data::rows_within(group.rows@, values.values@.len() as int),
            exposures matches Some(e) ==> crate::data::rows_within(
                group.rows@,
                e.values@.len() as int,
            ),
        ensures
            r@ == group_read(group@, *values, crate::catalog::common::column_of(exposures)),
            r.wf(),
    {
        let ys = gather(values, &group.rows);
        let (es, informative) = match exposures {
            Some(column) => {
                let es = gather(column, &group.rows);
                let n = GroupData::count_positive(&es);
                (Some(es), n)
            },
            None => (None, ys.len()),
        };
        GroupData { key: group.key.as_str().to_owned(), values: ys, exposures: es, informative }
    }
}

/// What a group's rows hold.
pub open spec fn group_read(
    group: Members,
    values: NumericColumn,
    exposures: Option<NumericColumn>,
) -> Sampled {
    Sampled {
        key: group.key,
        values: crate::data::gathered(values, group.rows),
        exposures: match exposures {
            Some(column) => Some(crate::data::gathered(column, group.rows)),
            None => None,
        },
    }
}

/// What the rows of each group hold.
pub open spec fn samples(
    groups: Seq<Members>,
    values: NumericColumn,
    exposures: Option<NumericColumn>,
) -> Seq<Sampled> {
    Seq::new(groups.len(), |g: int| group_read(groups[g], values, exposures))
}

/// What a sequence of groups holds.
pub open spec fn sampled(s: Seq<GroupData>) -> Seq<Sampled> {
    Seq::new(s.len(), |g: int| s[g]@)
}

/// Group by group, what is wrong with them: a Normal group takes any number.
pub open spec fn group_checks(likelihood: Likelihood, groups: Seq<Sampled>) -> Seq<Option<Fault>> {
    Seq::new(
        groups.len(),
        |g: int|
            match likelihood {
                Likelihood::Normal => None,
                Likelihood::Poisson => groups[g].fault(),
            },
    )
}

/// The parameters, in the order in which draws report them.
pub open spec fn param_ids(likelihood: Likelihood, keys: Seq<Seq<char>>) -> Seq<ParamId> {
    match likelihood {
        Likelihood::Normal => crate::draws::two_each(keys, "mu"@, "sigma"@),
        Likelihood::Poisson => crate::draws::one_each(keys, "lambda"@),
    }
}

/// A request with the data it is about.
#[derive(Debug)]
pub struct ConjugatePlan {
    pub likelihood: Likelihood,
    pub groups: Vec<GroupData>,
    pub params: Vec<ParamName>,
    pub n_obs: usize,
    pub prior: Prior,
    pub min_obs: usize,
}

/// What a [`ConjugatePlan`] holds.
#[verifier::ext_equal]
pub struct Planned {
    pub likelihood: Likelihood,
    pub groups: Seq<Sampled>,
    pub params: Seq<ParamId>,
    pub n_obs: usize,
    pub prior: Prior,
    pub min_obs: usize,
}

impl View for ConjugatePlan {
    type V = Planned;

    open spec fn view(&self) -> Planned {
        Planned {
            likelihood: self.likelihood,
            groups: sampled(self.groups@),
            params: crate::draws::ids(self.params@),
            n_obs: self.n_obs,
            prior: self.prior,
            min_obs: self.min_obs,
        }
    }
}

impl Planned {
    pub open spec fn of(data: DataView, asked: Asked, panel: PanelView) -> Planned {
        Planned {
            likelihood: asked.likelihood,
            groups: samples(
                panel.groups,
                data.column(asked.value)->0,
                match asked.exposure {
                    Some(name) => data.column(name),
                    None => None,
                },
            ),
            params: param_ids(asked.likelihood, panel.keys()),
            n_obs: panel.rows.len() as usize,
            prior: asked.prior,
            min_obs: asked.min_obs,
        }
    }
}

/// What a request makes of a relation: the plan of a fit, or the first thing that stands
/// in its way.
pub open spec fn planned(cfg: Scope, data: DataView) -> Result<Planned, Fault> {
    match Asked::of(cfg) {
        Err(f) => Err(f),
        Ok(asked) => match crate::panel::panel_of(data, asked.columns(), asked.group, true) {
            Err(f) => Err(f),
            Ok(panel) => {
                let plan = Planned::of(data, asked, panel);
                if let Some(f) = crate::data::first_fault(
                    group_checks(plan.likelihood, plan.groups),
                ) {
                    Err(f)
                } else {
                    Ok(plan)
                }
            },
        },
    }
}

/// What a request reads of a relation, or the first thing wrong with its options and
/// columns.
pub open spec fn reads(cfg: Scope, data: DataView) -> Result<Entries, Fault> {
    match Asked::of(cfg) {
        Err(f) => Err(f),
        Ok(asked) => crate::reading::reading_of(
            data,
            asked.columns(),
            crate::panel::group_columns(asked.group),
        ),
    }
}

/// Every row that was read belongs to a fit.
pub proof fn a_fit_holds_every_row_read(cfg: Scope, data: DataView)
    requires
        data.wf(),
    ensures
        planned(cfg, data) matches Ok(plan) ==> (reads(cfg, data) matches Ok(r) && plan.n_obs
            == r.rows.len()),
{
    if let Ok(asked) = Asked::of(cfg) {
        crate::data::usable_rows_are_no_more_than_rows(
            data,
            asked.columns(),
            crate::panel::group_columns(asked.group),
        );
    }
}

/// Two relations that were read alike give the same fit, wherever one of them gives any:
/// nothing else of a relation reaches it.
pub proof fn what_is_read_decides_the_fit(cfg: Scope, a: DataView, b: DataView)
    requires
        planned(cfg, a) is Ok,
        reads(cfg, b) is Ok,
        reads(cfg, a)->Ok_0.same_entries(reads(cfg, b)->Ok_0),
    ensures
        planned(cfg, a) == planned(cfg, b),
{
    let asked = Asked::of(cfg)->Ok_0;
    let columns = asked.columns();
    crate::reading::what_is_read_decides_the_panel(a, b, columns, asked.group, true);
    let mine = crate::panel::panel_of(a, columns, asked.group, true)->Ok_0;
    let theirs = crate::panel::panel_of(b, columns, asked.group, true)->Ok_0;
    let m = Planned::of(a, asked, mine);
    let n = Planned::of(b, asked, theirs);
    assert(columns[0] == asked.value);
    if let Some(name) = asked.exposure {
        let keys = crate::panel::group_columns(asked.group);
        crate::data::lemma_no_fault(a.presence(columns, keys));
        crate::data::lemma_no_fault(b.presence(columns, keys));
        assert(columns[1] == name);
        assert(a.presence(columns, keys)[1] is None && b.presence(columns, keys)[1] is None);
    }
    assert forall|g: int| 0 <= g < m.groups.len() implies #[trigger] m.groups[g]
        == n.groups[g] by {
        assert(mine.keys()[g] == theirs.keys()[g]);
        assert(mine.groups[g].rows.len() == theirs.groups[g].rows.len());
        assert(m.groups[g] =~= n.groups[g]);
    }
    assert(m.groups =~= n.groups);
    assert(m =~= n);
}

/// Whether the options ask for counts rather than for numbers.
pub open spec fn asks_for_counts(entries: Seq<Entry>) -> bool {
    crate::config::text_of(entries, "likelihood"@) == Some("poisson"@)
}

/// Whether the table of a prior of a mean and a variance may be written as it is.
pub open spec fn normal_prior_is_sound(entries: Seq<Entry>) -> bool {
    &&& crate::config::only(entries, seq!["mu0"@, "kappa0"@, "alpha0"@, "beta0"@])
    &&& crate::config::takes_number(entries, "mu0"@)
    &&& crate::config::takes_non_negative(entries, "kappa0"@)
    &&& crate::config::takes_number(entries, "alpha0"@)
    &&& crate::config::number_or(entries, "alpha0"@, Double { bits: 0xBFE0_0000_0000_0000 }).scaled()
        >= -crate::double::one_scaled()
    &&& crate::config::takes_non_negative(entries, "beta0"@)
}

/// Whether the table of a prior of a rate may be written as it is.
pub open spec fn poisson_prior_is_sound(entries: Seq<Entry>) -> bool {
    &&& crate::config::only(entries, seq!["a0"@, "b0"@])
    &&& crate::config::takes_positive(entries, "a0"@)
    &&& crate::config::takes_non_negative(entries, "b0"@)
}

/// Whether a prior is the one that its table asks for: each hyperparameter is the number in
/// the slot of its own name, and its default where nothing is written.
pub open spec fn prior_is_as_written(counts: bool, entries: Seq<Entry>, prior: Prior) -> bool {
    let zero = Double { bits: 0 };
    if counts {
        &&& prior.a0 == crate::config::number_or(
            entries,
            "a0"@,
            Double { bits: 0x3FE0_0000_0000_0000 },
        )
        &&& prior.b0 == crate::config::number_or(entries, "b0"@, zero)
    } else {
        &&& prior.mu0 == crate::config::number_or(entries, "mu0"@, zero)
        &&& prior.kappa0 == crate::config::number_or(entries, "kappa0"@, zero)
        &&& prior.alpha0 == crate::config::number_or(
            entries,
            "alpha0"@,
            Double { bits: 0xBFE0_0000_0000_0000 },
        )
        &&& prior.beta0 == crate::config::number_or(entries, "beta0"@, zero)
    }
}

/// Whether the prior that a table asks for is a distribution: every hyperparameter but a
/// location is above zero.
pub open spec fn prior_has_mass(counts: bool, entries: Seq<Entry>) -> bool {
    let zero = Double { bits: 0 };
    if counts {
        &&& crate::config::number_or(
            entries,
            "a0"@,
            Double { bits: 0x3FE0_0000_0000_0000 },
        ).scaled() > 0
        &&& crate::config::number_or(entries, "b0"@, zero).scaled() > 0
    } else {
        &&& crate::config::number_or(entries, "kappa0"@, zero).scaled() > 0
        &&& crate::config::number_or(entries, "alpha0"@, Double { bits: 0xBFE0_0000_0000_0000 }).scaled() > 0
        &&& crate::config::number_or(entries, "beta0"@, zero).scaled() > 0
    }
}

proof fn lemma_normal_prior(cfg: Scope)
    ensures
        Prior::normal_asked(cfg) is Ok <==> normal_prior_is_sound(cfg.entries),
        Prior::normal_asked(cfg) matches Ok(prior) ==> prior_is_as_written(
            false,
            cfg.entries,
            prior,
        ) && (prior.proper(Likelihood::Normal) <==> prior_has_mass(false, cfg.entries)),
{
    let zero = Double { bits: 0 };
    let half = Double { bits: 0x3FE0_0000_0000_0000 };
    let one = Double { bits: 0x3FF0_0000_0000_0000 };
    let known = crate::text::words(NORMAL_PRIOR_SLOTS@);
    assert(known =~= seq!["mu0"@, "kappa0"@, "alpha0"@, "beta0"@]);
    crate::config::an_unknown_slot_is_named_by_its_path(cfg, known);
    crate::config::a_number_slot_gives_the_number_written(cfg, "mu0"@, zero);
    crate::config::a_number_slot_gives_the_number_written(cfg, "kappa0"@, zero);
    crate::config::a_number_slot_gives_the_number_written(
        cfg,
        "alpha0"@,
        Double { bits: 0xBFE0_0000_0000_0000 },
    );
    crate::config::a_number_slot_gives_the_number_written(cfg, "beta0"@, zero);
    crate::double::zero_is_nothing();
    crate::double::the_bits_of_a_number_order_it(half, Double { bits: 0xBFE0_0000_0000_0000 });
    crate::double::the_bits_of_a_number_order_it(one, Double { bits: 0xBFF0_0000_0000_0000 });
    crate::double::the_bits_of_a_number_order_it(half, one);
}

proof fn lemma_poisson_prior(cfg: Scope)
    ensures
        Prior::poisson_asked(cfg) is Ok <==> poisson_prior_is_sound(cfg.entries),
        Prior::poisson_asked(cfg) matches Ok(prior) ==> prior_is_as_written(
            true,
            cfg.entries,
            prior,
        ) && (prior.proper(Likelihood::Poisson) <==> prior_has_mass(true, cfg.entries)),
{
    let zero = Double { bits: 0 };
    let half = Double { bits: 0x3FE0_0000_0000_0000 };
    let known = crate::text::words(POISSON_PRIOR_SLOTS@);
    assert(known =~= seq!["a0"@, "b0"@]);
    crate::config::an_unknown_slot_is_named_by_its_path(cfg, known);
    crate::config::a_number_slot_gives_the_number_written(cfg, "a0"@, half);
    crate::config::a_number_slot_gives_the_number_written(cfg, "b0"@, zero);
    crate::double::zero_is_nothing();
    crate::double::the_bits_of_a_number_order_it(zero, half);
}

/// Whether the options of a request may be written as they are: an exposure goes with counts
/// alone, and draws from the prior need one that is a distribution.
pub open spec fn request_is_sound(entries: Seq<Entry>) -> bool {
    let counts = asks_for_counts(entries);
    let table = crate::config::table_of(entries, "prior"@);
    &&& crate::config::only(
        entries,
        seq![
            "value"@,
            "group"@,
            "likelihood"@,
            "exposure"@,
            "prior"@,
            "draws"@,
            "chains"@,
            "max_draw_megabytes"@,
            "seed"@,
            "engine"@,
            "sample_from"@,
            "min_obs"@,
        ],
    )
    &&& crate::config::text_of(entries, "value"@) is Some
    &&& crate::config::takes_text(entries, "group"@)
    &&& crate::config::takes_text(entries, "likelihood"@)
    &&& crate::config::text_of(entries, "likelihood"@) matches Some(s) ==> s == "normal"@ || s
        == "poisson"@
    &&& crate::config::takes_text(entries, "exposure"@)
    &&& crate::config::text_of(entries, "exposure"@) is Some ==> counts
    &&& crate::config::takes_count(entries, "min_obs"@, 1, 1_000_000)
    &&& crate::config::takes_table(entries, "prior"@)
    &&& if counts {
        poisson_prior_is_sound(table)
    } else {
        normal_prior_is_sound(table)
    }
    &&& crate::config::takes_text(entries, "sample_from"@)
    &&& crate::config::text_of(entries, "sample_from"@) == Some("prior"@) ==> prior_has_mass(
        counts,
        table,
    )
}

/// A request is what its options say, each taken from the slot of its own name, and it is
/// served exactly when its options may be written as they are.
pub proof fn a_request_is_what_its_options_say(cfg: Scope)
    ensures
        Asked::of(cfg) is Ok <==> request_is_sound(cfg.entries),
        Asked::of(cfg) matches Ok(asked) ==> {
            let e = cfg.entries;
            let counts = asks_for_counts(e);
            let table = crate::config::table_of(e, "prior"@);
            &&& Some(asked.value) == crate::config::text_of(e, "value"@)
            &&& asked.group == crate::config::text_of(e, "group"@)
            &&& asked.exposure == crate::config::text_of(e, "exposure"@)
            &&& asked.likelihood == if counts {
                Likelihood::Poisson
            } else {
                Likelihood::Normal
            }
            &&& crate::config::counts_or(
                e,
                "min_obs"@,
                if counts {
                    1
                } else {
                    2
                },
                asked.min_obs as nat,
            )
            &&& prior_is_as_written(counts, table, asked.prior)
            &&& asked.prior.proper(asked.likelihood) <==> prior_has_mass(counts, table)
        },
{
    reveal_strlit("normal");
    reveal_strlit("poisson");
    let known = crate::text::words(SLOTS@);
    assert(known =~= seq![
        "value"@,
        "group"@,
        "likelihood"@,
        "exposure"@,
        "prior"@,
        "draws"@,
        "chains"@,
        "max_draw_megabytes"@,
        "seed"@,
        "engine"@,
        "sample_from"@,
        "min_obs"@,
    ]);
    crate::config::an_unknown_slot_is_named_by_its_path(cfg, known);
    crate::config::a_text_slot_gives_the_text_written(cfg, "value"@);
    crate::config::a_text_slot_gives_the_text_written(cfg, "group"@);
    crate::config::a_text_slot_gives_the_text_written(cfg, "exposure"@);
    let admitted = crate::text::words(LIKELIHOODS@);
    assert(admitted =~= seq!["normal"@, "poisson"@]);
    assert(admitted[0] == "normal"@ && admitted[1] == "poisson"@);
    crate::config::a_choice_is_the_word_written(cfg, "likelihood"@, admitted, "normal"@);
    crate::config::a_count_slot_gives_the_count_written(cfg, "min_obs"@, 1, 1, 1_000_000);
    crate::config::a_count_slot_gives_the_count_written(cfg, "min_obs"@, 2, 1, 1_000_000);
    crate::config::an_engine_and_a_source_are_asked_for_by_name(cfg);
    crate::config::a_text_slot_gives_the_text_written(cfg, "prior"@);
    if let Ok(table) = cfg.table("prior"@) {
        lemma_normal_prior(table);
        lemma_poisson_prior(table);
    }
}

/// The names of the number columns that a request names.
pub open spec fn columns_named(entries: Seq<Entry>) -> Seq<Seq<char>> {
    let value = crate::config::text_of(entries, "value"@)->0;
    match crate::config::text_of(entries, "exposure"@) {
        Some(name) => seq![value, name],
        None => seq![value],
    }
}

/// The names of the label columns that a request names.
pub open spec fn keys_named(entries: Seq<Entry>) -> Seq<Seq<char>> {
    match crate::config::text_of(entries, "group"@) {
        Some(name) => seq![name],
        None => Seq::empty(),
    }
}

/// Whether rows are those of a group: those that carry its key, in the order of the relation,
/// or all of them where no column of labels is named.
pub open spec fn are_rows_of(
    entries: Seq<Entry>,
    data: DataView,
    key: Seq<char>,
    rows: Seq<usize>,
) -> bool {
    match crate::config::text_of(entries, "group"@) {
        Some(name) => crate::panel::rows_of_label(data, columns_named(entries), name, key, rows),
        None => {
            &&& key == "__global__"@
            &&& crate::panel::each_present_row_once(
                data,
                columns_named(entries),
                Seq::empty(),
                rows,
            )
            &&& forall|i: int, j: int|
                0 <= i < j < rows.len() ==> (#[trigger] rows[i]) < (#[trigger] rows[j])
        },
    }
}

/// Whether a group holds the values, and where one is named the exposures, of its own rows:
/// a value and its exposure stand in the same row.
pub open spec fn group_holds_its_rows(
    entries: Seq<Entry>,
    data: DataView,
    group: GroupData,
    rows: Seq<usize>,
) -> bool {
    let value = data.column(crate::config::text_of(entries, "value"@)->0)->0.values@;
    &&& are_rows_of(entries, data, group.key@, rows)
    &&& group.values@.len() == rows.len()
    &&& forall|i: int|
        0 <= i < rows.len() ==> (#[trigger] group.values@[i]) == value[rows[i] as int]
    &&& match crate::config::text_of(entries, "exposure"@) {
        None => group.exposures is None,
        Some(name) => {
            let exposure = data.column(name)->0.values@;
            &&& group.exposures is Some
            &&& group.exposures->0@.len() == rows.len()
            &&& forall|i: int|
                0 <= i < rows.len() ==> (#[trigger] group.exposures->0@[i])
                    == exposure[rows[i] as int]
        },
    }
}

/// Each complete row of the relation is in the group of its own label, with its own value and
/// its own exposure, and the groups follow each other in the order in which their labels
/// first appear.
#[verifier::rlimit(40)]
pub proof fn a_row_keeps_its_own_values(cfg: Config, data: DataView, plan: ConjugatePlan)
    requires
        planned(cfg@, data) == Ok::<Planned, Fault>(plan@),
    ensures
        exists|rows: Seq<Seq<usize>>| #[trigger] plan_holds_the_rows(cfg.entries@, data, plan, rows),
{
    let e = cfg.entries@;
    a_request_is_what_its_options_say(cfg@);
    let asked = Asked::of(cfg@)->Ok_0;
    let columns = asked.columns();
    assert(columns =~= columns_named(e));
    let panel = crate::panel::panel_of(data, columns, asked.group, true)->Ok_0;
    let rows = Seq::new(panel.groups.len(), |g: int| panel.groups[g].rows);
    match asked.group {
        Some(name) => {
            crate::panel::a_group_holds_the_rows_of_its_label(data, columns, name, true);
        },
        None => {
            crate::panel::an_ungrouped_panel_is_one_group(data, columns, true);
        },
    }
    crate::panel::the_rows_read_are_the_complete_ones(data, columns, keys_named(e));
    assert(plan@ == Planned::of(data, asked, panel));
    assert(plan@.groups.len() == plan.groups@.len());
    assert forall|g: int| 0 <= g < plan.groups@.len() implies group_holds_its_rows(
        e,
        data,
        #[trigger] plan.groups@[g],
        rows[g],
    ) by {
        assert(plan.groups@[g]@ == plan@.groups[g]);
        assert(panel.groups[g].rows == rows[g]);
        if let Some(name) = asked.exposure {
            assert(columns[1] == name);
            let presence = data.presence(columns, keys_named(e));
            crate::data::lemma_no_fault(presence);
            assert(presence[1] is None);
        }
    }
    assert forall|g: int, h: int| 0 <= g < h < plan.groups@.len() implies (
    #[trigger] plan.groups@[g]).key@ != (#[trigger] plan.groups@[h]).key@ && rows[g][0]
        < rows[h][0] by {
        assert(plan.groups@[g]@ == plan@.groups[g]);
        assert(plan.groups@[h]@ == plan@.groups[h]);
        assert(panel.groups[g].key == plan@.groups[g].key);
        assert(panel.groups[h].key == plan@.groups[h].key);
    }
    assert forall|row: usize|
        row < data.n_rows && #[trigger] crate::panel::all_present(
            data,
            columns_named(e),
            keys_named(e),
            row as int,
        ) implies exists|g: int| 0 <= g < rows.len() && (#[trigger] rows[g]).contains(row) by {
        match asked.group {
            Some(name) => {
                let g = choose|g: int|
                    0 <= g < panel.groups.len() && (#[trigger] panel.groups[g]).rows.contains(row);
                assert(rows[g].contains(row));
            },
            None => {
                assert(panel.groups[0].rows.contains(row));
                assert(rows[0].contains(row));
            },
        }
    }
    if asked.group is Some {
        assert forall|g: int| 0 <= g < rows.len() implies (#[trigger] rows[g]).len() > 0 by {
            assert(panel.groups[g].rows.len() > 0);
        }
    }
    assert(plan_holds_the_rows(e, data, plan, rows));
}

/// Whether the groups of a plan hold the complete rows of a relation, each in the group of
/// its own label.
pub open spec fn plan_holds_the_rows(
    entries: Seq<Entry>,
    data: DataView,
    plan: ConjugatePlan,
    rows: Seq<Seq<usize>>,
) -> bool {
    &&& rows.len() == plan.groups@.len()
    &&& forall|g: int|
        0 <= g < plan.groups@.len() ==> group_holds_its_rows(
            entries,
            data,
            #[trigger] plan.groups@[g],
            rows[g],
        )
    &&& forall|g: int, h: int|
        0 <= g < h < plan.groups@.len() ==> (#[trigger] plan.groups@[g]).key@ != (
        #[trigger] plan.groups@[h]).key@ && rows[g][0] < rows[h][0]
    &&& forall|row: usize|
        row < data.n_rows && #[trigger] crate::panel::all_present(
            data,
            columns_named(entries),
            keys_named(entries),
            row as int,
        ) ==> exists|g: int| 0 <= g < rows.len() && (#[trigger] rows[g]).contains(row)
    &&& crate::config::text_of(entries, "group"@) is None ==> rows.len() == 1
    &&& crate::config::text_of(entries, "group"@) is Some ==> forall|g: int|
        0 <= g < rows.len() ==> (#[trigger] rows[g]).len() > 0
}

/// A plan has the likelihood, the threshold and the prior that its options say: each
/// hyperparameter is the number in the slot of its own name. It counts the complete rows, and
/// its prior may be drawn from exactly where it is a distribution.
pub proof fn a_plan_carries_its_options(
    cfg: Config,
    data: DataView,
    plan: ConjugatePlan,
    rows: Seq<usize>,
)
    requires
        data.wf(),
        planned(cfg@, data) == Ok::<Planned, Fault>(plan@),
        crate::panel::each_present_row_once(
            data,
            columns_named(cfg.entries@),
            keys_named(cfg.entries@),
            rows,
        ),
    ensures
        ({
            let e = cfg.entries@;
            let counts = asks_for_counts(e);
            let table = crate::config::table_of(e, "prior"@);
            &&& plan.likelihood == if counts {
                Likelihood::Poisson
            } else {
                Likelihood::Normal
            }
            &&& prior_is_as_written(counts, table, plan.prior)
            &&& plan.prior.proper(plan.likelihood) <==> prior_has_mass(counts, table)
            &&& plan.prior.kind(plan.likelihood) == if counts {
                PosteriorKind::Gamma { a_n: plan.prior.a0, b_n: plan.prior.b0 }
            } else {
                PosteriorKind::Nig {
                    mu_n: plan.prior.mu0,
                    kappa_n: plan.prior.kappa0,
                    alpha_n: plan.prior.alpha0,
                    beta_n: plan.prior.beta0,
                }
            }
            &&& crate::config::counts_or(
                e,
                "min_obs"@,
                if counts {
                    1
                } else {
                    2
                },
                plan.min_obs as nat,
            )
            &&& plan.n_obs == rows.len()
        }),
{
    let e = cfg.entries@;
    a_request_is_what_its_options_say(cfg@);
    let asked = Asked::of(cfg@)->Ok_0;
    let columns = asked.columns();
    assert(columns =~= columns_named(e));
    let panel = crate::panel::panel_of(data, columns, asked.group, true)->Ok_0;
    assert(plan@ == Planned::of(data, asked, panel));
    let keys = crate::panel::group_columns(asked.group);
    assert(keys =~= keys_named(e));
    crate::panel::the_rows_read_are_the_complete_ones(data, columns, keys);
    crate::data::usable_rows_are_no_more_than_rows(data, columns, keys);
    crate::panel::lemma_same_rows_read(data, columns, keys, rows, panel.rows);
}

/// Whether a row may be a record of counts: a whole number of events, and where an exposure
/// is named, one that is not below zero, and above it where anything happened.
pub open spec fn row_is_sound(entries: Seq<Entry>, data: DataView, row: int) -> bool {
    let v = data.column(crate::config::text_of(entries, "value"@)->0)->0.values@[row];
    asks_for_counts(entries) ==> {
        &&& v.finite()
        &&& exists|n: nat| v.scaled() == #[trigger] (n * crate::double::one_scaled())
        &&& crate::config::text_of(entries, "exposure"@) matches Some(name) ==> {
            let x = data.column(name)->0.values@[row];
            &&& x.nan() || x.scaled() >= 0
            &&& v.scaled() > 0 ==> !x.nan() && x.scaled() > 0
        }
    }
}

/// Whether the rows of a group are sound, seen from the data that it holds.
proof fn lemma_group_is_sound(
    entries: Seq<Entry>,
    data: DataView,
    group: Sampled,
    rows: Seq<usize>,
)
    requires
        asks_for_counts(entries),
        group.values == crate::data::gathered(
            data.column(crate::config::text_of(entries, "value"@)->0)->0,
            rows,
        ),
        match crate::config::text_of(entries, "exposure"@) {
            None => group.exposures is None,
            Some(name) => group.exposures == Some(
                crate::data::gathered(data.column(name)->0, rows),
            ),
        },
    ensures
        group.fault() is None <==> forall|i: int|
            0 <= i < rows.len() ==> row_is_sound(entries, data, (#[trigger] rows[i]) as int),
{
    let counts = group.count_checks();
    crate::double::zero_is_nothing();
    assert forall|i: int| 0 <= i < counts.len() implies ((#[trigger] counts[i]) is None <==> (
    group.values[i].finite() && exists|n: nat|
        group.values[i].scaled() == #[trigger] (n * crate::double::one_scaled()))) by {
        crate::double::a_count_is_its_value(group.values[i]);
    }
    if group.fault() is None {
        crate::data::lemma_no_fault(counts);
        if let Some(es) = group.exposures {
            crate::data::lemma_no_fault(group.exposure_checks(es));
        }
        assert forall|i: int| 0 <= i < rows.len() implies row_is_sound(
            entries,
            data,
            (#[trigger] rows[i]) as int,
        ) by {
            assert(counts[i] is None);
            if let Some(es) = group.exposures {
                assert(group.exposure_checks(es)[i] is None);
            }
        }
    } else if forall|i: int|
        0 <= i < rows.len() ==> row_is_sound(entries, data, (#[trigger] rows[i]) as int) {
        assert forall|i: int| 0 <= i < counts.len() implies (#[trigger] counts[i]) is None by {
            assert(row_is_sound(entries, data, rows[i] as int));
        }
        crate::data::lemma_first_fault(counts, counts.len() as int);
        if let Some(es) = group.exposures {
            let exposed = group.exposure_checks(es);
            assert forall|i: int| 0 <= i < exposed.len() implies (#[trigger] exposed[i]) is None
                by {
                assert(row_is_sound(entries, data, rows[i] as int));
            }
            crate::data::lemma_first_fault(exposed, exposed.len() as int);
        }
    }
}

/// A plan is made exactly when the options are sound, the columns are there, no label is the
/// reserved one, and every complete row of counts is sound.
pub proof fn a_plan_is_made_exactly_when_it_can_be(cfg: Config, data: DataView, rows: Seq<usize>)
    requires
        crate::panel::each_present_row_once(
            data,
            columns_named(cfg.entries@),
            keys_named(cfg.entries@),
            rows,
        ),
    ensures
        planned(cfg@, data) is Ok <==> {
            let e = cfg.entries@;
            let names = columns_named(e);
            &&& request_is_sound(e)
            &&& forall|c: int| 0 <= c < names.len() ==> data.column(#[trigger] names[c]) is Some
            &&& crate::config::text_of(e, "group"@) matches Some(group) ==> data.key_column(
                group,
            ) is Some && forall|i: int|
                0 <= i < rows.len() ==> data.key_column(group)->0.values@[(
                #[trigger] rows[i]) as int]@ != "__global__"@
            &&& forall|i: int|
                0 <= i < rows.len() ==> row_is_sound(e, data, (#[trigger] rows[i]) as int)
        },
{
    let e = cfg.entries@;
    a_request_is_what_its_options_say(cfg@);
    if request_is_sound(e) {
        let asked = Asked::of(cfg@)->Ok_0;
        let columns = asked.columns();
        assert(columns =~= columns_named(e));
        match asked.group {
            Some(name) => {
                crate::panel::a_panel_is_read_exactly_when_it_can_be(data, columns, name, rows);
                crate::panel::a_group_holds_the_rows_of_its_label(data, columns, name, true);
            },
            None => {
                crate::panel::the_rows_read_are_the_complete_ones(data, columns, Seq::empty());
                crate::panel::an_ungrouped_panel_is_one_group(data, columns, true);
            },
        }
        if let Ok(panel) = crate::panel::panel_of(data, columns, asked.group, true) {
            lemma_groups_are_sound(cfg, data, asked, panel, rows);
        }
    }
}

proof fn lemma_groups_are_sound(
    cfg: Config,
    data: DataView,
    asked: Asked,
    panel: PanelView,
    rows: Seq<usize>,
)
    requires
        Asked::of(cfg@) == Ok::<Asked, Fault>(asked),
        crate::panel::panel_of(data, asked.columns(), asked.group, true) == Ok::<PanelView, Fault>(
            panel,
        ),
        crate::panel::each_present_row_once(
            data,
            columns_named(cfg.entries@),
            keys_named(cfg.entries@),
            rows,
        ),
    ensures
        ({
            let plan = Planned::of(data, asked, panel);
            crate::data::first_fault(group_checks(plan.likelihood, plan.groups)) is None
                <==> forall|i: int|
                0 <= i < rows.len() ==> row_is_sound(
                    cfg.entries@,
                    data,
                    (#[trigger] rows[i]) as int,
                )
        }),
{
    let e = cfg.entries@;
    a_request_is_what_its_options_say(cfg@);
    let columns = asked.columns();
    assert(columns =~= columns_named(e));
    let plan = Planned::of(data, asked, panel);
    let checks = group_checks(plan.likelihood, plan.groups);
    let keys = crate::panel::group_columns(asked.group);
    assert(keys =~= keys_named(e));
    match asked.group {
        Some(name) => {
            crate::panel::a_group_holds_the_rows_of_its_label(data, columns, name, true);
        },
        None => {
            crate::panel::an_ungrouped_panel_is_one_group(data, columns, true);
        },
    }
    crate::panel::the_rows_read_are_the_complete_ones(data, columns, keys);
    if asks_for_counts(e) {
        if let Some(name) = asked.exposure {
            assert(columns[1] == name);
            let presence = data.presence(columns, keys);
            crate::data::lemma_no_fault(presence);
            assert(presence[1] is None);
        }
        assert forall|g: int| 0 <= g < panel.groups.len() implies ((#[trigger] checks[g]) is None
            <==> forall|i: int|
            0 <= i < panel.groups[g].rows.len() ==> row_is_sound(
                e,
                data,
                (#[trigger] panel.groups[g].rows[i]) as int,
            )) by {
            lemma_group_is_sound(e, data, plan.groups[g], panel.groups[g].rows);
        }
        if crate::data::first_fault(checks) is None {
            crate::data::lemma_no_fault(checks);
            assert forall|i: int| 0 <= i < rows.len() implies row_is_sound(
                e,
                data,
                (#[trigger] rows[i]) as int,
            ) by {
                assert(crate::panel::all_present(data, columns, keys, rows[i] as int));
                lemma_some_group_has_it(data, asked, panel, rows[i]);
                let g = choose|g: int|
                    0 <= g < panel.groups.len() && (#[trigger] panel.groups[g]).rows.contains(
                        rows[i],
                    );
                assert(checks[g] is None);
                let own = panel.groups[g].rows;
                let j = choose|j: int| 0 <= j < own.len() && own[j] == rows[i];
                assert(row_is_sound(e, data, panel.groups[g].rows[j] as int));
            }
        } else if forall|i: int|
            0 <= i < rows.len() ==> row_is_sound(e, data, (#[trigger] rows[i]) as int) {
            assert forall|g: int| 0 <= g < checks.len() implies (#[trigger] checks[g]) is None by {
                assert forall|i: int| 0 <= i < panel.groups[g].rows.len() implies row_is_sound(
                    e,
                    data,
                    (#[trigger] panel.groups[g].rows[i]) as int,
                ) by {
                    let row = panel.groups[g].rows[i];
                    assert(crate::panel::all_present(data, columns, keys, row as int));
                    assert(rows.contains(row));
                    let j = choose|j: int| 0 <= j < rows.len() && rows[j] == row;
                    assert(row_is_sound(e, data, rows[j] as int));
                }
            }
            crate::data::lemma_first_fault(checks, checks.len() as int);
        }
    } else {
        assert forall|g: int| 0 <= g < checks.len() implies (#[trigger] checks[g]) is None by {}
        crate::data::lemma_first_fault(checks, checks.len() as int);
    }
}

proof fn lemma_some_group_has_it(data: DataView, asked: Asked, panel: PanelView, row: usize)
    requires
        crate::panel::panel_of(data, asked.columns(), asked.group, true) == Ok::<PanelView, Fault>(
            panel,
        ),
        row < data.n_rows,
        crate::panel::all_present(
            data,
            asked.columns(),
            crate::panel::group_columns(asked.group),
            row as int,
        ),
    ensures
        exists|g: int|
            0 <= g < panel.groups.len() && (#[trigger] panel.groups[g]).rows.contains(row),
{
    match asked.group {
        Some(name) => {
            crate::panel::a_group_holds_the_rows_of_its_label(data, asked.columns(), name, true);
        },
        None => {
            crate::panel::an_ungrouped_panel_is_one_group(data, asked.columns(), true);
            assert(panel.groups[0].rows.contains(row));
        },
    }
}

/// Every parameter of a plan is reported under its own name and the key of its own group: a
/// mean and then a scale, or a rate.
pub proof fn a_parameter_is_named_for_its_group(cfg: Config, data: DataView, plan: ConjugatePlan)
    requires
        planned(cfg@, data) == Ok::<Planned, Fault>(plan@),
    ensures
        if asks_for_counts(cfg.entries@) {
            &&& plan.params@.len() == plan.groups@.len()
            &&& forall|g: int|
                0 <= g < plan.groups@.len() ==> plan.params@[g].group_id@ == (
                #[trigger] plan.groups@[g]).key@ && plan.params@[g].name@ == "lambda"@
        } else {
            &&& plan.params@.len() == 2 * plan.groups@.len()
            &&& forall|g: int|
                0 <= g < plan.groups@.len() ==> {
                    &&& plan.params@[2 * g].group_id@ == (#[trigger] plan.groups@[g]).key@
                    &&& plan.params@[2 * g].name@ == "mu"@
                    &&& plan.params@[2 * g + 1].group_id@ == plan.groups@[g].key@
                    &&& plan.params@[2 * g + 1].name@ == "sigma"@
                }
        },
{
    a_request_is_what_its_options_say(cfg@);
    let asked = Asked::of(cfg@)->Ok_0;
    let panel = crate::panel::panel_of(data, asked.columns(), asked.group, true)->Ok_0;
    assert(plan@ == Planned::of(data, asked, panel));
    assert(plan@.groups.len() == plan.groups@.len());
    assert(plan@.params.len() == plan.params@.len());
    assert forall|g: int| 0 <= g < plan.groups@.len() implies (
    #[trigger] plan.groups@[g]).key@ == panel.keys()[g] by {
        assert(plan.groups@[g]@ == plan@.groups[g]);
    }
    assert forall|p: int| 0 <= p < plan.params@.len() implies (#[trigger] plan.params@[p])@
        == plan@.params[p] by {}
    if !asks_for_counts(cfg.entries@) {
        assert forall|g: int| 0 <= g < plan.groups@.len() implies {
            &&& plan.params@[2 * g].group_id@ == (#[trigger] plan.groups@[g]).key@
            &&& plan.params@[2 * g].name@ == "mu"@
            &&& plan.params@[2 * g + 1].group_id@ == plan.groups@[g].key@
            &&& plan.params@[2 * g + 1].name@ == "sigma"@
        } by {
            assert((2 * g) / 2 == g && (2 * g) % 2 == 0);
            assert((2 * g + 1) / 2 == g && (2 * g + 1) % 2 == 1);
            assert(plan.params@[2 * g]@ == plan@.params[2 * g]);
            assert(plan.params@[2 * g + 1]@ == plan@.params[2 * g + 1]);
        }
    }
}

impl ConjugatePlan {
    pub open spec fn wf(self) -> bool {
        &&& 2 * self.groups@.len() <= usize::MAX
        &&& self.params@.len() == self.groups@.len() * self.likelihood.spec_width()
        &&& forall|g: int| 0 <= g < self.groups@.len() ==> (#[trigger] self.groups@[g]).wf()
    }
}

fn read_groups(
    likelihood: Likelihood,
    panel: &Panel,
    values: &NumericColumn,
    exposures: Option<&NumericColumn>,
) -> (r: BayesResult<Vec<GroupData>>)
    requires
        crate::data::groups_within(panel@.groups, values.values@.len() as int),
        exposures matches Some(e) ==> e.values@.len() == values.values@.len(),
    ensures
        ({
            let all = samples(panel@.groups, *values, crate::catalog::common::column_of(exposures));
            match r {
                Ok(groups) => sampled(groups@) == all && crate::data::first_fault(
                    group_checks(likelihood, all),
                ) is None && forall|g: int|
                    0 <= g < groups@.len() ==> (#[trigger] groups@[g]).wf(),
                Err(e) => crate::data::first_fault(group_checks(likelihood, all)) == Some(e@),
            }
        }),
{
    let ghost all = samples(panel@.groups, *values, crate::catalog::common::column_of(exposures));
    let ghost checks = group_checks(likelihood, all);
    let mut groups: Vec<GroupData> = Vec::new();
    let mut k: usize = 0;
    while k < panel.groups.len()
        invariant
            k <= panel.groups@.len(),
            crate::data::groups_within(panel@.groups, values.values@.len() as int),
            exposures matches Some(e) ==> e.values@.len() == values.values@.len(),
            all == samples(panel@.groups, *values, crate::catalog::common::column_of(exposures)),
            checks == group_checks(likelihood, all),
            groups@.len() == k,
            forall|g: int|
                0 <= g < k ==> (#[trigger] groups@[g])@ == all[g] && groups@[g].wf(),
            forall|g: int| 0 <= g < k ==> (#[trigger] checks[g]) is None,
        decreases panel.groups@.len() - k,
    {
        proof {
            assert(panel@.groups[k as int] == panel.groups@[k as int]@);
            assert(crate::data::rows_within(
                panel@.groups[k as int].rows,
                values.values@.len() as int,
            ));
        }
        let group = GroupData::read(&panel.groups[k], values, exposures);
        proof {
            assert(group@ == all[k as int]);
        }
        if likelihood == Likelihood::Poisson {
            match group.check() {
                Ok(_) => {},
                Err(e) => {
                    proof {
                        assert(checks[k as int] == Some(e@));
                        crate::data::lemma_first_fault(checks, k as int);
                    }
                    return Err(e);
                },
            }
        }
        groups.push(group);
        k += 1;
    }
    proof {
        assert(sampled(groups@) =~= all);
        crate::data::lemma_first_fault(checks, k as int);
    }
    Ok(groups)
}

/// Reads a request and the relation it names.
pub fn plan(cfg: &Config, data: &DataView) -> (r: BayesResult<ConjugatePlan>)
    requires
        data.wf(),
    ensures
        crate::errors::outcome(r) == planned(cfg@, *data),
        r matches Ok(p) ==> p.wf(),
{
    let request = Request::parse(cfg)?;
    let names = request.list_columns();
    let ghost all = crate::text::texts(names@);
    let panel = read_panel(data, &names, &request.group, true)?;
    proof {
        assert(names@[0]@ == all[0]);
        if request.exposure is Some {
            assert(names@[1]@ == all[1]);
        }
    }
    let values = data.numeric(request.value.as_str())?;
    let exposures: Option<&NumericColumn> = match &request.exposure {
        Some(name) => Some(data.numeric(name.as_str())?),
        None => None,
    };
    let groups = read_groups(request.likelihood, &panel, values, exposures)?;
    let mut params: Vec<ParamName> = Vec::new();
    proof {
        assert(crate::draws::ids(params@) =~= Seq::<ParamId>::empty());
    }
    match request.likelihood {
        Likelihood::Normal => {
            push_two_each(&mut params, &panel.keys, "mu", "sigma");
        },
        Likelihood::Poisson => {
            push_one_each(&mut params, &panel.keys, "lambda");
        },
    }
    proof {
        assert(crate::draws::ids(params@) =~= param_ids(request.likelihood, panel@.keys()));
        assert(crate::draws::ids(params@).len() == params@.len());
        assert(crate::text::texts(panel.keys@).len() == panel.keys@.len());
        assert(sampled(groups@).len() == groups@.len());
    }
    Ok(
        ConjugatePlan {
            likelihood: request.likelihood,
            groups,
            params,
            n_obs: panel.rows.len(),
            prior: request.prior,
            min_obs: request.min_obs,
        },
    )
}

/// The conjugate update of a group: the numbers that arithmetic on its data and the prior
/// gives.
#[derive(Debug, Clone, Copy, PartialEq, Eq, Structural)]
pub enum Update {
    /// With `ss`, the centred sum of squares of the values.
    Normal { mu_n: Double, kappa_n: Double, alpha_n: Double, beta_n: Double, ss: Double },
    Poisson { a_n: Double, b_n: Double },
}

impl Update {
    /// Whether it is the update of a likelihood.
    pub open spec fn suits(self, likelihood: Likelihood) -> bool {
        match likelihood {
            Likelihood::Normal => self is Normal,
            Likelihood::Poisson => self is Poisson,
        }
    }

    /// Whether the numbers leave a group of `n` observations without a posterior: nothing
    /// was observed, or a hyperparameter that must be positive is at zero or below.
    pub open spec fn unfittable(self, n: nat) -> bool {
        let zero = Double { bits: 0 };
        match self {
            Update::Normal { mu_n, kappa_n, alpha_n, beta_n, ss } => n == 0 || alpha_n.le(zero)
                || beta_n.le(zero) || kappa_n.le(zero),
            Update::Poisson { a_n, b_n } => a_n.le(zero) || b_n.le(zero),
        }
    }

    /// Why a group has no posterior, its values being all the same or not.
    pub open spec fn reason(self, key: Seq<char>, n: nat, constant: bool) -> Seq<char> {
        let zero = Double { bits: 0 };
        let number = crate::text::numeral(n);
        match self {
            Update::Normal { mu_n, kappa_n, alpha_n, beta_n, ss } => if n == 0 {
                "group '"@ + key + "': no observations"@
            } else if (constant || beta_n.le(zero) && ss.same_value(zero)) && n >= 2 {
                "group '"@ + key + "': all "@ + number + IDENTICAL@
            } else {
                "group '"@ + key + "': "@ + number + TOO_FEW@
            },
            Update::Poisson { a_n, b_n } => "group '"@ + key + NO_EXPOSURE@,
        }
    }

    /// The posterior that the update describes.
    pub open spec fn kind(self) -> PosteriorKind {
        match self {
            Update::Normal { mu_n, kappa_n, alpha_n, beta_n, ss } => PosteriorKind::Nig {
                mu_n,
                kappa_n,
                alpha_n,
                beta_n,
            },
            Update::Poisson { a_n, b_n } => PosteriorKind::Gamma { a_n, b_n },
        }
    }

    /// Whether the arithmetic stayed within the numbers.
    pub open spec fn sound(self) -> bool {
        match self {
            Update::Normal { mu_n, kappa_n, alpha_n, beta_n, ss } => mu_n.finite()
                && !kappa_n.nan() && !alpha_n.nan() && !beta_n.nan(),
            Update::Poisson { a_n, b_n } => !a_n.nan() && !b_n.nan(),
        }
    }
}

impl Sampled {
    /// Whether the values say nothing about a variance and the prior says nothing either:
    /// they are all the same, and the prior puts no weight on a mean and none on a spread.
    ///
    /// This is read off the values: a sum of squares of identical numbers need not come
    /// out as zero.
    pub open spec fn constant(self, prior: Prior) -> bool {
        let zero = Double { bits: 0 };
        &&& crate::catalog::common::all_same(self.values)
        &&& prior.kappa0.le(zero)
        &&& prior.beta0.le(zero)
    }

    /// Whether a group has no posterior.
    pub open spec fn unfittable(self, prior: Prior, update: Update) -> bool {
        update.unfittable(self.values.len()) || update is Normal && self.constant(prior)
    }

    /// The posterior of a group after its update.
    pub open spec fn posterior(self, prior: Prior, update: Update) -> PosteriorKind {
        if self.unfittable(prior, update) {
            PosteriorKind::spec_nothing()
        } else {
            update.kind()
        }
    }

    /// What a group with fewer informative observations than the least is told.
    pub open spec fn thin_text(self, update: Update, min_obs: usize) -> Seq<char> {
        match update {
            Update::Normal { .. } => "group '"@ + self.key + "': "@ + crate::text::numeral(
                self.values.len(),
            ) + " observations is below the min_obs threshold of "@ + crate::text::numeral(
                min_obs as nat,
            ),
            Update::Poisson { .. } => "group '"@ + self.key + "': "@ + crate::text::numeral(
                self.informative(),
            ) + " observations with non-zero exposure is below the min_obs threshold of "@
                + crate::text::numeral(min_obs as nat),
        }
    }

    /// How many observations count against the least number: those of a rate must have
    /// been exposed.
    pub open spec fn weight(self, update: Update) -> nat {
        match update {
            Update::Normal { .. } => self.values.len(),
            Update::Poisson { .. } => self.informative(),
        }
    }

    /// The verdict on a group after its update.
    pub open spec fn verdict(self, prior: Prior, update: Update, min_obs: usize) -> Verdict {
        let n = self.values.len();
        if self.unfittable(prior, update) {
            Verdict::because(
                FitStatus::InsufficientData,
                Message::saying(update.reason(self.key, n, self.constant(prior))),
            )
        } else if self.weight(update) < min_obs {
            Verdict::because(
                FitStatus::InsufficientData,
                Message::saying(self.thin_text(update, min_obs)),
            )
        } else {
            Verdict::ready()
        }
    }
}

/// The closed-form posterior of one group.
#[derive(Debug)]
pub struct GroupPosterior {
    pub kind: PosteriorKind,
    pub readiness: Readiness,
}

impl GroupPosterior {
    /// A group whose posterior does not exist. Its draws are absent: a number would be
    /// indistinguishable from an estimate.
    fn unfittable(reason: String) -> (r: GroupPosterior)
        ensures
            r.kind == PosteriorKind::spec_nothing(),
            r.readiness@ == Verdict::because(
                FitStatus::InsufficientData,
                Message::saying(reason@),
            ),
    {
        GroupPosterior {
            kind: PosteriorKind::nothing(),
            readiness: Readiness::insufficient(Message::of(reason)),
        }
    }

    fn fit_normal(group: &GroupData, prior: &Prior, update: Update, min_obs: usize) -> (r:
        GroupPosterior)
        requires
            update is Normal,
        ensures
            r.kind == group@.posterior(*prior, update),
            r.readiness@ == group@.verdict(*prior, update, min_obs),
    {
        if let Update::Normal { mu_n, kappa_n, alpha_n, beta_n, ss } = update {
            let zero = Double::zero();
            let n = group.values.len();
            let head = "group '".to_owned().concat(group.key.as_str());
            if n == 0 {
                return GroupPosterior::unfittable(head.concat("': no observations"));
            }
            let constant = every_same(&group.values) && prior.kappa0.at_most(zero)
                && prior.beta0.at_most(zero);
            if constant || alpha_n.at_most(zero) || beta_n.at_most(zero) || kappa_n.at_most(zero) {
                let reason = if (constant || beta_n.at_most(zero) && ss.equals(zero)) && n >= 2 {
                    head.concat("': all ").concat(decimal(n).as_str()).concat(IDENTICAL)
                } else {
                    head.concat("': ").concat(decimal(n).as_str()).concat(TOO_FEW)
                };
                return GroupPosterior::unfittable(reason);
            }
            let readiness = if n < min_obs {
                Readiness::insufficient(
                    Message::of(
                        head.concat("': ").concat(decimal(n).as_str()).concat(
                            " observations is below the min_obs threshold of ",
                        ).concat(decimal(min_obs).as_str()),
                    ),
                )
            } else {
                Readiness::ready()
            };
            GroupPosterior {
                kind: PosteriorKind::Nig { mu_n, kappa_n, alpha_n, beta_n },
                readiness,
            }
        } else {
            GroupPosterior { kind: PosteriorKind::nothing(), readiness: Readiness::ready() }
        }
    }

    fn fit_poisson(group: &GroupData, prior: &Prior, update: Update, min_obs: usize) -> (r:
        GroupPosterior)
        requires
            group.wf(),
            update is Poisson,
        ensures
            r.kind == group@.posterior(*prior, update),
            r.readiness@ == group@.verdict(*prior, update, min_obs),
    {
        if let Update::Poisson { a_n, b_n } = update {
            let zero = Double::zero();
            let head = "group '".to_owned().concat(group.key.as_str());
            if a_n.at_most(zero) || b_n.at_most(zero) {
                return GroupPosterior::unfittable(head.concat(NO_EXPOSURE));
            }
            let readiness = if group.informative < min_obs {
                Readiness::insufficient(
                    Message::of(
                        head.concat("': ").concat(decimal(group.informative).as_str()).concat(
                            " observations with non-zero exposure is below the min_obs threshold of ",
                        ).concat(decimal(min_obs).as_str()),
                    ),
                )
            } else {
                Readiness::ready()
            };
            GroupPosterior { kind: PosteriorKind::Gamma { a_n, b_n }, readiness }
        } else {
            GroupPosterior { kind: PosteriorKind::nothing(), readiness: Readiness::ready() }
        }
    }

    /// Judges the update of one group.
    pub fn fit(group: &GroupData, prior: &Prior, update: Update, min_obs: usize) -> (r:
        GroupPosterior)
        requires
            group.wf(),
        ensures
            r.kind == group@.posterior(*prior, update),
            r.readiness@ == group@.verdict(*prior, update, min_obs),
    {
        match update {
            Update::Normal { .. } => GroupPosterior::fit_normal(group, prior, update, min_obs),
            Update::Poisson { .. } => GroupPosterior::fit_poisson(group, prior, update, min_obs),
        }
    }

    /// Whether this group's posterior exists. The sampler and the differentiable surface
    /// both ask here, so they cannot disagree.
    pub fn is_proper(&self) -> (r: bool)
        ensures
            r == self.kind.proper(),
    {
        self.kind.is_proper()
    }
}

/// The posteriors that a sequence of groups holds.
pub open spec fn kinds(s: Seq<GroupPosterior>) -> Seq<PosteriorKind> {
    Seq::new(s.len(), |g: int| s[g].kind)
}

/// The verdicts on a sequence of groups.
pub open spec fn group_verdicts(s: Seq<GroupPosterior>) -> Seq<Verdict> {
    Seq::new(s.len(), |g: int| s[g].readiness@)
}

/// How many of the first `n` posteriors exist.
pub open spec fn proper_before(s: Seq<PosteriorKind>, n: nat) -> nat
    decreases n,
{
    if n == 0 {
        0
    } else {
        proper_before(s, (n - 1) as nat) + if s[n - 1].proper() {
            1nat
        } else {
            0nat
        }
    }
}

/// Where the coordinates of a group start: after those of the groups before it that have
/// any. A group whose posterior does not exist has none.
pub open spec fn offset(s: Seq<PosteriorKind>, width: nat, g: int) -> Option<usize> {
    if s[g].proper() {
        Some((proper_before(s, g as nat) * width) as usize)
    } else {
        None
    }
}

/// Where the coordinates of each group start.
pub open spec fn offsets(s: Seq<PosteriorKind>, width: nat) -> Seq<Option<usize>> {
    Seq::new(s.len(), |g: int| offset(s, width, g))
}

/// How many coordinates there are.
pub open spec fn dimension(s: Seq<PosteriorKind>, width: nat) -> int {
    (proper_before(s, s.len()) * width) as int
}

/// A compiled model.
#[derive(Debug)]
pub struct CompiledConjugate {
    pub likelihood: Likelihood,
    pub posteriors: Vec<GroupPosterior>,
    pub params: Vec<ParamName>,
    pub n_obs: usize,
    /// Where each group's coordinates start, or nothing for a group that has none.
    pub theta_offsets: Vec<Option<usize>>,
    pub dim: usize,
    /// The prior in the form of the posterior, where it can be drawn from.
    pub prior_kind: Option<PosteriorKind>,
}

impl CompiledConjugate {
    pub open spec fn wf(self) -> bool {
        let width = self.likelihood.spec_width();
        &&& 2 * self.posteriors@.len() <= usize::MAX
        &&& self.params@.len() == self.posteriors@.len() * width
        &&& self.theta_offsets@ == offsets(kinds(self.posteriors@), width)
        &&& self.dim == dimension(kinds(self.posteriors@), width)
    }

    /// How many parameters are reported.
    pub open spec fn spec_n_params(self) -> int {
        (self.posteriors@.len() * self.likelihood.spec_width()) as int
    }

    /// Lays the groups that have a posterior out in the coordinate vector.
    pub fn new(
        likelihood: Likelihood,
        posteriors: Vec<GroupPosterior>,
        params: Vec<ParamName>,
        n_obs: usize,
        prior_kind: Option<PosteriorKind>,
    ) -> (r: CompiledConjugate)
        requires
            2 * posteriors@.len() <= usize::MAX,
            params@.len() == posteriors@.len() * likelihood.spec_width(),
        ensures
            r.wf(),
            r.likelihood == likelihood,
            r.posteriors == posteriors,
            r.params == params,
            r.n_obs == n_obs,
            r.prior_kind == prior_kind,
    {
        let width = likelihood.width();
        let ghost all = kinds(posteriors@);
        let mut theta_offsets: Vec<Option<usize>> = Vec::new();
        let mut dim: usize = 0;
        let mut k: usize = 0;
        proof {
            assert(theta_offsets@ =~= offsets(all, width as nat).take(0));
            assert(0 * width == 0);
        }
        while k < posteriors.len()
            invariant
                k <= posteriors@.len(),
                2 * posteriors@.len() <= usize::MAX,
                1 <= width <= 2,
                all == kinds(posteriors@),
                dim == proper_before(all, k as nat) * width,
                proper_before(all, k as nat) <= k,
                theta_offsets@ == offsets(all, width as nat).take(k as int),
            decreases posteriors@.len() - k,
        {
            proof {
                assert(all[k as int] == posteriors@[k as int].kind);
                assert(proper_before(all, (k + 1) as nat) == proper_before(all, k as nat) + if
                    all[k as int].proper() {
                    1nat
                } else {
                    0nat
                });
                assert(dim <= 2 * k) by (nonlinear_arith)
                    requires
                        dim == proper_before(all, k as nat) * width,
                        proper_before(all, k as nat) <= k,
                        width <= 2,
                ;
                assert((proper_before(all, k as nat) + 1) * width == proper_before(all, k as nat)
                    * width + width) by (nonlinear_arith);
            }
            if posteriors[k].is_proper() {
                theta_offsets.push(Some(dim));
                dim += width;
            } else {
                theta_offsets.push(None);
            }
            k += 1;
            proof {
                assert(theta_offsets@ =~= offsets(all, width as nat).take(k as int));
            }
        }
        proof {
            assert(theta_offsets@ =~= offsets(all, width as nat));
        }
        CompiledConjugate {
            likelihood,
            posteriors,
            params,
            n_obs,
            theta_offsets,
            dim,
            prior_kind,
        }
    }
}

impl ConjugatePlan {
    /// Judges the updates of all groups and lays out those that can be fitted.
    pub fn judge(self, updates: &Vec<Update>) -> (r: CompiledConjugate)
        requires
            self.wf(),
            updates@.len() == self.groups@.len(),
            forall|g: int|
                0 <= g < updates@.len() ==> (#[trigger] updates@[g]).suits(self.likelihood),
        ensures
            r.wf(),
            r.likelihood == self.likelihood,
            r.params == self.params,
            r.n_obs == self.n_obs,
            r.prior_kind == if self.prior.proper(self.likelihood) {
                Some(self.prior.kind(self.likelihood))
            } else {
                None
            },
            r.posteriors@.len() == self.groups@.len(),
            forall|g: int|
                0 <= g < r.posteriors@.len() ==> (#[trigger] r.posteriors@[g]).kind
                    == self@.groups[g].posterior(self.prior, updates@[g])
                    && r.posteriors@[g].readiness@ == self@.groups[g].verdict(
                    self.prior,
                    updates@[g],
                    self.min_obs,
                ),
    {
        let mut posteriors: Vec<GroupPosterior> = Vec::new();
        let ghost all = self@.groups;
        let mut k: usize = 0;
        while k < self.groups.len()
            invariant
                k <= self.groups@.len(),
                self.wf(),
                all == sampled(self.groups@),
                updates@.len() == self.groups@.len(),
                posteriors@.len() == k,
                forall|g: int|
                    0 <= g < k ==> (#[trigger] posteriors@[g]).kind == all[g].posterior(
                        self.prior,
                        updates@[g],
                    ) && posteriors@[g].readiness@ == all[g].verdict(
                        self.prior,
                        updates@[g],
                        self.min_obs,
                    ),
            decreases self.groups@.len() - k,
        {
            proof {
                assert(all[k as int] == self.groups@[k as int]@);
                assert(self.groups@[k as int].wf());
            }
            posteriors.push(
                GroupPosterior::fit(&self.groups[k], &self.prior, updates[k], self.min_obs),
            );
            k += 1;
        }
        let prior_kind = if self.prior.is_proper(self.likelihood) {
            Some(self.prior.as_kind(self.likelihood))
        } else {
            None
        };
        CompiledConjugate::new(self.likelihood, posteriors, self.params, self.n_obs, prior_kind)
    }
}

/// How the parameters are computed from the coordinates, given where each group's start.
pub open spec fn formulas(likelihood: Likelihood, starts: Seq<Option<usize>>) -> Seq<Formula> {
    let width = likelihood.spec_width();
    Seq::new(
        starts.len() * width,
        |p: int|
            match starts[p / width as int] {
                None => Formula::Absent,
                Some(at) => match likelihood {
                    Likelihood::Normal => if p % 2 == 0 {
                        Formula::Coordinate { at }
                    } else {
                        Formula::Exp { at: (at + 1) as usize }
                    },
                    Likelihood::Poisson => Formula::Exp { at },
                },
            },
    )
}

/// How a whole chain is to be filled.
#[derive(Debug)]
pub enum ChainPlan {
    /// There is nothing to fill.
    Empty,
    /// Draw by draw, each group from the prior.
    Prior(PosteriorKind),
    /// Slab by slab, each group from its posterior under its own key.
    Posterior(Vec<Slab>),
}

/// What a [`ChainPlan`] says.
#[verifier::ext_equal]
pub enum Filling {
    Empty,
    Prior(PosteriorKind),
    Posterior(Seq<Slab>),
}

impl View for ChainPlan {
    type V = Filling;

    open spec fn view(&self) -> Filling {
        match self {
            ChainPlan::Empty => Filling::Empty,
            ChainPlan::Prior(kind) => Filling::Prior(*kind),
            ChainPlan::Posterior(slabs) => Filling::Posterior(slabs@),
        }
    }
}

impl CompiledConjugate {
    pub fn n_groups(&self) -> (r: usize)
        ensures
            r == self.posteriors@.len(),
    {
        self.posteriors.len()
    }

    pub fn n_params(&self) -> (r: usize)
        requires
            self.wf(),
        ensures
            r == self.spec_n_params(),
    {
        match self.likelihood {
            Likelihood::Normal => 2 * self.posteriors.len(),
            Likelihood::Poisson => self.posteriors.len(),
        }
    }

    fn all_readiness(&self) -> (r: Vec<Readiness>)
        ensures
            crate::readiness::verdicts(r@) == group_verdicts(self.posteriors@),
    {
        let mut all: Vec<Readiness> = Vec::new();
        let mut k: usize = 0;
        while k < self.posteriors.len()
            invariant
                k <= self.posteriors@.len(),
                all@.len() == k,
                forall|g: int|
                    0 <= g < k ==> (#[trigger] all@[g])@ == self.posteriors@[g].readiness@,
            decreases self.posteriors@.len() - k,
        {
            all.push(self.posteriors[k].readiness.clone());
            k += 1;
        }
        proof {
            assert(crate::readiness::verdicts(all@) =~= group_verdicts(self.posteriors@));
        }
        all
    }

    /// The worst of the groups' verdicts, with every group's reason.
    pub fn readiness(&self) -> (r: Readiness)
        ensures
            r@ == if self.posteriors@.len() == 0 {
                Verdict::because(FitStatus::InsufficientData, Message::saying(NO_GROUPS@))
            } else {
                crate::readiness::worst_verdict(group_verdicts(self.posteriors@))
            },
    {
        if self.posteriors.len() == 0 {
            return Readiness::insufficient(Message::of(NO_GROUPS.to_owned()));
        }
        Readiness::worst(&self.all_readiness())
    }

    /// How many groups are not ready. Where there is no group there is none to blame.
    pub fn n_groups_unready(&self) -> (r: usize)
        ensures
            r == crate::readiness::unready_count(group_verdicts(self.posteriors@)),
    {
        Readiness::count_unready(&self.all_readiness())
    }

    /// The posterior that a group is drawn from, or nothing where its draws are absent.
    pub fn drawn(&self, group: usize) -> (r: Option<PosteriorKind>)
        requires
            group < self.posteriors@.len(),
        ensures
            r == if self.posteriors@[group as int].kind.proper() {
                Some(self.posteriors@[group as int].kind)
            } else {
                None
            },
    {
        let posterior = &self.posteriors[group];
        if posterior.is_proper() {
            Some(posterior.kind)
        } else {
            None
        }
    }

    /// Refuses buffers that do not hold one entry per coordinate.
    pub fn check_gradient_buffers(&self, theta: usize, out: usize) -> (r: BayesResult<()>)
        ensures
            r is Ok <==> theta == self.dim && out == self.dim,
            r matches Err(e) ==> e@ == Fault::coordinates(self.dim as nat, theta, out),
    {
        BayesError::check_coordinates(self.dim, theta, out)
    }

    /// Refuses a draw buffer that does not hold one slot per parameter.
    pub fn check_draw_buffer(&self, slots: usize) -> (r: BayesResult<()>)
        requires
            self.wf(),
        ensures
            r is Ok <==> slots == self.spec_n_params(),
            r matches Err(e) ==> e@ == Fault::slots(self.spec_n_params() as nat, slots as nat),
    {
        BayesError::check_slots(self.n_params(), slots)
    }

    /// What a draw of the prior would say, if it may be taken into a buffer.
    pub open spec fn prior_draw(self, slots: int) -> Result<PosteriorKind, Fault> {
        match self.prior_kind {
            None => Err(Fault::config("sample_from"@, NOTHING_TO_DRAW@)),
            Some(kind) => if slots != self.spec_n_params() {
                Err(Fault::slots(self.spec_n_params() as nat, slots as nat))
            } else {
                Ok(kind)
            },
        }
    }

    /// The prior to draw every group from, where there is one and the buffer fits.
    pub fn prior_to_draw(&self, slots: usize) -> (r: BayesResult<PosteriorKind>)
        requires
            self.wf(),
        ensures
            crate::errors::plain(r) == self.prior_draw(slots as int),
    {
        match self.prior_kind {
            None => Err(BayesError::config("sample_from", NOTHING_TO_DRAW)),
            Some(kind) => {
                self.check_draw_buffer(slots)?;
                Ok(kind)
            },
        }
    }

    /// How a chain of `n_draws` is to be filled into a buffer of that many slots.
    pub open spec fn filling(self, n_draws: int, from: SampleFrom, slots: int) -> Result<
        Filling,
        Fault,
    > {
        let n_params = self.spec_n_params();
        let n_groups = self.posteriors@.len() as int;
        let width = self.likelihood.spec_width() as usize;
        let per_group = (n_draws * width) as usize;
        if slots != n_draws * n_params {
            Err(
                Fault::DimensionMismatch(
                    "expected "@ + crate::text::numeral((n_draws * n_params) as nat)
                        + " slots for "@ + crate::text::numeral(n_draws as nat) + " draws x "@
                        + crate::text::numeral(n_params as nat) + " parameters, got "@
                        + crate::text::numeral(slots as nat),
                ),
            )
        } else if n_draws == 0 || n_groups == 0 {
            Ok(Filling::Empty)
        } else {
            match from {
                SampleFrom::Prior => match self.prior_draw(n_params) {
                    Err(f) => Err(f),
                    Ok(kind) => Ok(Filling::Prior(kind)),
                },
                SampleFrom::Posterior => Ok(
                    Filling::Posterior(
                        crate::scatter::slabs_of(
                            n_groups,
                            crate::scatter::batch_size(per_group as int, n_groups),
                            width,
                            per_group,
                        ),
                    ),
                ),
            }
        }
    }

    /// Plans how a chain is to be filled. A buffer of that many eight-byte slots must be
    /// one that memory can hold.
    pub fn chain_plan(&self, n_draws: usize, from: SampleFrom, slots: usize) -> (r: BayesResult<
        ChainPlan,
    >)
        requires
            self.wf(),
            n_draws * self.spec_n_params() * 8 <= usize::MAX,
        ensures
            crate::errors::outcome(r) == self.filling(n_draws as int, from, slots as int),
    {
        let n_params = self.n_params();
        let n_groups = self.posteriors.len();
        let width = self.likelihood.width();
        proof {
            assert(0 <= n_draws * n_params) by (nonlinear_arith);
        }
        let expected: usize = n_draws * n_params;
        if slots != expected {
            return Err(
                BayesError::DimensionMismatch(
                    "expected ".to_owned().concat(decimal(expected).as_str()).concat(
                        " slots for ",
                    ).concat(decimal(n_draws).as_str()).concat(" draws x ").concat(
                        decimal(n_params).as_str(),
                    ).concat(" parameters, got ").concat(decimal(slots).as_str()),
                ),
            );
        }
        if n_draws == 0 || n_groups == 0 {
            return Ok(ChainPlan::Empty);
        }
        match from {
            SampleFrom::Prior => {
                let kind = self.prior_to_draw(n_params)?;
                Ok(ChainPlan::Prior(kind))
            },
            SampleFrom::Posterior => {
                proof {
                    assert(1 <= n_draws * width) by (nonlinear_arith)
                        requires
                            1 <= n_draws,
                            1 <= width,
                    ;
                    assert(width <= n_groups * width) by (nonlinear_arith)
                        requires
                            1 <= n_groups,
                    ;
                    assert(n_draws * width <= n_draws * n_params) by (nonlinear_arith)
                        requires
                            width <= n_params,
                    ;
                }
                let per_group: usize = n_draws * width;
                let batch = group_batch(per_group, n_groups);
                Ok(ChainPlan::Posterior(slabs(n_groups, batch, width, per_group)))
            },
        }
    }

    /// How each parameter is computed from the coordinates, in the order of the names.
    pub fn constrain(&self) -> (r: Vec<Formula>)
        requires
            self.wf(),
        ensures
            r@ == formulas(self.likelihood, self.theta_offsets@),
    {
        let ghost all = formulas(self.likelihood, self.theta_offsets@);
        let ghost width = self.likelihood.spec_width() as int;
        let mut out: Vec<Formula> = Vec::new();
        let mut k: usize = 0;
        proof {
            assert(out@ =~= all.take(0));
        }
        while k < self.theta_offsets.len()
            invariant
                self.wf(),
                k <= self.theta_offsets@.len(),
                all == formulas(self.likelihood, self.theta_offsets@),
                width == self.likelihood.spec_width(),
                out@ == all.take(k * width),
            decreases self.theta_offsets@.len() - k,
        {
            proof {
                lemma_start(
                    kinds(self.posteriors@),
                    self.likelihood.spec_width(),
                    k as int,
                );
            }
            match self.likelihood {
                Likelihood::Normal => {
                    match self.theta_offsets[k] {
                        None => {
                            out.push(Formula::Absent);
                            out.push(Formula::Absent);
                        },
                        Some(at) => {
                            out.push(Formula::Coordinate { at });
                            out.push(Formula::Exp { at: at + 1 });
                        },
                    }
                    proof {
                        assert((2 * k) / 2 == k && (2 * k + 1) / 2 == k);
                        assert(out@ =~= all.take((k + 1) * width));
                    }
                },
                Likelihood::Poisson => {
                    match self.theta_offsets[k] {
                        None => {
                            out.push(Formula::Absent);
                        },
                        Some(at) => {
                            out.push(Formula::Exp { at });
                        },
                    }
                    proof {
                        assert(out@ =~= all.take((k + 1) * width));
                    }
                },
            }
            k += 1;
        }
        proof {
            assert(out@ =~= all);
        }
        out
    }
}

proof fn lemma_proper_before(s: Seq<PosteriorKind>, i: nat, j: nat)
    requires
        i <= j <= s.len(),
    ensures
        proper_before(s, i) <= proper_before(s, j) <= proper_before(s, i) + (j - i),
    decreases j - i,
{
    if i < j {
        lemma_proper_before(s, i, (j - 1) as nat);
    }
}

/// A group that holds coordinates holds as many as it has parameters, below the
/// dimension, and the number of its first fits a machine word.
proof fn lemma_start(s: Seq<PosteriorKind>, width: nat, g: int)
    requires
        0 <= g < s.len(),
        2 * s.len() <= usize::MAX,
        1 <= width <= 2,
    ensures
        offset(s, width, g) matches Some(at) ==> at == proper_before(s, g as nat) * width && at
            + width <= dimension(s, width),
        dimension(s, width) <= usize::MAX,
{
    lemma_proper_before(s, 0, g as nat);
    lemma_proper_before(s, g as nat, s.len());
    lemma_proper_before(s, 0, s.len());
    let before = proper_before(s, g as nat);
    let total = proper_before(s, s.len());
    assert(total * width <= 2 * s.len()) by (nonlinear_arith)
        requires
            total <= s.len(),
            width <= 2,
    ;
    assert(before * width <= 2 * s.len()) by (nonlinear_arith)
        requires
            before <= s.len(),
            width <= 2,
    ;
    if s[g].proper() {
        lemma_proper_before(s, (g + 1) as nat, s.len());
        assert(before + 1 <= total);
        assert(before * width + width <= total * width) by (nonlinear_arith)
            requires
                before + 1 <= total,
        ;
    }
}

/// The coordinates of two groups never overlap: those of the earlier group end before
/// those of the later start, and all lie within the dimension.
pub proof fn no_two_groups_share_a_coordinate(s: Seq<PosteriorKind>, width: nat, i: int, j: int)
    requires
        0 <= i < j < s.len(),
        2 * s.len() <= usize::MAX,
        1 <= width <= 2,
        s[i].proper(),
        s[j].proper(),
    ensures
        offsets(s, width)[i] is Some,
        offsets(s, width)[j] is Some,
        offsets(s, width)[i]->0 + width <= offsets(s, width)[j]->0,
        offsets(s, width)[j]->0 + width <= dimension(s, width),
{
    lemma_start(s, width, i);
    lemma_start(s, width, j);
    lemma_proper_before(s, (i + 1) as nat, j as nat);
    let before = proper_before(s, i as nat);
    let later = proper_before(s, j as nat);
    assert(before * width + width <= later * width) by (nonlinear_arith)
        requires
            before + 1 <= later,
    ;
}

/// No coordinate is left over: each belongs to a group whose posterior exists.
pub proof fn every_coordinate_belongs_to_a_group(s: Seq<PosteriorKind>, width: nat, c: int)
    requires
        2 * s.len() <= usize::MAX,
        1 <= width <= 2,
        0 <= c < dimension(s, width),
    ensures
        exists|g: int|
            0 <= g < s.len() && (#[trigger] offsets(s, width)[g] matches Some(at) && at <= c < at
                + width),
{
    lemma_owner(s, s.len(), width, c);
    let g = choose|g: int|
        0 <= g < s.len() && (#[trigger] s[g]).proper() && proper_before(s, g as nat) * width <= c
            < proper_before(s, g as nat) * width + width;
    lemma_start(s, width, g);
    assert(offsets(s, width)[g] == offset(s, width, g));
}

proof fn lemma_owner(s: Seq<PosteriorKind>, n: nat, width: nat, c: int)
    requires
        n <= s.len(),
        1 <= width <= 2,
        0 <= c < proper_before(s, n) * width,
    ensures
        exists|g: int|
            0 <= g < n && (#[trigger] s[g]).proper() && proper_before(s, g as nat) * width <= c
                < proper_before(s, g as nat) * width + width,
    decreases n,
{
    if n == 0 {
        assert(0 * width == 0) by (nonlinear_arith);
    } else {
        let m = (n - 1) as nat;
        let before = proper_before(s, m);
        if c < before * width {
            lemma_owner(s, m, width, c);
        } else {
            assert((before + 1) * width == before * width + width) by (nonlinear_arith);
            assert(s[m as int].proper());
        }
    }
}

/// Every parameter has a formula, and every formula reads coordinates that exist.
pub proof fn every_parameter_has_a_formula(
    likelihood: Likelihood,
    keys: Seq<Seq<char>>,
    s: Seq<PosteriorKind>,
    p: int,
)
    requires
        2 * s.len() <= usize::MAX,
        keys.len() == s.len(),
        0 <= p < param_ids(likelihood, keys).len(),
    ensures
        formulas(likelihood, offsets(s, likelihood.spec_width())).len() == param_ids(
            likelihood,
            keys,
        ).len(),
        formulas(likelihood, offsets(s, likelihood.spec_width()))[p].reads_within(
            dimension(s, likelihood.spec_width()),
        ),
{
    let width = likelihood.spec_width();
    lemma_start(s, width, p / width as int);
}

/// A group whose posterior does not exist holds no coordinate, and each of its parameters
/// is reported absent, whatever the other groups look like.
pub proof fn an_unfittable_group_reports_nothing(
    likelihood: Likelihood,
    s: Seq<PosteriorKind>,
    g: int,
    k: int,
)
    requires
        0 <= g < s.len(),
        0 <= k < likelihood.spec_width(),
    ensures
        (formulas(likelihood, offsets(s, likelihood.spec_width()))[g * likelihood.spec_width()
            + k] is Absent) == !s[g].proper(),
{
    let width = likelihood.spec_width() as int;
    let p = g * width + k;
    assert(p / width == g) by (nonlinear_arith)
        requires
            p == g * width + k,
            0 <= k < width,
            1 <= width <= 2,
    ;
    assert(0 <= p < s.len() * width) by (nonlinear_arith)
        requires
            p == g * width + k,
            0 <= k < width,
            0 <= g < s.len(),
    ;
}

/// A group whose update stayed within the numbers is drawn from exactly when the update
/// made it a distribution, and a group that is not drawn from is never reported as ready.
pub proof fn a_group_is_drawn_exactly_when_it_was_fitted(
    group: Sampled,
    prior: Prior,
    update: Update,
    min_obs: usize,
)
    requires
        update.sound(),
    ensures
        group.posterior(prior, update).proper() <==> !group.unfittable(prior, update),
        !group.posterior(prior, update).proper() ==> group.verdict(prior, update, min_obs).status
            == FitStatus::InsufficientData,
{
    let zero = Double { bits: 0 };
    assert(zero.scaled() == 0 && !zero.nan());
    assert(Double::spec_nan().nan());
}

/// Identical observations are refused under a prior that says nothing about their mean or
/// their spread, whatever the arithmetic made of them: nothing is drawn, and the reason
/// names them.
pub proof fn identical_observations_are_refused(
    group: Sampled,
    prior: Prior,
    update: Update,
    min_obs: usize,
)
    requires
        update is Normal,
        group.values.len() >= 2,
        group.constant(prior),
    ensures
        !group.posterior(prior, update).proper(),
        group.verdict(prior, update, min_obs) == Verdict::because(
            FitStatus::InsufficientData,
            Message::saying(
                "group '"@ + group.key + "': all "@ + crate::text::numeral(group.values.len())
                    + IDENTICAL@,
            ),
        ),
{
    assert(Double::spec_nan().nan());
}

/// The parameters of a group carry its key, which is what its draws are keyed on: neither
/// the number of groups nor their order enters.
pub proof fn a_groups_parameters_carry_its_key(
    likelihood: Likelihood,
    keys: Seq<Seq<char>>,
    g: int,
    k: int,
)
    requires
        0 <= g < keys.len(),
        0 <= k < likelihood.spec_width(),
    ensures
        param_ids(likelihood, keys)[g * likelihood.spec_width() + k].group == keys[g],
{
}

/// The posterior of a group of a plan, where its update is what some arithmetic makes of
/// the prior and of the group's own data.
pub open spec fn own_posterior(
    plan: Planned,
    arithmetic: spec_fn(Prior, Sampled) -> Update,
    g: int,
) -> PosteriorKind {
    plan.groups[g].posterior(plan.prior, arithmetic(plan.prior, plan.groups[g]))
}

/// The values that a group draws from a source that goes by its key and its posterior.
pub open spec fn own_draws<T>(
    plan: Planned,
    arithmetic: spec_fn(Prior, Sampled) -> Update,
    source: spec_fn(Seq<char>, PosteriorKind) -> Seq<T>,
    g: int,
) -> Seq<T> {
    source(plan.groups[g].key, own_posterior(plan, arithmetic, g))
}

/// Whether scratch, slab by slab, holds what each group draws.
pub open spec fn drawn_into<T>(
    plan: Planned,
    arithmetic: spec_fn(Prior, Sampled) -> Update,
    source: spec_fn(Seq<char>, PosteriorKind) -> Seq<T>,
    batch: int,
    per_group: int,
    scratches: Seq<Seq<T>>,
) -> bool {
    forall|g: int, p: int|
        0 <= g < plan.groups.len() && 0 <= p < per_group ==> scratches[g / batch][g % batch
            * per_group + p] == (#[trigger] own_draws(plan, arithmetic, source, g)[p])
}

/// A group that two relations share is sampled from the same data in both, whatever other
/// groups they hold: it has the same update, the same posterior and the same verdict.
pub proof fn a_group_has_the_same_posterior_alone_as_in_company(
    cfg: Scope,
    asked: Asked,
    group: Seq<char>,
    a: DataView,
    b: DataView,
    g: int,
    h: int,
    update: Update,
)
    requires
        Asked::of(cfg) == Ok::<Asked, Fault>(asked),
        asked.group == Some(group),
        planned(cfg, a) is Ok,
        planned(cfg, b) is Ok,
        0 <= g < planned(cfg, a)->Ok_0.groups.len(),
        0 <= h < planned(cfg, b)->Ok_0.groups.len(),
        planned(cfg, a)->Ok_0.groups[g].key == planned(cfg, b)->Ok_0.groups[h].key,
        a.same_group(b, asked.columns(), group, planned(cfg, a)->Ok_0.groups[g].key),
    ensures
        ({
            let mine = planned(cfg, a)->Ok_0;
            let theirs = planned(cfg, b)->Ok_0;
            &&& mine.groups[g] == theirs.groups[h]
            &&& mine.prior == theirs.prior
            &&& mine.groups[g].posterior(mine.prior, update) == theirs.groups[h].posterior(
                theirs.prior,
                update,
            )
            &&& mine.groups[g].verdict(mine.prior, update, mine.min_obs)
                == theirs.groups[h].verdict(theirs.prior, update, theirs.min_obs)
        }),
{
    let columns = asked.columns();
    let mine = planned(cfg, a)->Ok_0;
    let theirs = planned(cfg, b)->Ok_0;
    let panel_a = crate::panel::panel_of(a, columns, asked.group, true)->Ok_0;
    let panel_b = crate::panel::panel_of(b, columns, asked.group, true)->Ok_0;
    assert(panel_a.groups[g].key == mine.groups[g].key);
    assert(panel_b.groups[h].key == theirs.groups[h].key);
    crate::data::a_group_is_read_alike_in_any_company(a, b, columns, group, g);
    assert(columns[0] == asked.value);
    if let Some(name) = asked.exposure {
        assert(columns[1] == name);
        let presence_a = a.presence(columns, seq![group]);
        let presence_b = b.presence(columns, seq![group]);
        crate::data::lemma_no_fault(presence_a);
        crate::data::lemma_no_fault(presence_b);
        assert(presence_a[1] is None);
        assert(presence_b[1] is None);
    }
    assert(mine.groups[g] =~= theirs.groups[h]);
}

/// A group gets the same draws whether it is fitted alone or in company: where each group
/// draws from a source that goes by its key and its posterior alone, as the stream of one
/// seed and one chain does, and the chains are put together slab by slab, the values of
/// the group are the same in both chains, whatever the other groups, their order and the
/// batches.
pub proof fn a_group_gets_the_same_draws_alone_as_in_company<T>(
    cfg: Scope,
    asked: Asked,
    group: Seq<char>,
    a: DataView,
    b: DataView,
    g: int,
    h: int,
    arithmetic: spec_fn(Prior, Sampled) -> Update,
    source: spec_fn(Seq<char>, PosteriorKind) -> Seq<T>,
    n_draws: int,
    width: usize,
    per_group: usize,
    batch_a: int,
    batch_b: int,
    scratches_a: Seq<Seq<T>>,
    scratches_b: Seq<Seq<T>>,
    out_a: Seq<T>,
    out_b: Seq<T>,
    draw: int,
    k: int,
)
    requires
        Asked::of(cfg) == Ok::<Asked, Fault>(asked),
        asked.group == Some(group),
        planned(cfg, a) is Ok,
        planned(cfg, b) is Ok,
        0 <= g < planned(cfg, a)->Ok_0.groups.len() <= usize::MAX,
        0 <= h < planned(cfg, b)->Ok_0.groups.len() <= usize::MAX,
        planned(cfg, a)->Ok_0.groups[g].key == planned(cfg, b)->Ok_0.groups[h].key,
        a.same_group(b, asked.columns(), group, planned(cfg, a)->Ok_0.groups[g].key),
        width == asked.likelihood.spec_width(),
        per_group == n_draws * width,
        1 <= batch_a <= usize::MAX,
        1 <= batch_b <= usize::MAX,
        drawn_into(
            planned(cfg, a)->Ok_0,
            arithmetic,
            source,
            batch_a,
            per_group as int,
            scratches_a,
        ),
        drawn_into(
            planned(cfg, b)->Ok_0,
            arithmetic,
            source,
            batch_b,
            per_group as int,
            scratches_b,
        ),
        out_a.len() == n_draws * (planned(cfg, a)->Ok_0.groups.len() * width),
        out_b.len() == n_draws * (planned(cfg, b)->Ok_0.groups.len() * width),
        0 <= draw < n_draws,
        0 <= k < width,
    ensures
        ({
            let n_a = planned(cfg, a)->Ok_0.groups.len() as int;
            let n_b = planned(cfg, b)->Ok_0.groups.len() as int;
            crate::scatter::placed(
                out_a,
                n_a * width,
                crate::scatter::slabs_of(n_a, batch_a, width, per_group),
                scratches_a,
            )[draw * (n_a * width) + g * width + k] == crate::scatter::placed(
                out_b,
                n_b * width,
                crate::scatter::slabs_of(n_b, batch_b, width, per_group),
                scratches_b,
            )[draw * (n_b * width) + h * width + k]
        }),
{
    let mine = planned(cfg, a)->Ok_0;
    let theirs = planned(cfg, b)->Ok_0;
    let update = arithmetic(mine.prior, mine.groups[g]);
    a_group_has_the_same_posterior_alone_as_in_company(cfg, asked, group, a, b, g, h, update);
    crate::scatter::a_chain_holds_every_groups_draws(
        out_a,
        mine.groups.len() as int,
        n_draws,
        batch_a,
        width,
        per_group,
        scratches_a,
        draw,
        g,
        k,
    );
    crate::scatter::a_chain_holds_every_groups_draws(
        out_b,
        theirs.groups.len() as int,
        n_draws,
        batch_b,
        width,
        per_group,
        scratches_b,
        draw,
        h,
        k,
    );
    let p = draw * width + k;
    assert(0 <= p < per_group) by (nonlinear_arith)
        requires
            p == draw * width + k,
            0 <= draw < n_draws,
            0 <= k < width,
            per_group == n_draws * width,
    ;
    assert(own_draws(mine, arithmetic, source, g)[p] == own_draws(
        theirs,
        arithmetic,
        source,
        h,
    )[p]);
}

/// A model with groups is ready exactly when none of them is unready.
pub proof fn a_model_is_ready_exactly_when_no_group_is_unready(s: Seq<Verdict>)
    ensures
        crate::readiness::worst_verdict(s).status == FitStatus::Converged
            <==> crate::readiness::unready_count(s) == 0,
{
    crate::readiness::actionable_only_when_every_group_is(s);
}

/// A group's mean is its first coordinate as it is, its scale the exponential of the one
/// after, and its rate the exponential of its only one; a group without coordinates reports
/// nothing.
pub proof fn a_parameter_is_computed_from_its_own_coordinates(
    likelihood: Likelihood,
    starts: Seq<Option<usize>>,
    g: int,
)
    requires
        0 <= g < starts.len(),
    ensures
        ({
            let f = formulas(likelihood, starts);
            match likelihood {
                Likelihood::Normal => f.len() == 2 * starts.len() && match starts[g] {
                    Some(at) => f[2 * g] == (Formula::Coordinate { at }) && f[2 * g + 1] == (
                    Formula::Exp { at: (at + 1) as usize }),
                    None => f[2 * g] is Absent && f[2 * g + 1] is Absent,
                },
                Likelihood::Poisson => f.len() == starts.len() && match starts[g] {
                    Some(at) => f[g] == (Formula::Exp { at }),
                    None => f[g] is Absent,
                },
            }
        }),
{
    assert((2 * g) / 2 == g && (2 * g) % 2 == 0);
    assert((2 * g + 1) / 2 == g && (2 * g + 1) % 2 == 1);
}

/// The posterior of a group is the numbers of its update, each under its own name, unless the
/// update leaves none: no observation, a hyperparameter that is not above zero, or identical
/// numbers under a prior that says nothing of a mean nor of a spread. Then nothing is drawn
/// and the group is not ready; nor is one with fewer observations than asked for.
pub proof fn a_posterior_is_its_own_update(
    group: Sampled,
    prior: Prior,
    update: Update,
    min_obs: usize,
)
    ensures
        ({
            let n = group.values.len();
            let alike = forall|i: int|
                0 <= i < n ==> (#[trigger] group.values[i]).same_value(group.values[0]);
            let spent = |d: Double| !d.nan() && d.scaled() <= 0;
            let kind = group.posterior(prior, update);
            let status = group.verdict(prior, update, min_obs).status;
            match update {
                Update::Normal { mu_n, kappa_n, alpha_n, beta_n, ss } => {
                    let none = n == 0 || spent(kappa_n) || spent(alpha_n) || spent(beta_n) || (alike
                        && spent(prior.kappa0) && spent(prior.beta0));
                    &&& !none ==> kind == (PosteriorKind::Nig { mu_n, kappa_n, alpha_n, beta_n })
                    &&& none ==> !kind.proper()
                    &&& status == if none || n < min_obs {
                        FitStatus::InsufficientData
                    } else {
                        FitStatus::Converged
                    }
                },
                Update::Poisson { a_n, b_n } => {
                    let none = spent(a_n) || spent(b_n);
                    &&& !none ==> kind == (PosteriorKind::Gamma { a_n, b_n })
                    &&& none ==> !kind.proper()
                    &&& status == if none || group.informative() < min_obs {
                        FitStatus::InsufficientData
                    } else {
                        FitStatus::Converged
                    }
                },
            }
        }),
{
    crate::double::zero_is_nothing();
    assert(Double::spec_nan().nan());
}

/// A distribution has a location that is a number and everything else above zero.
pub proof fn a_distribution_has_positive_scales(kind: PosteriorKind)
    ensures
        kind.proper() <==> match kind {
            PosteriorKind::Nig { mu_n, kappa_n, alpha_n, beta_n } => mu_n.finite() && !kappa_n.nan()
                && kappa_n.scaled() > 0 && !alpha_n.nan() && alpha_n.scaled() > 0 && !beta_n.nan()
                && beta_n.scaled() > 0,
            PosteriorKind::Gamma { a_n, b_n } => !a_n.nan() && a_n.scaled() > 0 && !b_n.nan()
                && b_n.scaled() > 0,
        },
{
}

/// The observations that say something are all of them where there is no exposure, and those
/// with an exposure above zero where there is one.
pub proof fn an_observation_counts_when_it_was_exposed(group: Sampled)
    ensures
        match group.exposures {
            None => group.informative() == group.values.len(),
            Some(es) => group.informative() == Set::new(
                |i: int| 0 <= i < es.len() && !es[i].nan() && es[i].scaled() > 0,
            ).len(),
        },
{
    if let Some(es) = group.exposures {
        lemma_positive_count(es, es.len());
    }
}

proof fn lemma_positive_count(s: Seq<Double>, n: nat)
    requires
        n <= s.len(),
    ensures
        ({
            let above = Set::new(|i: int| 0 <= i < n && !s[i].nan() && s[i].scaled() > 0);
            above.finite() && above.len() == positive_count(s, n)
        }),
    decreases n,
{
    let above = Set::new(|i: int| 0 <= i < n && !s[i].nan() && s[i].scaled() > 0);
    if n == 0 {
        assert(above =~= Set::empty());
    } else {
        let m = (n - 1) as nat;
        let before = Set::new(|i: int| 0 <= i < m && !s[i].nan() && s[i].scaled() > 0);
        lemma_positive_count(s, m);
        if s[m as int].positive() {
            assert(above =~= before.insert(m as int));
        } else {
            assert(above =~= before);
        }
    }
}

/// What is read for the identity of the data is what a fit is made of: every column that the
/// options name, at every complete row, and nothing else.
pub proof fn the_columns_read_are_the_ones_named(cfg: Config, data: DataView, reading: Reading)
    requires
        reads(cfg@, data) == Ok::<Entries, Fault>(reading@),
    ensures
        crate::reading::holds_the_columns(
            data,
            columns_named(cfg.entries@),
            keys_named(cfg.entries@),
            reading,
        ),
{
    a_request_is_what_its_options_say(cfg@);
    let asked = Asked::of(cfg@)->Ok_0;
    assert(asked.columns() =~= columns_named(cfg.entries@));
    assert(crate::panel::group_columns(asked.group) =~= keys_named(cfg.entries@));
    crate::reading::a_reading_holds_the_named_columns(
        data,
        columns_named(cfg.entries@),
        keys_named(cfg.entries@),
        reading,
    );
}

/// A chain is filled from what was asked for: from the prior where draws of the prior are asked
/// for and there is one to draw from, else from the posteriors, every group in one slab of its
/// own width; a buffer of any other size than the draws take is refused.
pub proof fn a_chain_is_filled_from_what_was_asked(
    model: CompiledConjugate,
    n_draws: int,
    from: SampleFrom,
    slots: int,
)
    requires
        model.wf(),
        0 <= n_draws,
    ensures
        ({
            let n_groups = model.posteriors@.len() as int;
            let width = if model.likelihood == Likelihood::Normal {
                2int
            } else {
                1int
            };
            let filling = model.filling(n_draws, from, slots);
            if slots != n_draws * (n_groups * width) {
                filling matches Err(Fault::DimensionMismatch(_))
            } else if n_draws == 0 || n_groups == 0 {
                filling == Ok::<Filling, Fault>(Filling::Empty)
            } else if from == SampleFrom::Prior {
                match model.prior_kind {
                    Some(kind) => filling == Ok::<Filling, Fault>(Filling::Prior(kind)),
                    None => filling matches Err(Fault::Config { slot, .. }) && slot
                        == "sample_from"@,
                }
            } else {
                filling matches Ok(Filling::Posterior(slabs)) && {
                    let batch = crate::scatter::batch_size(n_draws * width, n_groups);
                    n_draws * width <= usize::MAX ==> slabs == crate::scatter::slabs_of(
                        n_groups,
                        batch,
                        width as usize,
                        (n_draws * width) as usize,
                    )
                }
            }
        }),
{
}

/// Whether an error is the one of a row of counts: it refuses the slot of the number that is
/// not sound, and shows what is wrong with it.
pub open spec fn blames_the_row(
    entries: Seq<Entry>,
    data: DataView,
    row: int,
    e: BayesError,
) -> bool {
    let v = data.column(crate::config::text_of(entries, "value"@)->0)->0.values@[row];
    if !(v.finite() && exists|n: nat| v.scaled() == #[trigger] (n * crate::double::one_scaled())) {
        crate::catalog::common::shows(e, "value"@, v)
    } else {
        crate::config::text_of(entries, "exposure"@) matches Some(name) && {
            let x = data.column(name)->0.values@[row];
            if !x.nan() && x.scaled() < 0 {
                crate::catalog::common::shows(e, "exposure"@, x)
            } else {
                crate::catalog::common::shows(e, "exposure"@, v)
            }
        }
    }
}

proof fn lemma_group_fault(
    entries: Seq<Entry>,
    data: DataView,
    group: Sampled,
    rows: Seq<usize>,
    e: BayesError,
) -> (i: int)
    requires
        asks_for_counts(entries),
        group.fault() == Some(e@),
        group.values == crate::data::gathered(
            data.column(crate::config::text_of(entries, "value"@)->0)->0,
            rows,
        ),
        match crate::config::text_of(entries, "exposure"@) {
            None => group.exposures is None,
            Some(name) => group.exposures == Some(
                crate::data::gathered(data.column(name)->0, rows),
            ),
        },
    ensures
        0 <= i < rows.len(),
        !row_is_sound(entries, data, rows[i] as int),
        blames_the_row(entries, data, rows[i] as int, e),
{
    let counts = group.count_checks();
    crate::double::zero_is_nothing();
    if crate::data::first_fault(counts) is Some {
        crate::data::lemma_fault_of_a_check(counts);
        let i = choose|i: int|
            0 <= i < counts.len() && (#[trigger] counts[i]) == crate::data::first_fault(counts);
        assert(counts[i] == Some(e@));
        crate::double::a_count_is_its_value(group.values[i]);
        crate::catalog::common::lemma_shows(e, e@->slot);
        i
    } else {
        crate::data::lemma_no_fault(counts);
        let es = group.exposures->0;
        let exposed = group.exposure_checks(es);
        crate::data::lemma_fault_of_a_check(exposed);
        let i = choose|i: int|
            0 <= i < exposed.len() && (#[trigger] exposed[i]) == crate::data::first_fault(exposed);
        assert(exposed[i] == Some(e@));
        assert(counts[i] is None);
        crate::double::a_count_is_its_value(group.values[i]);
        crate::catalog::common::lemma_shows(e, e@->slot);
        i
    }
}

/// A sound request that a relation cannot serve is refused for the first thing that is wrong
/// with the relation: a column that is not there, the reserved label, or a row that is not
/// sound, which is shown.
#[verifier::rlimit(40)]
pub proof fn a_refusal_says_what_is_wrong(
    cfg: Config,
    data: DataView,
    rows: Seq<usize>,
    e: BayesError,
)
    requires
        planned(cfg@, data) == Err::<Planned, Fault>(e@),
        request_is_sound(cfg.entries@),
        crate::panel::each_present_row_once(
            data,
            columns_named(cfg.entries@),
            keys_named(cfg.entries@),
            rows,
        ),
    ensures
        ({
            let entries = cfg.entries@;
            let names = columns_named(entries);
            let keys = keys_named(entries);
            if (exists|c: int| 0 <= c < names.len() && data.column(#[trigger] names[c]) is None) || (
            exists|c: int| 0 <= c < keys.len() && data.key_column(#[trigger] keys[c]) is None) {
                crate::panel::names_a_missing_column(data, names, keys, e)
            } else if keys.len() > 0 && exists|i: int|
                0 <= i < rows.len() && data.key_column(keys[0])->0.values@[(
                #[trigger] rows[i]) as int]@ == "__global__"@ {
                crate::catalog::common::refuses(e, "group"@)
            } else {
                exists|i: int|
                    0 <= i < rows.len() && !row_is_sound(
                        entries,
                        data,
                        (#[trigger] rows[i]) as int,
                    ) && blames_the_row(entries, data, rows[i] as int, e)
            }
        }),
{
    let entries = cfg.entries@;
    a_request_is_what_its_options_say(cfg@);
    let asked = Asked::of(cfg@)->Ok_0;
    let columns = asked.columns();
    assert(columns =~= columns_named(entries));
    let keys = crate::panel::group_columns(asked.group);
    assert(keys =~= keys_named(entries));
    crate::panel::the_rows_read_are_the_complete_ones(data, columns, keys);
    if let Some(name) = asked.group {
        crate::panel::a_panel_is_read_exactly_when_it_can_be(data, columns, name, rows);
        assert(keys[0] == name);
    }
    match crate::panel::panel_of(data, columns, asked.group, true) {
        Err(f) => {
            crate::panel::a_panel_is_refused_for_what_is_missing(
                data,
                columns,
                asked.group,
                true,
                e,
            );
            if asked.group is Some && data.usable(columns, keys) is Ok {
                assert(data.key_column(keys[0]) is Some);
            }
        },
        Ok(panel) => {
            let plan = Planned::of(data, asked, panel);
            let checks = group_checks(plan.likelihood, plan.groups);
            crate::data::lemma_fault_of_a_check(checks);
            let g = choose|g: int|
                0 <= g < checks.len() && (#[trigger] checks[g]) == crate::data::first_fault(
                    checks,
                );
            assert(checks[g] == Some(e@));
            if let Some(name) = asked.exposure {
                assert(columns[1] == name);
                assert(data.column(columns[1]) is Some);
            }
            let own = panel.groups[g].rows;
            let i = lemma_group_fault(entries, data, plan.groups[g], own, e);
            match asked.group {
                Some(name) => {
                    crate::panel::a_group_holds_the_rows_of_its_label(data, columns, name, true);
                    assert(crate::panel::all_present(data, columns, keys, own[i] as int));
                },
                None => {
                    crate::panel::an_ungrouped_panel_is_one_group(data, columns, true);
                    assert(crate::panel::all_present(data, columns, keys, own[i] as int));
                },
            }
            assert(rows.contains(own[i]));
            let j = choose|j: int| 0 <= j < rows.len() && rows[j] == own[i];
            assert(!row_is_sound(entries, data, rows[j] as int));
        },
    }
}

/// Whether a slot of the options is at fault: it is not known, or what is written in it may not
/// stand there, or the prior is not sound.
pub open spec fn is_at_fault(entries: Seq<Entry>, slot: Seq<char>) -> bool {
    ||| exists|i: int|
        0 <= i < entries.len() && slot == (#[trigger] entries[i]).name@ && !seq![
            "value"@,
            "group"@,
            "likelihood"@,
            "exposure"@,
            "prior"@,
            "draws"@,
            "chains"@,
            "max_draw_megabytes"@,
            "seed"@,
            "engine"@,
            "sample_from"@,
            "min_obs"@,
        ].contains(slot)
    ||| slot == "value"@ && (crate::config::text_of(entries, "value"@) is None)
    ||| slot == "group"@ && (!crate::config::takes_text(entries, "group"@))
    ||| slot == "likelihood"@ && (!crate::config::takes_text(entries, "likelihood"@)
        || (crate::config::text_of(entries, "likelihood"@) matches Some(s) && !seq!["normal"@, "poisson"@].contains(s)))
    ||| slot == "exposure"@ && ((!crate::config::takes_text(entries, "exposure"@))
        || (crate::config::text_of(entries, "exposure"@) is Some && !asks_for_counts(entries)))
    ||| slot == "min_obs"@ && (!crate::config::takes_count(entries, "min_obs"@, 1, 1_000_000))
    ||| slot == "sample_from"@ && ((!crate::config::takes_text(entries, "sample_from"@))
        || (crate::config::text_of(entries, "sample_from"@) == Some("prior"@) && !prior_has_mass(asks_for_counts(entries), crate::config::table_of(entries, "prior"@))))
    ||| {
        let table = crate::config::table_of(entries, "prior"@);
        !crate::config::takes_table(entries, "prior"@) || if asks_for_counts(entries) {
            !poisson_prior_is_sound(table)
        } else {
            !normal_prior_is_sound(table)
        }
    }
}

/// A request that is refused for its options names a slot that is at fault.
#[verifier::rlimit(40)]
pub proof fn the_slot_that_is_named_is_at_fault(cfg: Config)
    ensures
        Asked::of(cfg@) matches Err(f) ==> (f matches Fault::Config { slot, .. } && is_at_fault(
            cfg.entries@,
            slot,
        )),
{
    let entries = cfg.entries@;
    let known = crate::text::words(SLOTS@);
    assert(known =~= seq![
        "value"@,
        "group"@,
        "likelihood"@,
        "exposure"@,
        "prior"@,
        "draws"@,
        "chains"@,
        "max_draw_megabytes"@,
        "seed"@,
        "engine"@,
        "sample_from"@,
        "min_obs"@,
    ]);
    crate::config::an_unknown_slot_is_named_by_its_path(cfg@, known);
    assert forall|name: Seq<char>| #[trigger] (Seq::<char>::empty() + name) == name by {
        assert(Seq::<char>::empty() + name =~= name);
    }
    reveal_strlit("normal");
    reveal_strlit("poisson");
    crate::config::a_text_slot_gives_the_text_written(cfg@, "value"@);
    crate::config::a_refused_slot_is_named_by_its_path(
        cfg@,
        "value"@,
        Double { bits: 0 },
        0,
        1,
        0,
        Seq::empty(),
        "value"@,
    );
    crate::config::a_text_slot_gives_the_text_written(cfg@, "group"@);
    crate::config::a_refused_slot_is_named_by_its_path(
        cfg@,
        "group"@,
        Double { bits: 0 },
        0,
        1,
        0,
        Seq::empty(),
        "group"@,
    );
    assert(crate::text::words(LIKELIHOODS@) =~= seq!["normal"@, "poisson"@]);
    assert(seq!["normal"@, "poisson"@][0] == "normal"@);
    assert(seq!["normal"@, "poisson"@][1] == "poisson"@);
    crate::config::a_choice_is_the_word_written(
        cfg@,
        "likelihood"@,
        crate::text::words(LIKELIHOODS@),
        "normal"@,
    );
    crate::config::a_refused_slot_is_named_by_its_path(
        cfg@,
        "likelihood"@,
        Double { bits: 0 },
        0,
        1,
        0,
        crate::text::words(LIKELIHOODS@),
        "normal"@,
    );
    crate::config::a_text_slot_gives_the_text_written(cfg@, "exposure"@);
    crate::config::a_refused_slot_is_named_by_its_path(
        cfg@,
        "exposure"@,
        Double { bits: 0 },
        0,
        1,
        0,
        Seq::empty(),
        "exposure"@,
    );
    crate::config::a_count_slot_gives_the_count_written(cfg@, "min_obs"@, 1, 1, 1_000_000);
    crate::config::a_count_slot_gives_the_count_written(cfg@, "min_obs"@, 2, 1, 1_000_000);
    crate::config::a_refused_slot_is_named_by_its_path(
        cfg@,
        "min_obs"@,
        Double { bits: 0 },
        1,
        1_000_000,
        2,
        Seq::empty(),
        "min_obs"@,
    );
    crate::config::a_refused_slot_is_named_by_its_path(
        cfg@,
        "min_obs"@,
        Double { bits: 0 },
        1,
        1_000_000,
        1,
        Seq::empty(),
        "min_obs"@,
    );
    crate::config::a_text_slot_gives_the_text_written(cfg@, "sample_from"@);
    crate::config::a_refused_slot_is_named_by_its_path(
        cfg@,
        "sample_from"@,
        Double { bits: 0 },
        0,
        1,
        0,
        Seq::empty(),
        "sample_from"@,
    );
    crate::config::a_text_slot_gives_the_text_written(cfg@, "prior"@);
    if let Ok(table) = cfg@.table("prior"@) {
        lemma_normal_prior(table);
        lemma_poisson_prior(table);
    }
    crate::config::an_engine_and_a_source_are_asked_for_by_name(cfg@);
}

impl ConjugateAnomaly {
    pub fn id(&self) -> (r: &'static str)
        ensures
            r@ == ID@,
    {
        ID
    }

    pub fn code(&self) -> (r: FamilyCode)
        ensures
            r == FamilyCode::ConjugateAnomaly,
    {
        FamilyCode::ConjugateAnomaly
    }

    pub fn description(&self) -> (r: &'static str)
        ensures
            r@ == DESCRIPTION@,
    {
        DESCRIPTION
    }

    pub fn default_engine(&self) -> (r: EngineKind)
        ensures
            r == EngineKind::Exact,
    {
        EngineKind::Exact
    }

    pub fn config_slots(&self) -> (r: [&'static str; 12])
        ensures
            r == SLOTS,
    {
        SLOTS
    }

    /// Reads a request and the relation it names.
    pub fn compile(&self, cfg: &Config, data: &DataView) -> (r: BayesResult<ConjugatePlan>)
        requires
            data.wf(),
        ensures
            crate::errors::outcome(r) == planned(cfg@, *data),
            r matches Ok(p) ==> p.wf(),
    {
        plan(cfg, data)
    }

    /// The columns and rows that a fit of this request reads: what the fingerprint of its
    /// data is taken of.
    pub fn reading(&self, cfg: &Config, data: &DataView) -> (r: BayesResult<Reading>)
        requires
            data.wf(),
        ensures
            crate::errors::outcome(r) == reads(cfg@, *data),
    {
        let request = Request::parse(cfg)?;
        read_columns(data, request.list_columns(), &request.group)
    }
}

} // verus!
