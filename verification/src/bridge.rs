//! From a censored survival fit to a Gaussian posterior.
//!
//! The mode of an accelerated failure time model, and the curvature of its log posterior
//! there, are a Laplace posterior in all but name. A statistics package finds both; this
//! module decides whether what it reports may be used, and says why where it may not. A
//! refusal is an answer, not an error: only a request that cannot be right is an error.
use crate::catalog::common::{are_finite_until, ONE_BITS};
use crate::double::Double;
use crate::errors::{BayesError, BayesResult, Fault, Message};
use crate::readiness::{Readiness, Verdict};
use crate::text::{contains, decimal, same_text};
use crate::types::FitStatus;
use vstd::prelude::*;

verus! {

/// How closely the covariance must reproduce the standard errors that are reported with
/// it, relative to each of them: the bits of 1e-8.
pub const SE_AGREEMENT_TOLERANCE: u64 = 0x3E45_798E_E230_8C3A;

pub const ALL_CENSORED: &'static str = "every observation is censored";

pub const ALL_CENSORED_REASON: &'static str =
    "every observation is right-censored, so no event time informs the \
     duration level and the model is not identified";

pub const NOTHING_USABLE: &'static str = "no usable observations remain after filtering";

pub const RANK_DEFICIENT: &'static str = "the censored AFT design is rank deficient at the mode";

pub const UNMAPPED: &'static str =
    "anofox-stats-core refused a censored AFT fit in a way this bridge does not \
     map: ";

pub const ROWS_LOST: &'static str =
    " rows it was given; the data fingerprint \
     would not describe the rows the fit actually used";

pub const NO_USABLE_MODE: &'static str =
    "); the likelihood \
     surface has no interior maximum for this data";

pub const NO_INFERENCE: &'static str =
    "anofox-stats-core reported no inference for the censored AFT fit, so \
     there is no curvature at the mode to build a posterior from";

pub const NO_CURVATURE: &'static str =
    "anofox-stats-core reported inference without the curvature; the pinned \
     revision no longer publishes what this bridge samples from";

pub const INFINITE_CURVATURE: &'static str =
    "the curvature at the censored AFT mode is not finite";

pub const NO_USABLE_COVARIANCE: &'static str =
    "); the \
     design is rank deficient at the mode, so the curvature there is not a \
     posterior";

pub const DISAGREEMENT: &'static str =
    "anofox-stats-core's covariance disagrees with its own standard errors \
     at coordinate ";

pub const OTHER_MEANING: &'static str =
    ". The pinned \
     revision no longer means the same thing by this likelihood";

/// The error distribution of an accelerated failure time model.
#[derive(Debug, Clone, Copy, PartialEq, Eq, Structural)]
pub enum AftDistribution {
    Weibull,
    LogNormal,
    LogLogistic,
    Exponential,
}

impl AftDistribution {
    /// What a name stands for.
    pub open spec fn named(name: Seq<char>) -> Option<AftDistribution> {
        if name == "weibull"@ {
            Some(AftDistribution::Weibull)
        } else if name == "lognormal"@ {
            Some(AftDistribution::LogNormal)
        } else if name == "loglogistic"@ {
            Some(AftDistribution::LogLogistic)
        } else if name == "exponential"@ {
            Some(AftDistribution::Exponential)
        } else {
            None
        }
    }

    pub open spec fn fixes_scale(self) -> bool {
        self == AftDistribution::Exponential
    }

    pub fn from_name(name: &str) -> (r: Option<AftDistribution>)
        ensures
            r == AftDistribution::named(name@),
    {
        if same_text(name, "weibull") {
            Some(AftDistribution::Weibull)
        } else if same_text(name, "lognormal") {
            Some(AftDistribution::LogNormal)
        } else if same_text(name, "loglogistic") {
            Some(AftDistribution::LogLogistic)
        } else if same_text(name, "exponential") {
            Some(AftDistribution::Exponential)
        } else {
            None
        }
    }

    /// Whether the scale is held at one rather than estimated.
    pub fn scale_is_fixed(self) -> (r: bool)
        ensures
            r == self.fixes_scale(),
    {
        matches!(self, AftDistribution::Exponential)
    }
}

/// The prior of one coefficient.
#[derive(Debug, Clone, Copy, PartialEq, Eq, Structural)]
pub enum PriorSpec {
    Flat,
    Normal { mean: Double, sd: Double },
}

/// One censored fit.
#[derive(Debug)]
pub struct CensoredAftRequest {
    pub dist: AftDistribution,
    /// Event or censoring times.
    pub time: Vec<Double>,
    /// One where the event was observed, zero where it was not yet.
    pub event: Vec<Double>,
    /// The predictors, column by column.
    pub x: Vec<Vec<Double>>,
    pub intercept: bool,
    /// The priors of the coefficients, the intercept's first where there is one; none at
    /// all for flat priors throughout.
    pub priors: Vec<PriorSpec>,
}

/// What a [`CensoredAftRequest`] says.
#[verifier::ext_equal]
pub struct Censored {
    pub dist: AftDistribution,
    pub time: Seq<Double>,
    pub event: Seq<Double>,
    pub x: Seq<Seq<Double>>,
    pub intercept: bool,
    pub priors: Seq<PriorSpec>,
}

impl View for CensoredAftRequest {
    type V = Censored;

    open spec fn view(&self) -> Censored {
        Censored {
            dist: self.dist,
            time: self.time@,
            event: self.event@,
            x: crate::data::lists(self.x@),
            intercept: self.intercept,
            priors: self.priors@,
        }
    }
}

/// What the covariance of a fit is the variance of.
#[derive(Debug, Clone, Copy, PartialEq, Eq, Structural)]
pub enum VcovType {
    /// The inverse of the curvature of the log posterior at its mode.
    Laplace,
    /// The sampling variance of the estimator, from the scores.
    Sandwich,
    /// The sampling variance of the estimator, from the curvature.
    Naive,
}

/// What a statistics package is asked for when it fits a censored model.
#[derive(Debug)]
pub struct AftOptions {
    pub dist: AftDistribution,
    pub fit_intercept: bool,
    pub compute_inference: bool,
    /// The priors of the coefficients, the intercept's first where there is one.
    pub priors: Vec<PriorSpec>,
    pub vcov: VcovType,
}

/// What [`AftOptions`] say.
#[verifier::ext_equal]
pub struct Options {
    pub dist: AftDistribution,
    pub fit_intercept: bool,
    pub compute_inference: bool,
    pub priors: Seq<PriorSpec>,
    pub vcov: VcovType,
}

impl View for AftOptions {
    type V = Options;

    open spec fn view(&self) -> Options {
        Options {
            dist: self.dist,
            fit_intercept: self.fit_intercept,
            compute_inference: self.compute_inference,
            priors: self.priors@,
            vcov: self.vcov,
        }
    }
}

impl Censored {
    /// What the package is asked for: the model of the request, with inference, and with
    /// the curvature of the log posterior for its covariance.
    pub open spec fn options(self) -> Options {
        Options {
            dist: self.dist,
            fit_intercept: self.intercept,
            compute_inference: true,
            priors: self.priors,
            vcov: VcovType::Laplace,
        }
    }
}

impl CensoredAftRequest {
    /// What the package is asked for. A sampling variance of a penalised estimator is not
    /// the covariance of a posterior, so none is asked for.
    pub fn options(&self) -> (r: AftOptions)
        ensures
            r@ == self@.options(),
    {
        let mut priors: Vec<PriorSpec> = Vec::new();
        let mut k: usize = 0;
        while k < self.priors.len()
            invariant
                k <= self.priors@.len(),
                priors@ == self.priors@.take(k as int),
            decreases self.priors@.len() - k,
        {
            priors.push(self.priors[k]);
            k += 1;
            proof {
                assert(priors@ =~= self.priors@.take(k as int));
            }
        }
        proof {
            assert(priors@ =~= self.priors@);
        }
        AftOptions {
            dist: self.dist,
            fit_intercept: self.intercept,
            compute_inference: true,
            priors,
            vcov: VcovType::Laplace,
        }
    }
}

impl Censored {
    /// How many coefficients there are.
    pub open spec fn n_beta(self) -> int {
        self.x.len() + if self.intercept {
            1int
        } else {
            0int
        }
    }

    /// How many coordinates the posterior has: the coefficients, and the log scale where
    /// it is estimated.
    pub open spec fn n_params(self) -> int {
        self.n_beta() + if self.dist.fixes_scale() {
            0int
        } else {
            1int
        }
    }
}

/// A square matrix, row by row.
#[derive(Debug)]
pub struct Matrix {
    pub rows: Vec<Vec<Double>>,
}

impl View for Matrix {
    type V = Seq<Seq<Double>>;

    open spec fn view(&self) -> Seq<Seq<Double>> {
        crate::data::lists(self.rows@)
    }
}

/// Whether a matrix has `n` rows of `n` entries.
pub open spec fn square(m: Seq<Seq<Double>>, n: int) -> bool {
    m.len() == n && forall|i: int| 0 <= i < n ==> (#[trigger] m[i]).len() == n
}

/// Whether the first `n` rows and columns of a matrix are finite.
pub open spec fn finite_block(m: Seq<Seq<Double>>, n: int) -> bool {
    forall|i: int| 0 <= i < n ==> crate::catalog::common::finite_until(#[trigger] m[i], n)
}

/// Whether a matrix has at least `n` rows and `n` entries in each of the first `n`.
pub open spec fn covers(m: Seq<Seq<Double>>, n: int) -> bool {
    m.len() >= n && forall|i: int| 0 <= i < n ==> (#[trigger] m[i]).len() >= n
}

/// The first `n` rows and columns of a matrix.
pub open spec fn leading(m: Seq<Seq<Double>>, n: int) -> Seq<Seq<Double>> {
    Seq::new(n as nat, |i: int| m[i].take(n))
}

/// The leading part of a matrix has the entries of the matrix, each in its own place.
pub proof fn a_leading_part_keeps_its_entries(m: Seq<Seq<Double>>, n: int, i: int, j: int)
    requires
        covers(m, n),
        0 <= i < n,
        0 <= j < n,
    ensures
        square(leading(m, n), n),
        leading(m, n)[i][j] == m[i][j],
{
    assert forall|k: int| 0 <= k < n implies (#[trigger] leading(m, n)[k]).len() == n by {
        assert(m[k].len() >= n);
    }
}

impl Matrix {
    /// The first `n` rows and columns; none, where there are not that many.
    pub fn leading(&self, n: usize) -> (r: Option<Matrix>)
        ensures
            r is Some <==> covers(self@, n as int),
            r matches Some(m) ==> m@ == leading(self@, n as int) && square(m@, n as int),
    {
        if self.rows.len() < n {
            return None;
        }
        let mut rows: Vec<Vec<Double>> = Vec::new();
        let mut i: usize = 0;
        while i < n
            invariant
                i <= n <= self.rows@.len(),
                rows@.len() == i,
                forall|k: int|
                    0 <= k < i ==> (#[trigger] self@[k]).len() >= n && rows@[k]@ == self@[k].take(
                        n as int,
                    ),
            decreases n - i,
        {
            proof {
                assert(self@[i as int] == self.rows@[i as int]@);
            }
            if self.rows[i].len() < n {
                proof {
                    assert(!covers(self@, n as int));
                }
                return None;
            }
            let mut row: Vec<Double> = Vec::new();
            let mut j: usize = 0;
            while j < n
                invariant
                    i < n <= self.rows@.len(),
                    j <= n <= self.rows@[i as int]@.len(),
                    row@ == self.rows@[i as int]@.take(j as int),
                decreases n - j,
            {
                row.push(self.rows[i][j]);
                j += 1;
                proof {
                    assert(row@ =~= self.rows@[i as int]@.take(j as int));
                }
            }
            rows.push(row);
            i += 1;
        }
        let m = Matrix { rows };
        proof {
            assert forall|k: int| 0 <= k < n implies (#[trigger] m@[k]) == self@[k].take(
                n as int,
            ) by {
                assert(self@[k].len() >= n);
            }
            assert(m@ =~= leading(self@, n as int));
        }
        Some(m)
    }

    /// Whether the first `n` rows and columns are finite.
    fn is_finite(&self, n: usize) -> (r: bool)
        requires
            square(self@, n as int),
        ensures
            r == finite_block(self@, n as int),
    {
        let mut i: usize = 0;
        while i < n
            invariant
                i <= n,
                square(self@, n as int),
                forall|k: int| 0 <= k < i ==> crate::catalog::common::finite_until(#[trigger] self@[k], n as int),
            decreases n - i,
        {
            proof {
                assert(self@[i as int] == self.rows@[i as int]@);
            }
            if !are_finite_until(&self.rows[i], n) {
                proof {
                    assert(!crate::catalog::common::finite_until(self@[i as int], n as int));
                }
                return false;
            }
            i += 1;
        }
        true
    }
}

/// The curvature and the standard errors that a fit reports.
#[derive(Debug)]
pub struct AftInference {
    /// The observed information at the mode, in design order.
    pub information: Option<Matrix>,
    /// Its inverse.
    pub vcov: Option<Matrix>,
    /// The square roots of the covariance's diagonal.
    pub roots: Vec<Double>,
    pub intercept_std_error: Option<Double>,
    pub std_errors: Vec<Double>,
    pub log_scale_std_error: Option<Double>,
    /// Of each coordinate, whether its root and its reported standard error are further
    /// apart than [`SE_AGREEMENT_TOLERANCE`] allows.
    pub apart: Vec<bool>,
}

/// What a fit reports.
#[derive(Debug)]
pub struct AftFit {
    pub intercept: Option<Double>,
    pub coefficients: Vec<Double>,
    pub scale: Double,
    /// The natural logarithm of `scale`.
    pub log_scale: Double,
    pub n_observations: usize,
    pub n_events: usize,
    pub n_censored: usize,
    pub inference: Option<AftInference>,
}

/// What a fit is refused with.
#[derive(Debug)]
pub enum StatsError {
    InvalidValue { field: String, message: String },
    InsufficientData { rows: usize, cols: usize },
    InsufficientDataMsg(String),
    NoValidData,
    EmptyInput,
    ConvergenceFailure { iterations: usize, tolerance: Double },
    SingularMatrix,
    CholeskyFailed,
    QrFailed,
    DimensionMismatch { y_len: usize, x_rows: usize },
    /// Any other, as it describes itself.
    Other(String),
}

/// A mode and the full curvature at it.
#[derive(Debug)]
pub struct BridgedGaussian {
    /// The mode, in design order: coefficients, then the log scale where it is estimated.
    pub mode: Vec<Double>,
    /// The observed information at the mode: the precision that a draw is made with.
    pub information: Matrix,
    /// Its inverse.
    pub covariance: Matrix,
    /// The square roots of the covariance's diagonal.
    pub std_errors: Vec<Double>,
    /// The scale at the mode; one where the distribution fixes it.
    pub scale: Double,
    /// Whether the log scale is the last coordinate of the mode.
    pub fit_scale: bool,
    pub n_obs: usize,
    pub n_events: usize,
    pub n_censored: usize,
}

/// What a [`BridgedGaussian`] holds.
#[verifier::ext_equal]
pub struct Posterior {
    pub mode: Seq<Double>,
    pub information: Seq<Seq<Double>>,
    pub covariance: Seq<Seq<Double>>,
    pub std_errors: Seq<Double>,
    pub scale: Double,
    pub fit_scale: bool,
    pub n_obs: usize,
    pub n_events: usize,
    pub n_censored: usize,
}

impl View for BridgedGaussian {
    type V = Posterior;

    open spec fn view(&self) -> Posterior {
        Posterior {
            mode: self.mode@,
            information: self.information@,
            covariance: self.covariance@,
            std_errors: self.std_errors@,
            scale: self.scale,
            fit_scale: self.fit_scale,
            n_obs: self.n_obs,
            n_events: self.n_events,
            n_censored: self.n_censored,
        }
    }
}

impl BridgedGaussian {
    /// Number of coordinates.
    pub fn dim(&self) -> (r: usize)
        ensures
            r == self.mode@.len(),
    {
        self.mode.len()
    }
}

/// What bridging a fit comes to.
#[derive(Debug)]
pub enum Bridged {
    Fitted(Box<BridgedGaussian>),
    Refused(Readiness),
}

/// What a [`Bridged`] says.
#[verifier::ext_equal]
pub enum Bridging {
    Fitted(Posterior),
    Refused(Verdict),
}

impl View for Bridged {
    type V = Bridging;

    open spec fn view(&self) -> Bridging {
        match self {
            Bridged::Fitted(g) => Bridging::Fitted((**g)@),
            Bridged::Refused(r) => Bridging::Refused(r@),
        }
    }
}

impl StatsError {
    /// The verdict that a refusal stands for, or the fault where it is no verdict on the
    /// evidence but on the request.
    pub open spec fn mapped(self) -> Result<Verdict, Fault> {
        match self {
            StatsError::InvalidValue { field, message } => if field@ == "event"@
                && crate::text::holds(message@, ALL_CENSORED@) {
                Ok(
                    Verdict::because(
                        FitStatus::Degenerate,
                        Message::saying(ALL_CENSORED_REASON@),
                    ),
                )
            } else {
                Err(Fault::config(field@, message@))
            },
            StatsError::InsufficientData { rows, cols } => Ok(
                Verdict::because(
                    FitStatus::InsufficientData,
                    Message::saying(
                        crate::text::numeral(rows as nat) + " usable rows for "@
                            + crate::text::numeral(cols as nat)
                            + " parameters: the censored AFT posterior would be the prior"@,
                    ),
                ),
            ),
            StatsError::InsufficientDataMsg(text) => Ok(
                Verdict::because(FitStatus::InsufficientData, Message::saying(text@)),
            ),
            StatsError::NoValidData => Ok(
                Verdict::because(FitStatus::InsufficientData, Message::saying(NOTHING_USABLE@)),
            ),
            StatsError::EmptyInput => Ok(
                Verdict::because(FitStatus::InsufficientData, Message::saying(NOTHING_USABLE@)),
            ),
            StatsError::ConvergenceFailure { iterations, tolerance } => Ok(
                Verdict::because(
                    FitStatus::Failed,
                    Message::showing(
                        "the censored AFT mode search did not converge after "@
                            + crate::text::numeral(iterations as nat)
                            + " iterations (tolerance "@,
                        tolerance,
                        "); there is no mode to expand a posterior around"@,
                    ),
                ),
            ),
            StatsError::SingularMatrix => Ok(
                Verdict::because(FitStatus::Degenerate, Message::saying(RANK_DEFICIENT@)),
            ),
            StatsError::CholeskyFailed => Ok(
                Verdict::because(FitStatus::Degenerate, Message::saying(RANK_DEFICIENT@)),
            ),
            StatsError::QrFailed => Ok(
                Verdict::because(FitStatus::Degenerate, Message::saying(RANK_DEFICIENT@)),
            ),
            StatsError::DimensionMismatch { y_len, x_rows } => Err(
                Fault::DimensionMismatch(
                    "time has "@ + crate::text::numeral(y_len as nat)
                        + " entries, a predictor has "@ + crate::text::numeral(x_rows as nat),
                ),
            ),
            StatsError::Other(text) => Err(Fault::Internal(Message::saying(UNMAPPED@ + text@))),
        }
    }
}

/// Maps a refusal of the statistics package onto the verdicts of this library: mapped,
/// never inherited.
pub fn map_refusal(e: StatsError) -> (r: BayesResult<Readiness>)
    ensures
        crate::errors::outcome(r) == e.mapped(),
{
    match e {
        StatsError::InvalidValue { field, message } => if same_text(field.as_str(), "event")
            && contains(message.as_str(), ALL_CENSORED) {
            Ok(Readiness::degenerate(Message::of(ALL_CENSORED_REASON.to_owned())))
        } else {
            Err(BayesError::config(field.as_str(), message.as_str()))
        },
        StatsError::InsufficientData { rows, cols } => Ok(
            Readiness::insufficient(
                Message::of(
                    decimal(rows).concat(" usable rows for ").concat(
                        decimal(cols).as_str(),
                    ).concat(" parameters: the censored AFT posterior would be the prior"),
                ),
            ),
        ),
        StatsError::InsufficientDataMsg(text) => Ok(Readiness::insufficient(Message::of(text))),
        StatsError::NoValidData => Ok(
            Readiness::insufficient(Message::of(NOTHING_USABLE.to_owned())),
        ),
        StatsError::EmptyInput => Ok(
            Readiness::insufficient(Message::of(NOTHING_USABLE.to_owned())),
        ),
        StatsError::ConvergenceFailure { iterations, tolerance } => Ok(
            Readiness::failed(
                Message::with_number(
                    "the censored AFT mode search did not converge after ".to_owned().concat(
                        decimal(iterations).as_str(),
                    ).concat(" iterations (tolerance "),
                    tolerance,
                    "); there is no mode to expand a posterior around",
                ),
            ),
        ),
        StatsError::SingularMatrix => Ok(
            Readiness::degenerate(Message::of(RANK_DEFICIENT.to_owned())),
        ),
        StatsError::CholeskyFailed => Ok(
            Readiness::degenerate(Message::of(RANK_DEFICIENT.to_owned())),
        ),
        StatsError::QrFailed => Ok(Readiness::degenerate(Message::of(RANK_DEFICIENT.to_owned()))),
        StatsError::DimensionMismatch { y_len, x_rows } => Err(
            BayesError::DimensionMismatch(
                "time has ".to_owned().concat(decimal(y_len).as_str()).concat(
                    " entries, a predictor has ",
                ).concat(decimal(x_rows).as_str()),
            ),
        ),
        StatsError::Other(text) => Err(
            BayesError::Internal(Message::of(UNMAPPED.to_owned().concat(text.as_str()))),
        ),
    }
}

/// A value that may be absent, as a list of one or none.
pub open spec fn one_if(given: Option<Double>) -> Seq<Double> {
    match given {
        Some(d) => seq![d],
        None => Seq::empty(),
    }
}

/// A value that is reported as a NaN where it is absent.
pub open spec fn or_nan(given: Option<Double>) -> Double {
    match given {
        Some(d) => d,
        None => Double::spec_nan(),
    }
}

/// The mode, in design order.
pub open spec fn mode_of(fit: AftFit, fit_scale: bool) -> Seq<Double> {
    one_if(fit.intercept) + fit.coefficients@ + if fit_scale {
        seq![fit.log_scale]
    } else {
        Seq::empty()
    }
}

/// The reported standard errors, in design order.
pub open spec fn reported_errors(inference: AftInference, intercept: bool, fit_scale: bool) -> Seq<
    Double,
> {
    (if intercept {
        seq![or_nan(inference.intercept_std_error)]
    } else {
        Seq::empty()
    }) + inference.std_errors@ + if fit_scale {
        seq![or_nan(inference.log_scale_std_error)]
    } else {
        Seq::empty()
    }
}

/// The reported standard errors, in design order: the order that the roots of the
/// covariance's diagonal come in.
pub fn statistics_standard_errors(
    inference: &AftInference,
    intercept: bool,
    fit_scale: bool,
) -> (r: Vec<Double>)
    ensures
        r@ == reported_errors(*inference, intercept, fit_scale),
{
    let mut out: Vec<Double> = Vec::new();
    if intercept {
        out.push(
            match inference.intercept_std_error {
                Some(d) => d,
                None => Double::not_a_number(),
            },
        );
    }
    let mut more = inference.std_errors.clone();
    proof {
        assert(more@ =~= inference.std_errors@);
    }
    out.append(&mut more);
    if fit_scale {
        out.push(
            match inference.log_scale_std_error {
                Some(d) => d,
                None => Double::not_a_number(),
            },
        );
    }
    proof {
        assert(out@ =~= reported_errors(*inference, intercept, fit_scale));
    }
    out
}

/// Whether a standard error is one: finite and above zero.
pub open spec fn usable_error(s: Double) -> bool {
    s.finite() && !s.le(Double { bits: 0 })
}

/// Whether all standard errors are.
pub open spec fn usable_errors(s: Seq<Double>) -> bool {
    forall|i: int| 0 <= i < s.len() ==> usable_error(#[trigger] s[i])
}

/// The fault of a coordinate at which the covariance and the reported standard errors say
/// different things.
pub open spec fn disagreement(j: int, ours: Double, theirs: Double) -> Fault {
    Fault::Internal(
        Message::showing_two(
            DISAGREEMENT@ + crate::text::numeral(j as nat) + ": "@,
            ours,
            " against the reported "@,
            theirs,
        ) + Message::saying(OTHER_MEANING@),
    )
}

/// Coordinate by coordinate, whether the two agree. A reported error that is not a number
/// agrees with nothing.
pub open spec fn agreement_checks(
    roots: Seq<Double>,
    reported: Seq<Double>,
    apart: Seq<bool>,
) -> Seq<Option<Fault>> {
    Seq::new(
        if roots.len() < reported.len() {
            roots.len()
        } else {
            reported.len()
        },
        |j: int|
            if !reported[j].finite() || apart[j] {
                Some(disagreement(j, roots[j], reported[j]))
            } else {
                None
            },
    )
}

/// A refusal because the curvature is not a posterior.
pub open spec fn degenerate(reason: Seq<crate::errors::Piece>) -> Result<Bridging, Fault> {
    Ok(Bridging::Refused(Verdict::because(FitStatus::Degenerate, reason)))
}

impl AftInference {
    /// What is made of the reported curvature at a mode. Whether it is a posterior at all
    /// is decided before whether it agrees with the reported errors, so that two NaNs are
    /// never taken for an agreement.
    pub open spec fn judged(self, req: Censored, fit: AftFit) -> Result<Bridging, Fault> {
        let n = req.n_params();
        let fit_scale = !req.dist.fixes_scale();
        if self.information is None || self.vcov is None {
            degenerate(Message::saying(NO_CURVATURE@))
        } else if !finite_block(self.information->0@, n) {
            degenerate(Message::saying(INFINITE_CURVATURE@))
        } else if !usable_errors(self.roots@) || !finite_block(self.vcov->0@, n) {
            degenerate(
                Message::listing(
                    "the censored AFT posterior has no usable covariance ("@,
                    self.roots@,
                    NO_USABLE_COVARIANCE@,
                ),
            )
        } else if let Some(f) = crate::data::first_fault(
            agreement_checks(
                self.roots@,
                reported_errors(self, req.intercept, fit_scale),
                self.apart@,
            ),
        ) {
            Err(f)
        } else {
            Ok(
                Bridging::Fitted(
                    Posterior {
                        mode: mode_of(fit, fit_scale),
                        information: self.information->0@,
                        covariance: self.vcov->0@,
                        std_errors: self.roots@,
                        scale: if fit_scale {
                            fit.scale
                        } else {
                            Double { bits: ONE_BITS }
                        },
                        fit_scale,
                        n_obs: fit.n_observations,
                        n_events: fit.n_events,
                        n_censored: fit.n_censored,
                    },
                ),
            )
        }
    }

    /// The curvature has an entry, and a root, for every pair of coordinates.
    pub open spec fn shaped(self, n_params: int) -> bool {
        &&& self.information matches Some(m) ==> square(m@, n_params)
        &&& self.vcov matches Some(m) ==> square(m@, n_params)
        &&& self.information is Some && self.vcov is Some ==> self.roots@.len() == n_params
            && self.apart@.len() == n_params
    }
}

/// What is made of a reply to a request: the posterior, the verdict that there is none to
/// be had, or what is wrong.
pub open spec fn bridged(req: Censored, reply: Result<AftFit, StatsError>) -> Result<
    Bridging,
    Fault,
> {
    match reply {
        Err(e) => match e.mapped() {
            Err(f) => Err(f),
            Ok(v) => Ok(Bridging::Refused(v)),
        },
        Ok(fit) => {
            let mode = mode_of(fit, !req.dist.fixes_scale());
            if fit.n_observations != req.time.len() {
                Err(
                    Fault::Internal(
                        Message::saying(
                            "the bridged fit read "@ + crate::text::numeral(
                                fit.n_observations as nat,
                            ) + " of the "@ + crate::text::numeral(req.time.len()) + ROWS_LOST@,
                        ),
                    ),
                )
            } else if mode.len() != req.n_params() || !crate::catalog::common::all_finite(mode) {
                degenerate(
                    Message::listing(
                        "the censored AFT mode is not a usable point ("@,
                        mode,
                        NO_USABLE_MODE@,
                    ),
                )
            } else {
                match fit.inference {
                    None => degenerate(Message::saying(NO_INFERENCE@)),
                    Some(inference) => inference.judged(req, fit),
                }
            }
        },
    }
}

/// Whether a reply to a request has the curvature of all its coordinates.
pub open spec fn shaped(req: Censored, reply: Result<AftFit, StatsError>) -> bool {
    reply matches Ok(fit) ==> (fit.inference matches Some(i) ==> i.shaped(req.n_params()))
}

fn errors_are_usable(s: &Vec<Double>) -> (r: bool)
    ensures
        r == usable_errors(s@),
{
    let zero = Double::zero();
    let mut k: usize = 0;
    while k < s.len()
        invariant
            k <= s@.len(),
            zero.bits == 0,
            forall|i: int| 0 <= i < k ==> usable_error(#[trigger] s@[i]),
        decreases s@.len() - k,
    {
        if !s[k].is_finite() || s[k].at_most(zero) {
            proof {
                assert(!usable_error(s@[k as int]));
            }
            return false;
        }
        k += 1;
    }
    true
}

fn check_agreement(roots: &Vec<Double>, reported: &Vec<Double>, apart: &Vec<bool>) -> (r:
    BayesResult<()>)
    requires
        apart@.len() == roots@.len(),
    ensures
        ({
            let checks = agreement_checks(roots@, reported@, apart@);
            match r {
                Ok(_) => crate::data::first_fault(checks) is None,
                Err(e) => crate::data::first_fault(checks) == Some(e@),
            }
        }),
{
    let ghost checks = agreement_checks(roots@, reported@, apart@);
    let mut j: usize = 0;
    while j < roots.len() && j < reported.len()
        invariant
            j <= roots@.len(),
            j <= reported@.len(),
            apart@.len() == roots@.len(),
            checks == agreement_checks(roots@, reported@, apart@),
            forall|i: int| 0 <= i < j ==> (#[trigger] checks[i]) is None,
        decreases roots@.len() - j,
    {
        if !reported[j].is_finite() || apart[j] {
            let e = BayesError::Internal(
                Message::with_two_numbers(
                    DISAGREEMENT.to_owned().concat(decimal(j).as_str()).concat(": "),
                    roots[j],
                    " against the reported ",
                    reported[j],
                ).followed(OTHER_MEANING),
            );
            proof {
                assert(checks[j as int] == Some(e@));
                crate::data::lemma_first_fault(checks, j as int);
            }
            return Err(e);
        }
        j += 1;
    }
    proof {
        crate::data::lemma_first_fault(checks, j as int);
    }
    Ok(())
}

fn refuse(reason: Message) -> (r: BayesResult<Bridged>)
    ensures
        crate::errors::outcome(r) == degenerate(reason@),
{
    Ok(Bridged::Refused(Readiness::degenerate(reason)))
}

fn assemble_mode(
    intercept: Option<Double>,
    coefficients: Vec<Double>,
    log_scale: Double,
    fit_scale: bool,
) -> (r: Vec<Double>)
    ensures
        r@ == one_if(intercept) + coefficients@ + if fit_scale {
            seq![log_scale]
        } else {
            Seq::empty()
        },
{
    let ghost middle = coefficients@;
    let mut mode: Vec<Double> = Vec::new();
    match intercept {
        Some(a) => {
            mode.push(a);
        },
        None => {},
    }
    let mut coefficients = coefficients;
    mode.append(&mut coefficients);
    if fit_scale {
        mode.push(log_scale);
    }
    proof {
        assert(mode@ =~= one_if(intercept) + middle + if fit_scale {
            seq![log_scale]
        } else {
            Seq::empty()
        });
    }
    mode
}

/// Judges the reply to a censored fit: a Laplace posterior, a refusal with its verdict,
/// or an error.
pub fn fit_censored_aft(req: &CensoredAftRequest, reply: Result<AftFit, StatsError>) -> (r:
    BayesResult<Bridged>)
    requires
        req.x@.len() <= usize::MAX - 2,
        shaped(req@, reply),
    ensures
        crate::errors::outcome(r) == bridged(req@, reply),
{
    let fit = match reply {
        Ok(fit) => fit,
        Err(e) => {
            let verdict = map_refusal(e)?;
            return Ok(Bridged::Refused(verdict));
        },
    };
    let fit_scale = !req.dist.scale_is_fixed();
    let mut n_params: usize = req.x.len();
    if req.intercept {
        n_params += 1;
    }
    if fit_scale {
        n_params += 1;
    }
    proof {
        assert(req@.x.len() == req.x@.len());
    }
    if fit.n_observations != req.time.len() {
        return Err(
            BayesError::Internal(
                Message::of(
                    "the bridged fit read ".to_owned().concat(
                        decimal(fit.n_observations).as_str(),
                    ).concat(" of the ").concat(decimal(req.time.len()).as_str()).concat(
                        ROWS_LOST,
                    ),
                ),
            ),
        );
    }
    let mode = assemble_mode(fit.intercept, fit.coefficients, fit.log_scale, fit_scale);
    if mode.len() != n_params || !are_finite_until(&mode, mode.len()) {
        return refuse(
            Message::with_numbers(
                "the censored AFT mode is not a usable point (",
                mode,
                NO_USABLE_MODE,
            ),
        );
    }
    let inference = match fit.inference {
        Some(inference) => inference,
        None => {
            return refuse(Message::of(NO_INFERENCE.to_owned()));
        },
    };
    let reported = statistics_standard_errors(&inference, req.intercept, fit_scale);
    if let (Some(information), Some(covariance)) = (inference.information, inference.vcov) {
        if !information.is_finite(n_params) {
            return refuse(Message::of(INFINITE_CURVATURE.to_owned()));
        }
        if !errors_are_usable(&inference.roots) || !covariance.is_finite(n_params) {
            return refuse(
                Message::with_numbers(
                    "the censored AFT posterior has no usable covariance (",
                    inference.roots,
                    NO_USABLE_COVARIANCE,
                ),
            );
        }
        check_agreement(&inference.roots, &reported, &inference.apart)?;
        Ok(
            Bridged::Fitted(
                Box::new(
                    BridgedGaussian {
                        mode,
                        information,
                        covariance,
                        std_errors: inference.roots,
                        scale: if fit_scale {
                            fit.scale
                        } else {
                            Double { bits: ONE_BITS }
                        },
                        fit_scale,
                        n_obs: fit.n_observations,
                        n_events: fit.n_events,
                        n_censored: fit.n_censored,
                    },
                ),
            ),
        )
    } else {
        refuse(Message::of(NO_CURVATURE.to_owned()))
    }
}

/// A distribution is known by its own name and no other: there are four of them, and the
/// exponential alone has no scale to estimate.
pub proof fn a_distribution_is_known_by_its_name(name: Seq<char>)
    ensures
        AftDistribution::named("weibull"@) == Some(AftDistribution::Weibull),
        AftDistribution::named("lognormal"@) == Some(AftDistribution::LogNormal),
        AftDistribution::named("loglogistic"@) == Some(AftDistribution::LogLogistic),
        AftDistribution::named("exponential"@) == Some(AftDistribution::Exponential),
        match AftDistribution::named(name) {
            Some(AftDistribution::Weibull) => name == "weibull"@,
            Some(AftDistribution::LogNormal) => name == "lognormal"@,
            Some(AftDistribution::LogLogistic) => name == "loglogistic"@,
            Some(AftDistribution::Exponential) => name == "exponential"@,
            None => name != "weibull"@ && name != "lognormal"@ && name != "loglogistic"@ && name
                != "exponential"@,
        },
        AftDistribution::Exponential.fixes_scale(),
        !AftDistribution::Weibull.fixes_scale(),
        !AftDistribution::LogNormal.fixes_scale(),
        !AftDistribution::LogLogistic.fixes_scale(),
{
    reveal_strlit("weibull");
    reveal_strlit("lognormal");
    reveal_strlit("loglogistic");
    reveal_strlit("exponential");
    assert("weibull"@.len() == 7 && "lognormal"@.len() == 9);
    assert("loglogistic"@.len() == 11 && "exponential"@.len() == 11);
    assert("exponential"@[0] == 'e' && "loglogistic"@[0] == 'l');
}

/// The package is asked for the model of the request and for no other: its distribution, its
/// intercept and its priors, each from its own place, with inference, and with the curvature
/// of the log posterior for its covariance.
pub proof fn the_package_is_asked_for_the_model_of_the_request(
    req: CensoredAftRequest,
    options: AftOptions,
)
    requires
        options@ == req@.options(),
    ensures
        options.dist == req.dist,
        options.fit_intercept == req.intercept,
        options.compute_inference,
        options.priors@ == req.priors@,
        options.vcov == VcovType::Laplace,
{
}

/// What a refusal is mapped to goes by what it says: durations without an event and curvature
/// that cannot be factored are degenerate, missing data is insufficient, a search that did not
/// finish has failed, and what is wrong with the request is an error that names its place.
pub proof fn a_refusal_is_mapped_by_what_it_says(e: StatsError)
    ensures
        match e {
            StatsError::InvalidValue { field, message } => if field@ == "event"@
                && crate::text::holds(message@, "every observation is censored"@) {
                e.mapped() matches Ok(v) && v.status == FitStatus::Degenerate
            } else {
                e.mapped() matches Err(Fault::Config { slot, message: told }) && slot == field@
                    && told == Message::saying(message@)
            },
            StatsError::InsufficientData { .. } => e.mapped() matches Ok(v) && v.status
                == FitStatus::InsufficientData,
            StatsError::InsufficientDataMsg(text) => e.mapped() matches Ok(v) && v.status
                == FitStatus::InsufficientData && v.reasons.len() == 1 && v.reasons[0]
                == Message::saying(text@),
            StatsError::NoValidData => e.mapped() matches Ok(v) && v.status
                == FitStatus::InsufficientData,
            StatsError::EmptyInput => e.mapped() matches Ok(v) && v.status
                == FitStatus::InsufficientData,
            StatsError::ConvergenceFailure { .. } => e.mapped() matches Ok(v) && v.status
                == FitStatus::Failed,
            StatsError::SingularMatrix => e.mapped() matches Ok(v) && v.status
                == FitStatus::Degenerate,
            StatsError::CholeskyFailed => e.mapped() matches Ok(v) && v.status
                == FitStatus::Degenerate,
            StatsError::QrFailed => e.mapped() matches Ok(v) && v.status == FitStatus::Degenerate,
            StatsError::DimensionMismatch { .. } => e.mapped() matches Err(
                Fault::DimensionMismatch(_),
            ),
            StatsError::Other(_) => e.mapped() matches Err(Fault::Internal(_)),
        },
{
}

/// How many coordinates come before the coefficients of the predictors.
pub open spec fn before_coefficients(fit: AftFit) -> int {
    if fit.intercept is Some {
        1
    } else {
        0
    }
}

/// Whether a mode is the one that a fit reports: the intercept where there is one, the
/// coefficients in their order, and then the log scale where it is estimated.
pub open spec fn is_mode_of(fit: AftFit, fit_scale: bool, mode: Seq<Double>) -> bool {
    let first = before_coefficients(fit);
    let n = fit.coefficients@.len();
    &&& mode.len() == first + n + (if fit_scale {
        1int
    } else {
        0int
    })
    &&& fit.intercept matches Some(a) ==> mode[0] == a
    &&& forall|k: int| 0 <= k < n ==> mode[first + k] == (#[trigger] fit.coefficients@[k])
    &&& fit_scale ==> mode[first + n] == fit.log_scale
}

/// Whether the rows of two matrices are the same.
pub open spec fn same_rows(a: Matrix, b: Matrix) -> bool {
    &&& a.rows@.len() == b.rows@.len()
    &&& forall|i: int| 0 <= i < a.rows@.len() ==> (#[trigger] a.rows@[i])@ == b.rows@[i]@
}

/// A posterior is the one that was reported: its mode, the observed information for its
/// precision and the inverse of it for its covariance, the roots of the latter's diagonal, the
/// scale or one where it is fixed, and the counts of rows, events and censored rows.
pub proof fn a_posterior_is_the_one_reported(
    req: CensoredAftRequest,
    fit: AftFit,
    g: BridgedGaussian,
)
    requires
        bridged(req@, Ok(fit)) == Ok::<Bridging, Fault>(Bridging::Fitted(g@)),
    ensures
        ({
            let fit_scale = req.dist != AftDistribution::Exponential;
            &&& is_mode_of(fit, fit_scale, g.mode@)
            &&& g.mode@.len() == req.x@.len() + (if req.intercept {
                1int
            } else {
                0int
            }) + (if fit_scale {
                1int
            } else {
                0int
            })
            &&& fit.inference is Some
            &&& fit.inference->0.information is Some
            &&& fit.inference->0.vcov is Some
            &&& same_rows(g.information, fit.inference->0.information->0)
            &&& same_rows(g.covariance, fit.inference->0.vcov->0)
            &&& g.std_errors@ == fit.inference->0.roots@
            &&& g.scale == if fit_scale {
                fit.scale
            } else {
                Double { bits: 0x3FF0_0000_0000_0000 }
            }
            &&& g.fit_scale == fit_scale
            &&& g.n_obs == fit.n_observations
            &&& g.n_obs == req.time@.len()
            &&& g.n_events == fit.n_events
            &&& g.n_censored == fit.n_censored
        }),
{
    assert(req@.x.len() == req.x@.len());
    let inference = fit.inference->0;
    lemma_same_rows(g.information, inference.information->0);
    lemma_same_rows(g.covariance, inference.vcov->0);
}

pub proof fn lemma_same_rows(a: Matrix, b: Matrix)
    requires
        a@ == b@,
    ensures
        same_rows(a, b),
{
    assert(a@.len() == a.rows@.len() && b@.len() == b.rows@.len());
    assert forall|i: int| 0 <= i < a.rows@.len() implies (#[trigger] a.rows@[i])@ == b.rows@[i]@
        by {
        assert(a@[i] == a.rows@[i]@ && b@[i] == b.rows@[i]@);
    }
}

/// Whether the error reported for a coordinate is a number, and not further from the root of
/// the covariance than the tolerance allows.
pub open spec fn agrees(inference: AftInference, j: int, reported: Double) -> bool {
    reported.finite() && !inference.apart@[j]
}

/// A fit becomes a posterior exactly when every row was read, the mode has all its
/// coordinates and they are numbers, the curvature is there and its entries are numbers, the
/// roots are numbers above zero, and each reported error agrees with the root of its own
/// coordinate.
pub proof fn a_fit_is_a_posterior_exactly_when_it_is_usable(req: CensoredAftRequest, fit: AftFit)
    requires
        shaped(req@, Ok(fit)),
        fit.inference matches Some(i) ==> i.std_errors@.len() == req.x@.len(),
        fit.intercept is Some <==> req.intercept,
    ensures
        ({
            let fit_scale = req.dist != AftDistribution::Exponential;
            let first = before_coefficients(fit);
            let n = first + req.x@.len() + (if fit_scale {
                1int
            } else {
                0int
            });
            let inference = fit.inference->0;
            bridged(req@, Ok(fit)) matches Ok(Bridging::Fitted(_)) <==> {
                &&& fit.n_observations == req.time@.len()
                &&& fit.coefficients@.len() == req.x@.len()
                &&& fit.intercept matches Some(a) ==> a.finite()
                &&& forall|k: int|
                    0 <= k < fit.coefficients@.len() ==> (
                    #[trigger] fit.coefficients@[k]).finite()
                &&& fit_scale ==> fit.log_scale.finite()
                &&& fit.inference is Some
                &&& inference.information is Some
                &&& inference.vcov is Some
                &&& forall|i: int, j: int|
                    0 <= i < n && 0 <= j < n ==> (
                    #[trigger] inference.information->0.rows@[i]@[j]).finite()
                &&& forall|i: int, j: int|
                    0 <= i < n && 0 <= j < n ==> (
                    #[trigger] inference.vcov->0.rows@[i]@[j]).finite()
                &&& forall|j: int|
                    0 <= j < n ==> (#[trigger] inference.roots@[j]).finite()
                        && inference.roots@[j].scaled() > 0
                &&& req.intercept ==> (inference.intercept_std_error matches Some(s) && agrees(
                    inference,
                    0,
                    s,
                ))
                &&& forall|k: int|
                    0 <= k < inference.std_errors@.len() ==> agrees(
                        inference,
                        first + k,
                        #[trigger] inference.std_errors@[k],
                    )
                &&& fit_scale ==> (inference.log_scale_std_error matches Some(s) && agrees(
                    inference,
                    n - 1,
                    s,
                ))
            }
        }),
{
    let fit_scale = req.dist != AftDistribution::Exponential;
    let first = before_coefficients(fit);
    let n = first + req.x@.len() + (if fit_scale {
        1int
    } else {
        0int
    });
    assert(req@.x.len() == req.x@.len());
    assert(req@.n_params() == n);
    let mode = mode_of(fit, fit_scale);
    crate::double::zero_is_nothing();
    assert(!Double::spec_nan().finite());
    if mode.len() == n {
        assert(fit.coefficients@.len() == req.x@.len());
        lemma_mode_is_finite(fit, fit_scale);
    }
    if fit.inference is Some && fit.inference->0.information is Some
        && fit.inference->0.vcov is Some {
        let inference = fit.inference->0;
        lemma_block_is_finite(inference.information->0, n);
        lemma_block_is_finite(inference.vcov->0, n);
        let reported = reported_errors(inference, req.intercept, fit_scale);
        let checks = agreement_checks(inference.roots@, reported, inference.apart@);
        assert(reported.len() == n);
        assert forall|k: int| 0 <= k < inference.std_errors@.len() implies reported[first + k]
            == #[trigger] inference.std_errors@[k] by {}
        if crate::data::first_fault(checks) is None {
            crate::data::lemma_no_fault(checks);
            assert forall|k: int| 0 <= k < inference.std_errors@.len() implies agrees(
                inference,
                first + k,
                #[trigger] inference.std_errors@[k],
            ) by {
                assert(checks[first + k] is None);
            }
            if req.intercept {
                assert(checks[0] is None);
            }
            if fit_scale {
                assert(checks[n - 1] is None);
            }
        } else if (req.intercept ==> (inference.intercept_std_error matches Some(s) && agrees(
            inference,
            0,
            s,
        ))) && (forall|k: int|
            0 <= k < inference.std_errors@.len() ==> agrees(
                inference,
                first + k,
                #[trigger] inference.std_errors@[k],
            )) && (fit_scale ==> (inference.log_scale_std_error matches Some(s) && agrees(
            inference,
            n - 1,
            s,
        ))) {
            assert forall|j: int| 0 <= j < checks.len() implies (#[trigger] checks[j]) is None by {
                if first <= j < first + req.x@.len() {
                    assert(agrees(inference, j, inference.std_errors@[j - first]));
                }
            }
            crate::data::lemma_first_fault(checks, checks.len() as int);
        }
    }
}

proof fn lemma_mode_is_finite(fit: AftFit, fit_scale: bool)
    ensures
        crate::catalog::common::all_finite(mode_of(fit, fit_scale)) <==> {
            &&& fit.intercept matches Some(a) ==> a.finite()
            &&& forall|k: int|
                0 <= k < fit.coefficients@.len() ==> (#[trigger] fit.coefficients@[k]).finite()
            &&& fit_scale ==> fit.log_scale.finite()
        },
{
    let mode = mode_of(fit, fit_scale);
    let first = before_coefficients(fit);
    let n = fit.coefficients@.len();
    assert forall|k: int| 0 <= k < n implies mode[first + k] == #[trigger] fit.coefficients@[k] by {}
    if crate::catalog::common::all_finite(mode) {
        assert forall|k: int| 0 <= k < n implies (#[trigger] fit.coefficients@[k]).finite() by {
            assert(mode[first + k].finite());
        }
        if fit.intercept is Some {
            assert(mode[0].finite());
        }
        if fit_scale {
            assert(mode[first + n].finite());
        }
    } else if (fit.intercept matches Some(a) ==> a.finite()) && (forall|k: int|
        0 <= k < n ==> (#[trigger] fit.coefficients@[k]).finite()) && (fit_scale
        ==> fit.log_scale.finite()) {
        assert forall|j: int| 0 <= j < mode.len() implies (#[trigger] mode[j]).finite() by {
            if first <= j < first + n {
                assert(fit.coefficients@[j - first].finite());
            }
        }
    }
}

proof fn lemma_block_is_finite(m: Matrix, n: int)
    requires
        square(m@, n),
    ensures
        finite_block(m@, n) <==> forall|i: int, j: int|
            0 <= i < n && 0 <= j < n ==> (#[trigger] m.rows@[i]@[j]).finite(),
{
    assert forall|i: int| 0 <= i < n implies (#[trigger] m.rows@[i])@ == m@[i] by {}
    if finite_block(m@, n) {
        assert forall|i: int, j: int| 0 <= i < n && 0 <= j < n implies (
        #[trigger] m.rows@[i]@[j]).finite() by {
            assert(crate::catalog::common::finite_until(m@[i], n));
            assert(m@[i][j].finite());
        }
    } else if forall|i: int, j: int|
        0 <= i < n && 0 <= j < n ==> (#[trigger] m.rows@[i]@[j]).finite() {
        assert forall|i: int| 0 <= i < n implies crate::catalog::common::finite_until(
            #[trigger] m@[i],
            n,
        ) by {
            assert forall|j: int| 0 <= j < n implies (#[trigger] m@[i][j]).finite() by {
                assert(m.rows@[i]@[j].finite());
            }
        }
    }
}

/// A refusal is never a verdict that may be acted on.
pub proof fn a_refusal_is_never_actionable(req: Censored, reply: Result<AftFit, StatsError>)
    ensures
        bridged(req, reply) matches Ok(Bridging::Refused(v)) ==> v.status
            != FitStatus::Converged && v.reasons.len() == 1,
{
}

/// A posterior has a finite mode with one coordinate per coefficient and one for the scale
/// where it is estimated, a finite curvature, usable standard errors, and it was fitted to
/// every row that was handed over.
pub proof fn a_posterior_is_finite_and_complete(req: Censored, reply: Result<AftFit, StatsError>)
    ensures
        bridged(req, reply) matches Ok(Bridging::Fitted(g)) ==> {
            &&& g.mode.len() == req.n_params()
            &&& crate::catalog::common::all_finite(g.mode)
            &&& finite_block(g.information, req.n_params())
            &&& finite_block(g.covariance, req.n_params())
            &&& usable_errors(g.std_errors)
            &&& g.n_obs == req.time.len()
            &&& g.fit_scale == !req.dist.fixes_scale()
        },
{
}

/// A distribution that fixes its scale has it at one, whatever was reported for it.
pub proof fn a_fixed_scale_is_one(req: Censored, reply: Result<AftFit, StatsError>)
    requires
        req.dist.fixes_scale(),
    ensures
        bridged(req, reply) matches Ok(Bridging::Fitted(g)) ==> g.scale == (Double {
            bits: ONE_BITS,
        }),
{
}

/// The standard errors of a posterior are those that were reported, up to the tolerance,
/// at every coordinate.
pub proof fn a_posterior_agrees_with_the_reported_errors(
    req: Censored,
    reply: Result<AftFit, StatsError>,
    j: int,
)
    requires
        bridged(req, reply) matches Ok(Bridging::Fitted(g)) && 0 <= j < g.std_errors.len(),
        reply is Ok,
        reply->Ok_0.inference is Some,
        0 <= j < reported_errors(
            reply->Ok_0.inference->0,
            req.intercept,
            !req.dist.fixes_scale(),
        ).len(),
    ensures
        reported_errors(
            reply->Ok_0.inference->0,
            req.intercept,
            !req.dist.fixes_scale(),
        )[j].finite(),
        !reply->Ok_0.inference->0.apart@[j],
{
    let inference = reply->Ok_0.inference->0;
    let checks = agreement_checks(
        inference.roots@,
        reported_errors(inference, req.intercept, !req.dist.fixes_scale()),
        inference.apart@,
    );
    crate::data::lemma_no_fault(checks);
    assert(checks[j] is None);
}

/// A mode search that did not finish leaves no posterior, not a weak one.
pub proof fn an_unfinished_search_leaves_no_posterior(
    req: Censored,
    iterations: usize,
    tolerance: Double,
)
    ensures
        bridged(
            req,
            Err(StatsError::ConvergenceFailure { iterations, tolerance }),
        ) matches Ok(Bridging::Refused(v)) && v.status == FitStatus::Failed,
{
}

/// Degeneracy is decided before agreement: an unusable covariance is refused as
/// degenerate whatever the reported standard errors say of it.
pub proof fn degeneracy_is_decided_before_agreement(
    req: Censored,
    fit: AftFit,
    inference: AftInference,
)
    requires
        inference.information is Some,
        inference.vcov is Some,
        !usable_errors(inference.roots@) || !finite_block(
            inference.vcov->0@,
            req.n_params(),
        ),
    ensures
        inference.judged(req, fit) matches Ok(Bridging::Refused(v)) && v.status
            == FitStatus::Degenerate,
{
}

} // verus!
