//! The vocabulary shared by every family: statuses, engines, codes, group keys.
use crate::errors::{BayesError, BayesResult};
use crate::text::same_text;
use vstd::prelude::*;

verus! {

/// The group identity of a parameter that belongs to no group, and of the one group of
/// an ungrouped fit.
pub open spec fn global_group() -> Seq<char> {
    "__global__"@
}

/// The reserved group key.
pub fn global_group_key() -> (r: &'static str)
    ensures
        r@ == global_group(),
{
    "__global__"
}

/// How a fit may be used.
#[derive(Debug, Clone, Copy, PartialEq, Eq, Structural)]
pub enum FitStatus {
    /// The posterior may drive a decision.
    Converged,
    /// The model is not identified by this data.
    Degenerate,
    /// The evidence is too thin.
    InsufficientData,
    /// There is no posterior at all.
    Failed,
}

impl FitStatus {
    /// How bad a status is; the worst of several verdicts is the one of highest rank.
    pub open spec fn spec_rank(self) -> int {
        match self {
            FitStatus::Converged => 0,
            FitStatus::Degenerate => 1,
            FitStatus::InsufficientData => 2,
            FitStatus::Failed => 3,
        }
    }

    /// Whether a posterior surface is there to be explored.
    pub open spec fn refused(self) -> bool {
        self == FitStatus::Degenerate || self == FitStatus::Failed
    }

    pub fn rank(self) -> (r: i32)
        ensures
            r == self.spec_rank(),
    {
        match self {
            FitStatus::Converged => 0,
            FitStatus::Degenerate => 1,
            FitStatus::InsufficientData => 2,
            FitStatus::Failed => 3,
        }
    }

    /// Whether the fit may be acted on.
    pub fn is_actionable(self) -> (r: bool)
        ensures
            r == (self == FitStatus::Converged),
    {
        matches!(self, FitStatus::Converged)
    }

    /// Whether the draws are withheld: there is no posterior, so every draw is absent.
    ///
    /// Thin evidence is not a reason to withhold them: the surface is sound and it is
    /// the status that refuses.
    pub fn withholds_draws(self) -> (r: bool)
        ensures
            r == self.refused(),
    {
        matches!(self, FitStatus::Degenerate) || matches!(self, FitStatus::Failed)
    }
}

/// The inference engines.
#[derive(Debug, Clone, Copy, PartialEq, Eq, Structural)]
pub enum EngineKind {
    Exact,
    Laplace,
    Nuts,
}

/// Which distribution a fit draws from.
#[derive(Debug, Clone, Copy, PartialEq, Eq, Structural)]
pub enum SampleFrom {
    Posterior,
    Prior,
}

/// The numeric identity of a family.
#[derive(Debug, Clone, Copy, PartialEq, Eq, Structural)]
pub enum FamilyCode {
    HierNegbin,
    CensoredAft,
    PooledGaussian,
    PaymentDelay,
    PayerAlive,
    HierElasticity,
    ConjugateAnomaly,
    VaryingVarianceGaussian,
}

impl FamilyCode {
    pub open spec fn spec_number(self) -> int {
        match self {
            FamilyCode::HierNegbin => 1,
            FamilyCode::CensoredAft => 2,
            FamilyCode::PooledGaussian => 3,
            FamilyCode::PaymentDelay => 4,
            FamilyCode::PayerAlive => 5,
            FamilyCode::HierElasticity => 6,
            FamilyCode::ConjugateAnomaly => 7,
            FamilyCode::VaryingVarianceGaussian => 8,
        }
    }

    /// The number a stored fit carries for its family.
    pub fn number(self) -> (r: i32)
        ensures
            r == self.spec_number(),
    {
        match self {
            FamilyCode::HierNegbin => 1,
            FamilyCode::CensoredAft => 2,
            FamilyCode::PooledGaussian => 3,
            FamilyCode::PaymentDelay => 4,
            FamilyCode::PayerAlive => 5,
            FamilyCode::HierElasticity => 6,
            FamilyCode::ConjugateAnomaly => 7,
            FamilyCode::VaryingVarianceGaussian => 8,
        }
    }
}

/// Statuses are ranked from the best to the worst, and draws are withheld where there is no
/// posterior: from a model that is not identified and from one that failed, and from no
/// other.
pub proof fn statuses_are_ranked()
    ensures
        FitStatus::Converged.spec_rank() < FitStatus::Degenerate.spec_rank(),
        FitStatus::Degenerate.spec_rank() < FitStatus::InsufficientData.spec_rank(),
        FitStatus::InsufficientData.spec_rank() < FitStatus::Failed.spec_rank(),
        FitStatus::Degenerate.refused() && FitStatus::Failed.refused(),
        !FitStatus::Converged.refused() && !FitStatus::InsufficientData.refused(),
{
}

/// What a group key that may not be used is refused with.
pub open spec fn group_key_fault(key: Seq<char>) -> Option<crate::errors::Fault> {
    if key == global_group() {
        Some(
            crate::errors::Fault::config(
                "group"@,
                "'__global__' is reserved for parameters that belong to no group"@,
            ),
        )
    } else {
        None
    }
}

/// The reserved key is refused, under the slot that names the groups, and no other is.
pub proof fn only_the_reserved_key_is_refused(key: Seq<char>)
    ensures
        group_key_fault(key) is Some <==> key == "__global__"@,
        group_key_fault(key) matches Some(f) ==> (f matches crate::errors::Fault::Config {
            slot,
            ..
        } && slot == "group"@),
{
}

/// Refuses the reserved key as the key of a group of the data.
pub fn validate_group_key(key: &str) -> (r: BayesResult<()>)
    ensures
        match r {
            Ok(_) => group_key_fault(key@) is None,
            Err(e) => group_key_fault(key@) == Some(e@),
        },
{
    if same_text(key, global_group_key()) {
        return Err(
            BayesError::config(
                "group",
                "'__global__' is reserved for parameters that belong to no group",
            ),
        );
    }
    Ok(())
}

} // verus!
