//! The catalog of model families.
pub mod common;
pub mod f1_hier_negbin;
pub mod f2_censored_aft;
pub mod f3_pooled_gaussian;
pub mod f4_payment_delay;
pub mod f5_btyd;
pub mod f6_hier_elasticity;
pub mod f7_conjugate;
pub mod f8_varying_variance;

use crate::double::Double;
use crate::text::same_text;
use crate::types::{EngineKind, FamilyCode};
use vstd::prelude::*;

verus! {

/// The bits of 0.8: the acceptance rate that a sampler tunes its step to unless a family
/// asks for another.
pub const TARGET_ACCEPT_BITS: u64 = 0x3FE9_9999_9999_999A;

/// The bits of 0.95.
pub const FINE_TARGET_ACCEPT_BITS: u64 = 0x3FEE_6666_6666_6666;

/// A family of the catalog.
#[derive(Debug, Clone, Copy, PartialEq, Eq, Structural)]
pub enum Family {
    HierNegbin,
    CensoredAft,
    PooledGaussian,
    PaymentDelay,
    PayerAlive,
    HierElasticity,
    ConjugateAnomaly,
    VaryingVarianceGaussian,
}

impl Family {
    pub open spec fn spec_id(self) -> Seq<char> {
        match self {
            Family::HierNegbin => f1_hier_negbin::ID@,
            Family::CensoredAft => f2_censored_aft::ID@,
            Family::PooledGaussian => f3_pooled_gaussian::ID@,
            Family::PaymentDelay => f4_payment_delay::ID@,
            Family::PayerAlive => f5_btyd::ID@,
            Family::HierElasticity => f6_hier_elasticity::ID@,
            Family::ConjugateAnomaly => f7_conjugate::ID@,
            Family::VaryingVarianceGaussian => f8_varying_variance::ID@,
        }
    }

    pub open spec fn spec_code(self) -> FamilyCode {
        match self {
            Family::HierNegbin => FamilyCode::HierNegbin,
            Family::CensoredAft => FamilyCode::CensoredAft,
            Family::PooledGaussian => FamilyCode::PooledGaussian,
            Family::PaymentDelay => FamilyCode::PaymentDelay,
            Family::PayerAlive => FamilyCode::PayerAlive,
            Family::HierElasticity => FamilyCode::HierElasticity,
            Family::ConjugateAnomaly => FamilyCode::ConjugateAnomaly,
            Family::VaryingVarianceGaussian => FamilyCode::VaryingVarianceGaussian,
        }
    }

    /// The engine that serves a family unless a request names another: the closed form
    /// where there is one, a Gaussian at the mode where it is faithful, sampling where a
    /// hierarchical scale makes it otherwise.
    pub open spec fn spec_engine(self) -> EngineKind {
        match self {
            Family::PooledGaussian => EngineKind::Exact,
            Family::ConjugateAnomaly => EngineKind::Exact,
            Family::CensoredAft => EngineKind::Laplace,
            Family::PayerAlive => EngineKind::Laplace,
            _ => EngineKind::Nuts,
        }
    }

    /// Whether the curvature along a pooling scale varies so sharply that a step tuned to
    /// the bulk overshoots in the tail.
    pub open spec fn wants_fine_steps(self) -> bool {
        ||| self == Family::PaymentDelay
        ||| self == Family::HierElasticity
        ||| self == Family::VaryingVarianceGaussian
    }

    pub fn id(self) -> (r: &'static str)
        ensures
            r@ == self.spec_id(),
    {
        match self {
            Family::HierNegbin => f1_hier_negbin::ID,
            Family::CensoredAft => f2_censored_aft::ID,
            Family::PooledGaussian => f3_pooled_gaussian::ID,
            Family::PaymentDelay => f4_payment_delay::ID,
            Family::PayerAlive => f5_btyd::ID,
            Family::HierElasticity => f6_hier_elasticity::ID,
            Family::ConjugateAnomaly => f7_conjugate::ID,
            Family::VaryingVarianceGaussian => f8_varying_variance::ID,
        }
    }

    pub fn code(self) -> (r: FamilyCode)
        ensures
            r == self.spec_code(),
    {
        match self {
            Family::HierNegbin => f1_hier_negbin::HierNegbin.code(),
            Family::CensoredAft => f2_censored_aft::CensoredAft.code(),
            Family::PooledGaussian => f3_pooled_gaussian::PooledGaussian.code(),
            Family::PaymentDelay => f4_payment_delay::PaymentDelay.code(),
            Family::PayerAlive => f5_btyd::PayerAlive.code(),
            Family::HierElasticity => f6_hier_elasticity::HierElasticity.code(),
            Family::ConjugateAnomaly => f7_conjugate::ConjugateAnomaly.code(),
            Family::VaryingVarianceGaussian => {
                f8_varying_variance::VaryingVarianceGaussian.code()
            },
        }
    }

    pub fn default_engine(self) -> (r: EngineKind)
        ensures
            r == self.spec_engine(),
    {
        match self {
            Family::HierNegbin => f1_hier_negbin::HierNegbin.default_engine(),
            Family::CensoredAft => f2_censored_aft::CensoredAft.default_engine(),
            Family::PooledGaussian => f3_pooled_gaussian::PooledGaussian.default_engine(),
            Family::PaymentDelay => f4_payment_delay::PaymentDelay.default_engine(),
            Family::PayerAlive => f5_btyd::PayerAlive.default_engine(),
            Family::HierElasticity => f6_hier_elasticity::HierElasticity.default_engine(),
            Family::ConjugateAnomaly => f7_conjugate::ConjugateAnomaly.default_engine(),
            Family::VaryingVarianceGaussian => {
                f8_varying_variance::VaryingVarianceGaussian.default_engine()
            },
        }
    }
}

impl Family {
    /// The acceptance rate that a sampler is to tune its step to.
    pub fn target_accept(self) -> (r: Double)
        ensures
            r.bits == if self.wants_fine_steps() {
                FINE_TARGET_ACCEPT_BITS
            } else {
                TARGET_ACCEPT_BITS
            },
    {
        match self {
            Family::PaymentDelay => Double { bits: FINE_TARGET_ACCEPT_BITS },
            Family::HierElasticity => Double { bits: FINE_TARGET_ACCEPT_BITS },
            Family::VaryingVarianceGaussian => Double { bits: FINE_TARGET_ACCEPT_BITS },
            _ => Double { bits: TARGET_ACCEPT_BITS },
        }
    }
}

/// The family that a name stands for.
pub open spec fn found(id: Seq<char>) -> Option<Family> {
    if id == Family::HierNegbin.spec_id() {
        Some(Family::HierNegbin)
    } else if id == Family::CensoredAft.spec_id() {
        Some(Family::CensoredAft)
    } else if id == Family::PooledGaussian.spec_id() {
        Some(Family::PooledGaussian)
    } else if id == Family::PaymentDelay.spec_id() {
        Some(Family::PaymentDelay)
    } else if id == Family::PayerAlive.spec_id() {
        Some(Family::PayerAlive)
    } else if id == Family::HierElasticity.spec_id() {
        Some(Family::HierElasticity)
    } else if id == Family::ConjugateAnomaly.spec_id() {
        Some(Family::ConjugateAnomaly)
    } else if id == Family::VaryingVarianceGaussian.spec_id() {
        Some(Family::VaryingVarianceGaussian)
    } else {
        None
    }
}

/// Looks a family up by its name.
pub fn lookup(id: &str) -> (r: Option<Family>)
    ensures
        r == found(id@),
{
    if same_text(id, f1_hier_negbin::ID) {
        Some(Family::HierNegbin)
    } else if same_text(id, f2_censored_aft::ID) {
        Some(Family::CensoredAft)
    } else if same_text(id, f3_pooled_gaussian::ID) {
        Some(Family::PooledGaussian)
    } else if same_text(id, f4_payment_delay::ID) {
        Some(Family::PaymentDelay)
    } else if same_text(id, f5_btyd::ID) {
        Some(Family::PayerAlive)
    } else if same_text(id, f6_hier_elasticity::ID) {
        Some(Family::HierElasticity)
    } else if same_text(id, f7_conjugate::ID) {
        Some(Family::ConjugateAnomaly)
    } else if same_text(id, f8_varying_variance::ID) {
        Some(Family::VaryingVarianceGaussian)
    } else {
        None
    }
}

/// Every family is found under its own name and under no other.
pub proof fn a_family_is_found_under_its_own_name_alone(family: Family, id: Seq<char>)
    ensures
        found(id) == Some(family) <==> id == family.spec_id(),
{
    reveal_strlit("hier_negbin");
    reveal_strlit("censored_aft");
    reveal_strlit("pooled_gaussian");
    reveal_strlit("payment_delay");
    reveal_strlit("payer_alive");
    reveal_strlit("hier_elasticity");
    reveal_strlit("conjugate_anomaly");
    reveal_strlit("varying_variance_gaussian");
    assert(Family::HierNegbin.spec_id().len() == 11);
    assert(Family::CensoredAft.spec_id().len() == 12);
    assert(Family::PooledGaussian.spec_id().len() == 15);
    assert(Family::PaymentDelay.spec_id().len() == 13);
    assert(Family::PayerAlive.spec_id().len() == 11);
    assert(Family::HierElasticity.spec_id().len() == 15);
    assert(Family::ConjugateAnomaly.spec_id().len() == 17);
    assert(Family::VaryingVarianceGaussian.spec_id().len() == 25);
    assert(Family::HierNegbin.spec_id()[0] == 'h');
    assert(Family::PayerAlive.spec_id()[0] == 'p');
    assert(Family::PooledGaussian.spec_id()[0] == 'p');
    assert(Family::HierElasticity.spec_id()[0] == 'h');
}

/// Every family of the catalog by its name, with its code and the engine that serves it.
pub proof fn the_families_of_the_catalog(id: Seq<char>)
    ensures
        found("hier_negbin"@) == Some(Family::HierNegbin),
        found("censored_aft"@) == Some(Family::CensoredAft),
        found("pooled_gaussian"@) == Some(Family::PooledGaussian),
        found("payment_delay"@) == Some(Family::PaymentDelay),
        found("payer_alive"@) == Some(Family::PayerAlive),
        found("hier_elasticity"@) == Some(Family::HierElasticity),
        found("conjugate_anomaly"@) == Some(Family::ConjugateAnomaly),
        found("varying_variance_gaussian"@) == Some(Family::VaryingVarianceGaussian),
        found(id) matches Some(family) ==> id == family.spec_id() && {
            let code = family.spec_code().spec_number();
            let engine = family.spec_engine();
            ||| id == "hier_negbin"@ && code == 1 && engine == EngineKind::Nuts
            ||| id == "censored_aft"@ && code == 2 && engine == EngineKind::Laplace
            ||| id == "pooled_gaussian"@ && code == 3 && engine == EngineKind::Exact
            ||| id == "payment_delay"@ && code == 4 && engine == EngineKind::Nuts
            ||| id == "payer_alive"@ && code == 5 && engine == EngineKind::Laplace
            ||| id == "hier_elasticity"@ && code == 6 && engine == EngineKind::Nuts
            ||| id == "conjugate_anomaly"@ && code == 7 && engine == EngineKind::Exact
            ||| id == "varying_variance_gaussian"@ && code == 8 && engine == EngineKind::Nuts
        },
{
    a_family_is_found_under_its_own_name_alone(Family::HierNegbin, "hier_negbin"@);
    a_family_is_found_under_its_own_name_alone(Family::CensoredAft, "censored_aft"@);
    a_family_is_found_under_its_own_name_alone(Family::PooledGaussian, "pooled_gaussian"@);
    a_family_is_found_under_its_own_name_alone(Family::PaymentDelay, "payment_delay"@);
    a_family_is_found_under_its_own_name_alone(Family::PayerAlive, "payer_alive"@);
    a_family_is_found_under_its_own_name_alone(Family::HierElasticity, "hier_elasticity"@);
    a_family_is_found_under_its_own_name_alone(Family::ConjugateAnomaly, "conjugate_anomaly"@);
    a_family_is_found_under_its_own_name_alone(
        Family::VaryingVarianceGaussian,
        "varying_variance_gaussian"@,
    );
}

/// A sampler takes finer steps for the families whose pooling scale makes a funnel, and for
/// no other; the finer rate of acceptance is the higher one, and both are below one.
pub proof fn finer_steps_are_for_funnels(family: Family)
    ensures
        family.wants_fine_steps() <==> family == Family::PaymentDelay || family
            == Family::HierElasticity || family == Family::VaryingVarianceGaussian,
        TARGET_ACCEPT_BITS == 0x3FE9_9999_9999_999A,
        FINE_TARGET_ACCEPT_BITS == 0x3FEE_6666_6666_6666,
        (Double { bits: TARGET_ACCEPT_BITS }).lt(Double { bits: FINE_TARGET_ACCEPT_BITS }),
        (Double { bits: FINE_TARGET_ACCEPT_BITS }).lt(Double { bits: 0x3FF0_0000_0000_0000 }),
{
    let usual = Double { bits: 0x3FE9_9999_9999_999A };
    let fine = Double { bits: 0x3FEE_6666_6666_6666 };
    crate::double::the_bits_of_a_number_order_it(usual, fine);
    crate::double::the_bits_of_a_number_order_it(fine, Double { bits: 0x3FF0_0000_0000_0000 });
}

/// No two families share a code.
pub proof fn no_two_families_share_a_code(a: Family, b: Family)
    ensures
        a.spec_code().spec_number() == b.spec_code().spec_number() <==> a == b,
{
}

} // verus!
