//! How a reported parameter is computed from the unconstrained coordinates.
//!
//! A family writes one formula per parameter it reports, in the order in which it names
//! them. Evaluating one takes an exponential and a multiplication at most; which
//! coordinates enter it, and which sign it can have, is decided here.
use crate::double::Double;
use vstd::prelude::*;

verus! {

/// A reported value, as a function of the coordinates `theta`.
#[derive(Debug, Clone, Copy, PartialEq, Eq, Structural)]
pub enum Formula {
    /// `theta[at]`
    Coordinate { at: usize },
    /// `exp(theta[at])`
    Exp { at: usize },
    /// `-exp(theta[at])`
    MinusExp { at: usize },
    /// `exp(theta[log_scale]) * theta[at]`
    Scaled { log_scale: usize, at: usize },
    /// `exp(theta[base] + exp(theta[log_scale]) * theta[at])`
    ExpSum { base: usize, log_scale: usize, at: usize },
    /// `-exp(theta[base] + exp(theta[log_scale]) * theta[at])`
    MinusExpSum { base: usize, log_scale: usize, at: usize },
    /// A number that is not estimated.
    Fixed { value: Double },
    /// No number: the parameter cannot be estimated.
    Absent,
}

/// What the shape of a formula says about the sign of its value.
pub enum Sign {
    /// A power of e: greater than zero wherever it is a number.
    Positive,
    /// Minus a power of e: less than zero wherever it is a number.
    Negative,
    /// Either.
    Free,
}

impl Formula {
    /// Whether every coordinate it reads is one of `dim`.
    pub open spec fn reads_within(self, dim: int) -> bool {
        match self {
            Formula::Coordinate { at } => at < dim,
            Formula::Exp { at } => at < dim,
            Formula::MinusExp { at } => at < dim,
            Formula::Scaled { log_scale, at } => log_scale < dim && at < dim,
            Formula::ExpSum { base, log_scale, at } => base < dim && log_scale < dim && at < dim,
            Formula::MinusExpSum { base, log_scale, at } => base < dim && log_scale < dim && at
                < dim,
            Formula::Fixed { value } => true,
            Formula::Absent => true,
        }
    }

    /// Whether it reads a coordinate.
    pub open spec fn reads(self, i: int) -> bool {
        match self {
            Formula::Coordinate { at } => at == i,
            Formula::Exp { at } => at == i,
            Formula::MinusExp { at } => at == i,
            Formula::Scaled { log_scale, at } => log_scale == i || at == i,
            Formula::ExpSum { base, log_scale, at } => base == i || log_scale == i || at == i,
            Formula::MinusExpSum { base, log_scale, at } => base == i || log_scale == i || at == i,
            Formula::Fixed { value } => false,
            Formula::Absent => false,
        }
    }

    pub open spec fn sign(self) -> Sign {
        match self {
            Formula::Exp { at } => Sign::Positive,
            Formula::ExpSum { base, log_scale, at } => Sign::Positive,
            Formula::MinusExp { at } => Sign::Negative,
            Formula::MinusExpSum { base, log_scale, at } => Sign::Negative,
            _ => Sign::Free,
        }
    }
}

/// The same formula for every parameter.
pub open spec fn repeated(formula: Formula, n: nat) -> Seq<Formula> {
    Seq::new(n, |i: int| formula)
}

/// Consecutive coordinates reported as they are.
pub open spec fn coordinates(first: int, n: nat) -> Seq<Formula> {
    Seq::new(n, |i: int| Formula::Coordinate { at: (first + i) as usize })
}

/// No number for any of `n` parameters.
pub fn absent(n: usize) -> (r: Vec<Formula>)
    ensures
        r@ == repeated(Formula::Absent, n as nat),
{
    let mut out: Vec<Formula> = Vec::new();
    let mut k: usize = 0;
    while k < n
        invariant
            k <= n,
            out@ == repeated(Formula::Absent, k as nat),
        decreases n - k,
    {
        out.push(Formula::Absent);
        k += 1;
        proof {
            assert(out@ =~= repeated(Formula::Absent, k as nat));
        }
    }
    out
}

/// Appends consecutive coordinates reported as they are.
pub fn push_coordinates(out: &mut Vec<Formula>, first: usize, n: usize)
    requires
        first + n <= usize::MAX,
    ensures
        final(out)@ == old(out)@ + coordinates(first as int, n as nat),
{
    let ghost before = out@;
    let mut k: usize = 0;
    proof {
        assert(out@ =~= before + coordinates(first as int, 0));
    }
    while k < n
        invariant
            k <= n,
            first + n <= usize::MAX,
            out@ == before + coordinates(first as int, k as nat),
        decreases n - k,
    {
        out.push(Formula::Coordinate { at: first + k });
        k += 1;
        proof {
            assert(out@ =~= before + coordinates(first as int, k as nat));
        }
    }
}

} // verus!
