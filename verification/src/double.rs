//! IEEE-754 doubles, carried as their bit patterns.
//!
//! The rules of the catalog compare, classify and move numbers; they never add or
//! multiply them. Everything those rules ask of a number can be read off its bits with
//! integer arithmetic, so a [`Double`] is the 64-bit pattern of a double and nothing
//! else. Its meaning is fixed by [`Double::scaled`]: the value as an integer count of
//! the smallest positive double, `2^-1074`.
use vstd::arithmetic::div_mod::*;
use vstd::arithmetic::power2::*;
use vstd::bits::*;
use vstd::prelude::*;

verus! {

/// One unit of the exponent field: `2^52`.
pub const EXPONENT_UNIT: u64 = 0x10_0000_0000_0000;

/// The sign bit: `2^63`.
pub const SIGN_BIT: u64 = 0x8000_0000_0000_0000;

/// The bit pattern of an IEEE-754 double.
///
/// Two values are `==` when their patterns are; [`Double::equals`] is the numeric
/// comparison, under which the two zeros are equal and a NaN is equal to nothing.
#[derive(Debug, Clone, Copy, PartialEq, Eq, Structural)]
pub struct Double {
    pub bits: u64,
}

impl Double {
    /// Whether the sign bit is set.
    pub open spec fn negative_sign(self) -> bool {
        self.bits >= SIGN_BIT
    }

    /// The biased exponent field.
    pub open spec fn exponent(self) -> int {
        (self.bits as int / EXPONENT_UNIT as int) % 2048
    }

    /// The fraction field.
    pub open spec fn fraction(self) -> int {
        self.bits as int % EXPONENT_UNIT as int
    }

    /// Not a number.
    pub open spec fn nan(self) -> bool {
        self.exponent() == 2047 && self.fraction() != 0
    }

    /// Neither infinite nor NaN.
    pub open spec fn finite(self) -> bool {
        self.exponent() != 2047
    }

    /// The absolute value in units of `2^-1074`.
    ///
    /// For an infinity the same formula gives a number beyond that of every finite
    /// double, which is where an infinity belongs in the order.
    pub open spec fn scaled_magnitude(self) -> int {
        scaled_parts(self.exponent(), self.fraction())
    }

    /// The value in units of `2^-1074`. Says nothing of a NaN.
    pub open spec fn scaled(self) -> int {
        if self.negative_sign() {
            -self.scaled_magnitude()
        } else {
            self.scaled_magnitude()
        }
    }

    /// `self < other`, false wherever a NaN takes part.
    pub open spec fn lt(self, other: Double) -> bool {
        !self.nan() && !other.nan() && self.scaled() < other.scaled()
    }

    /// `self <= other`, false wherever a NaN takes part.
    pub open spec fn le(self, other: Double) -> bool {
        !self.nan() && !other.nan() && self.scaled() <= other.scaled()
    }

    /// `self == other` as numbers, false wherever a NaN takes part.
    pub open spec fn same_value(self, other: Double) -> bool {
        !self.nan() && !other.nan() && self.scaled() == other.scaled()
    }

    /// A finite integer.
    pub open spec fn whole(self) -> bool {
        self.finite() && self.scaled_magnitude() % one_scaled() == 0
    }

    /// The value as a count below `2^53`, where it is one.
    pub open spec fn count(self) -> Option<nat> {
        if self.whole() && self.scaled() >= 0 && self.scaled() / one_scaled()
            < 0x20_0000_0000_0000 {
            Some((self.scaled() / one_scaled()) as nat)
        } else {
            None
        }
    }

    /// `0 < self`.
    pub open spec fn positive(self) -> bool {
        !self.nan() && self.scaled() > 0
    }

    /// `self < 0`.
    pub open spec fn below_zero(self) -> bool {
        !self.nan() && self.scaled() < 0
    }

    /// A finite number greater than zero.
    pub open spec fn finite_positive(self) -> bool {
        self.finite() && self.scaled() > 0
    }

    /// Positive infinity.
    pub open spec fn spec_infinity() -> Double {
        Double { bits: 0x7FF0_0000_0000_0000 }
    }

    /// The NaN that stands for an absent number.
    pub open spec fn spec_nan() -> Double {
        Double { bits: 0x7FF8_0000_0000_0000 }
    }

    /// The least number of full precision above zero.
    pub open spec fn least_positive() -> Double {
        Double { bits: EXPONENT_UNIT }
    }

    /// The number, or [`Double::least_positive`] where it is not above that.
    pub open spec fn spec_floored(self) -> Double {
        if Double::least_positive().lt(self) {
            self
        } else {
            Double::least_positive()
        }
    }

    /// A whole number that is not negative.
    pub open spec fn whole_count(self) -> bool {
        self.whole() && self.scaled() >= 0
    }
}

/// The number one in units of `2^-1074`.
pub open spec fn one_scaled() -> int {
    pow2(1074) as int
}

/// The magnitude that an exponent field and a fraction field stand for.
pub open spec fn scaled_parts(exponent: int, fraction: int) -> int {
    if exponent == 0 {
        fraction
    } else {
        (EXPONENT_UNIT + fraction) * pow2((exponent - 1) as nat)
    }
}

/// The two fields below the sign bit, read as one integer.
spec fn magnitude_bits(d: Double) -> int {
    d.bits as int % SIGN_BIT as int
}

spec fn order_key(d: Double) -> int {
    if d.negative_sign() {
        -magnitude_bits(d)
    } else {
        magnitude_bits(d)
    }
}

proof fn lemma_fields(d: Double)
    ensures
        0 <= d.exponent() < 2048,
        0 <= d.fraction() < EXPONENT_UNIT,
        magnitude_bits(d) == d.exponent() * EXPONENT_UNIT + d.fraction(),
        0 <= magnitude_bits(d) < SIGN_BIT,
{
    let b = d.bits as int;
    let u = EXPONENT_UNIT as int;
    lemma_fundamental_div_mod(b, u);
    lemma_fundamental_div_mod(b / u, 2048);
    assert(b == u * (2048 * ((b / u) / 2048) + (b / u) % 2048) + b % u);
    assert(b / u <= 4095);
    let q = (b / u) / 2048;
    assert(q == 0 || q == 1);
    assert(u * 2048 == SIGN_BIT as int);
}

proof fn lemma_parts_increase(e1: int, f1: int, e2: int, f2: int)
    requires
        0 <= e1,
        0 <= e2,
        0 <= f1 < EXPONENT_UNIT,
        0 <= f2 < EXPONENT_UNIT,
        e1 * EXPONENT_UNIT + f1 < e2 * EXPONENT_UNIT + f2,
    ensures
        scaled_parts(e1, f1) < scaled_parts(e2, f2),
{
    let u = EXPONENT_UNIT as int;
    if e1 == e2 {
        if e1 > 0 {
            let x = pow2((e1 - 1) as nat) as int;
            lemma_pow2_pos((e1 - 1) as nat);
            assert((u + f1) * x < (u + f2) * x) by (nonlinear_arith)
                requires
                    f1 < f2,
                    x > 0,
            ;
        }
    } else {
        assert(e1 < e2) by (nonlinear_arith)
            requires
                e1 != e2,
                0 <= f1 < u,
                0 <= f2 < u,
                e1 * u + f1 < e2 * u + f2,
        ;
        let y = pow2((e2 - 1) as nat) as int;
        lemma_pow2_pos((e2 - 1) as nat);
        assert((u + f2) * y >= u * y) by (nonlinear_arith)
            requires
                f2 >= 0,
                y > 0,
        ;
        if e1 == 0 {
            assert(u * y >= u) by (nonlinear_arith)
                requires
                    y >= 1,
                    u > 0,
            ;
        } else {
            let x = pow2((e1 - 1) as nat) as int;
            lemma_pow2_pos((e1 - 1) as nat);
            lemma_pow2_unfold(e1 as nat);
            assert(pow2(e1 as nat) == 2 * x);
            if e1 < e2 - 1 {
                lemma_pow2_strictly_increases(e1 as nat, (e2 - 1) as nat);
            }
            assert(2 * x <= y);
            assert((u + f1) * x < u * y) by (nonlinear_arith)
                requires
                    f1 < u,
                    x > 0,
                    2 * x <= y,
                    u > 0,
            ;
        }
    }
}

proof fn lemma_magnitude_order(a: Double, b: Double)
    ensures
        magnitude_bits(a) < magnitude_bits(b) <==> a.scaled_magnitude() < b.scaled_magnitude(),
        magnitude_bits(a) == magnitude_bits(b) <==> a.scaled_magnitude() == b.scaled_magnitude(),
{
    lemma_fields(a);
    lemma_fields(b);
    if magnitude_bits(a) < magnitude_bits(b) {
        lemma_parts_increase(a.exponent(), a.fraction(), b.exponent(), b.fraction());
    } else if magnitude_bits(b) < magnitude_bits(a) {
        lemma_parts_increase(b.exponent(), b.fraction(), a.exponent(), a.fraction());
    } else {
        assert(a.exponent() == b.exponent() && a.fraction() == b.fraction()) by (nonlinear_arith)
            requires
                0 <= a.fraction() < EXPONENT_UNIT,
                0 <= b.fraction() < EXPONENT_UNIT,
                a.exponent() * EXPONENT_UNIT + a.fraction() == b.exponent() * EXPONENT_UNIT
                    + b.fraction(),
        ;
    }
}

proof fn lemma_order(a: Double, b: Double)
    ensures
        order_key(a) < order_key(b) <==> a.scaled() < b.scaled(),
        order_key(a) == order_key(b) <==> a.scaled() == b.scaled(),
{
    let zero = Double { bits: 0 };
    lemma_fields(a);
    lemma_fields(b);
    lemma_magnitude_order(a, b);
    lemma_magnitude_order(b, a);
    lemma_magnitude_order(zero, a);
    lemma_magnitude_order(zero, b);
    assert(magnitude_bits(zero) == 0);
    assert(zero.scaled_magnitude() == 0);
}

/// Every finite number is greater than minus infinity and less than infinity.
pub proof fn every_finite_number_lies_between_the_infinities(d: Double)
    requires
        d.finite(),
    ensures
        d.lt(Double::spec_infinity()),
        (Double { bits: 0xFFF0_0000_0000_0000 }).lt(d),
{
    let top = Double::spec_infinity();
    let bottom = Double { bits: 0xFFF0_0000_0000_0000 };
    lemma_fields(d);
    lemma_fields(top);
    lemma_fields(bottom);
    assert(top.exponent() == 2047 && top.fraction() == 0);
    assert(bottom.exponent() == 2047 && bottom.fraction() == 0);
    assert(magnitude_bits(d) < magnitude_bits(top)) by (nonlinear_arith)
        requires
            magnitude_bits(d) == d.exponent() * EXPONENT_UNIT + d.fraction(),
            magnitude_bits(top) == 2047 * EXPONENT_UNIT,
            d.exponent() <= 2046,
            d.fraction() < EXPONENT_UNIT,
    ;
    assert(magnitude_bits(bottom) == magnitude_bits(top));
    lemma_order(d, top);
    lemma_order(bottom, d);
}

/// A floored number is above zero.
pub proof fn a_floored_number_is_above_zero(d: Double)
    ensures
        d.spec_floored().positive(),
{
    lemma_order(Double { bits: 0 }, Double::least_positive());
    lemma_zero();
}

proof fn lemma_zero()
    ensures
        (Double { bits: 0 }).scaled() == 0,
        !(Double { bits: 0 }).nan(),
        (Double { bits: 0 }).finite(),
{
}

/// How far the exponent field puts the unit digit: whether the magnitude is whole, and
/// which whole number it is, by the size of the exponent.
proof fn lemma_whole(e: int, f: int)
    requires
        0 <= e < 2047,
        0 <= f < EXPONENT_UNIT,
    ensures
        e == 0 ==> (scaled_parts(e, f) % one_scaled() == 0 <==> f == 0),
        1 <= e < 1023 ==> scaled_parts(e, f) % one_scaled() != 0,
        e >= 1075 ==> scaled_parts(e, f) % one_scaled() == 0,
        1023 <= e <= 1075 ==> {
            let d = pow2((1075 - e) as nat) as int;
            &&& d > 0
            &&& scaled_parts(e, f) % one_scaled() == 0 <==> (EXPONENT_UNIT + f) % d == 0
            &&& scaled_parts(e, f) % one_scaled() == 0 ==> scaled_parts(e, f) == ((EXPONENT_UNIT
                + f) / d) * one_scaled()
        },
        e >= 1076 ==> scaled_parts(e, f) >= 0x20_0000_0000_0000 * one_scaled(),
{
    let u = EXPONENT_UNIT as int;
    let m = u + f;
    let one = one_scaled();
    lemma_pow2_pos(1074);
    lemma2_to64_rest();
    assert(pow2(53) == 0x20_0000_0000_0000);
    assert(pow2(52) == u);
    if e == 0 {
        lemma_pow2_strictly_increases(52, 1074);
        lemma_small_mod(f as nat, one as nat);
    } else {
        let x = pow2((e - 1) as nat) as int;
        lemma_pow2_pos((e - 1) as nat);
        if e < 1023 {
            lemma_pow2_adds(53, (e - 1) as nat);
            if 53 + e - 1 < 1074 {
                lemma_pow2_strictly_increases((53 + e - 1) as nat, 1074);
            }
            assert(0 < m * x < 0x20_0000_0000_0000 * x) by (nonlinear_arith)
                requires
                    0 < m < 0x20_0000_0000_0000,
                    x > 0,
            ;
            lemma_small_mod((m * x) as nat, one as nat);
        }
        if e >= 1075 {
            let t = pow2((e - 1075) as nat) as int;
            lemma_pow2_adds(1074, (e - 1075) as nat);
            assert(m * x == (m * t) * one) by (nonlinear_arith)
                requires
                    x == one * t,
            ;
            lemma_mod_multiples_basic(m * t, one);
            if e >= 1076 {
                lemma_pow2_unfold((e - 1075) as nat);
                lemma_pow2_pos((e - 1076) as nat);
                assert(t >= 2);
                assert((m * t) * one >= 0x20_0000_0000_0000 * one) by (nonlinear_arith)
                    requires
                        m >= 0x10_0000_0000_0000,
                        t >= 2,
                        one > 0,
                ;
            }
        }
        if 1023 <= e <= 1075 {
            let d = pow2((1075 - e) as nat) as int;
            lemma_pow2_pos((1075 - e) as nat);
            lemma_pow2_adds((e - 1) as nat, (1075 - e) as nat);
            assert(one == x * d);
            lemma_truncate_middle(m, x, d);
            assert(m * x == x * m) by (nonlinear_arith);
            assert((m * x) % one == x * (m % d));
            assert(x * (m % d) == 0 <==> m % d == 0) by (nonlinear_arith)
                requires
                    x > 0,
            ;
            if m % d == 0 {
                lemma_fundamental_div_mod(m, d);
                assert(m * x == (m / d) * one) by (nonlinear_arith)
                    requires
                        m == d * (m / d),
                        one == x * d,
                ;
            }
        }
    }
}

/// A count is the value of its number, and a number whose value is a whole one from zero up
/// is a count.
pub proof fn a_count_is_its_value(d: Double)
    ensures
        d.count() matches Some(n) ==> d.finite() && d.scaled() == n * one_scaled() && n
            < 0x20_0000_0000_0000,
        forall|n: nat|
            #![trigger n * one_scaled()]
            d.finite() && d.scaled() == n * one_scaled() && n < 0x20_0000_0000_0000 ==> d.count()
                == Some(n),
        d.whole_count() <==> d.finite() && exists|n: nat|
            d.scaled() == #[trigger] (n * one_scaled()),
{
    lemma_pow2_pos(1074);
    let one = one_scaled();
    let v = d.scaled();
    if d.whole() && v >= 0 {
        lemma_fundamental_div_mod(v, one);
        let n = (v / one) as nat;
        assert(v / one >= 0) by (nonlinear_arith)
            requires
                v >= 0,
                one > 0,
        ;
        assert(n * one == one * (v / one)) by (nonlinear_arith)
            requires
                n == v / one,
        ;
        assert(d.scaled() == n * one_scaled());
    }
    assert forall|n: nat| d.scaled() == #[trigger] (n * one_scaled()) implies v % one == 0 && v
        >= 0 && v / one == n by {
        lemma_mod_multiples_basic(n as int, one);
        lemma_div_multiples_vanish(n as int, one);
        assert(one * n == n * one) by (nonlinear_arith);
        assert(n * one >= 0) by (nonlinear_arith)
            requires
                one > 0,
        ;
    }
}

/// A whole number is that of one count alone.
pub proof fn a_count_is_written_one_way(m: nat, n: nat)
    ensures
        m * one_scaled() == n * one_scaled() ==> m == n,
{
    lemma_pow2_pos(1074);
    let one = one_scaled();
    if m * one == n * one {
        assert(m == n) by (nonlinear_arith)
            requires
                m * one == n * one,
                one > 0,
        ;
    }
}

/// Zero is a number, and its value is nothing.
pub proof fn zero_is_nothing()
    ensures
        (Double { bits: 0 }).finite(),
        !(Double { bits: 0 }).nan(),
        (Double { bits: 0 }).scaled() == 0,
{
    lemma_zero();
}

/// A larger pattern below that of infinity stands for a larger number, the sign bit for the
/// opposite, and one more in the exponent field for the double.
pub proof fn the_bits_of_a_number_order_it(a: Double, b: Double)
    ensures
        a.bits < b.bits <= 0x7FF0_0000_0000_0000 ==> a.lt(b) && 0 <= a.scaled() < b.scaled(),
        a.bits < 0x8000_0000_0000_0000 && b.bits == a.bits + 0x8000_0000_0000_0000 ==> b.scaled()
            == -a.scaled() && b.finite() == a.finite() && b.nan() == a.nan(),
        0x0010_0000_0000_0000 <= a.bits < 0x7FE0_0000_0000_0000 && b.bits == a.bits
            + 0x0010_0000_0000_0000 ==> b.scaled() == 2 * a.scaled(),
        a.bits < 0x0010_0000_0000_0000 ==> a.scaled() == a.bits,
        a.bits < 0x8000_0000_0000_0000 ==> (a.finite() <==> a.bits < 0x7FF0_0000_0000_0000) && (
        a.nan() <==> a.bits > 0x7FF0_0000_0000_0000),
        (Double { bits: 0x3FF0_0000_0000_0000 }).scaled() == one_scaled(),
{
    lemma_fields(a);
    lemma_fields(b);
    if a.bits < b.bits <= 0x7FF0_0000_0000_0000 {
        lemma_order(a, b);
        lemma_zero();
        lemma_order(Double { bits: 0 }, a);
    }
    if 0x0010_0000_0000_0000 <= a.bits < 0x7FE0_0000_0000_0000 && b.bits == a.bits
        + 0x0010_0000_0000_0000 {
        let e = a.exponent();
        let f = a.fraction();
        lemma_pow2_unfold(e as nat);
        let x = pow2((e - 1) as nat) as int;
        assert((EXPONENT_UNIT + f) * (2 * x) == 2 * ((EXPONENT_UNIT + f) * x)) by (nonlinear_arith);
    }
    let one = Double { bits: 0x3FF0_0000_0000_0000 };
    assert(one.exponent() == 1023 && one.fraction() == 0);
    lemma_pow2_adds(52, 1022);
    lemma2_to64_rest();
    assert(pow2(52) == EXPONENT_UNIT);
}

/// A number whose significant bits are a whole one, shifted, is that whole number.
pub proof fn a_shifted_whole_number_is_itself(d: Double, n: nat, shift: nat)
    requires
        d.bits < 0x7FF0_0000_0000_0000,
        shift <= 52,
        d.exponent() == 1075 - shift,
        EXPONENT_UNIT + d.fraction() == n * pow2(shift),
    ensures
        d.finite(),
        d.scaled() == n * one_scaled(),
{
    lemma_fields(d);
    let low = pow2(shift) as int;
    let high = pow2((1074 - shift) as nat) as int;
    lemma_pow2_adds(shift, (1074 - shift) as nat);
    assert((n * low) * high == n * (low * high)) by (nonlinear_arith);
}

/// The magnitude of a number is its value or the opposite of it, whichever is not negative.
pub proof fn a_magnitude_is_never_negative(d: Double)
    ensures
        d.scaled_magnitude() >= 0,
        d.scaled_magnitude() == d.scaled() || d.scaled_magnitude() == -d.scaled(),
{
    lemma_fields(d);
    if d.exponent() > 0 {
        let f = EXPONENT_UNIT + d.fraction();
        let x = pow2((d.exponent() - 1) as nat) as int;
        assert(f * x >= 0) by (nonlinear_arith)
            requires
                f >= 0,
                x >= 0,
        ;
    }
}

/// Numbers are ordered: of two that are not NaN, one is less or they are equal, never both;
/// a NaN is neither less than, nor equal to, nor at most anything; and the sign of a number
/// is how it compares with zero.
pub proof fn numbers_are_ordered(a: Double, b: Double)
    ensures
        !a.nan() && !b.nan() ==> a.lt(b) || b.lt(a) || a.same_value(b),
        a.lt(b) ==> !b.lt(a) && !a.same_value(b) && !b.le(a),
        a.nan() || b.nan() ==> !a.lt(b) && !a.le(b) && !a.same_value(b),
        a.le(b) <==> a.lt(b) || a.same_value(b),
        a.same_value(b) <==> b.same_value(a),
        !a.nan() ==> a.same_value(a),
        a.positive() <==> (Double { bits: 0 }).lt(a),
        a.below_zero() <==> a.lt(Double { bits: 0 }),
        a.finite_positive() <==> a.finite() && (Double { bits: 0 }).lt(a),
        a.finite() ==> !a.nan(),
{
    lemma_zero();
}

impl Double {
    /// Positive zero.
    pub fn zero() -> (r: Double)
        ensures
            r.bits == 0,
            r.finite(),
            r.scaled() == 0,
    {
        proof {
            lemma_zero();
        }
        Double { bits: 0 }
    }

    /// Positive infinity.
    pub fn infinity() -> (r: Double)
        ensures
            r == Double::spec_infinity(),
    {
        Double { bits: 0x7FF0_0000_0000_0000 }
    }

    /// A NaN.
    pub fn not_a_number() -> (r: Double)
        ensures
            r == Double::spec_nan(),
    {
        Double { bits: 0x7FF8_0000_0000_0000 }
    }

    pub fn is_nan(self) -> (r: bool)
        ensures
            r == self.nan(),
    {
        (self.bits / EXPONENT_UNIT) % 2048 == 2047 && self.bits % EXPONENT_UNIT != 0
    }

    pub fn is_finite(self) -> (r: bool)
        ensures
            r == self.finite(),
    {
        (self.bits / EXPONENT_UNIT) % 2048 != 2047
    }

    /// The absolute value.
    pub fn abs(self) -> (r: Double)
        ensures
            r.scaled() == self.scaled_magnitude(),
            r.nan() == self.nan(),
            r.finite() == self.finite(),
    {
        let r = Double { bits: self.bits % SIGN_BIT };
        proof {
            lemma_fields(self);
            lemma_fields(r);
            assert(magnitude_bits(r) == magnitude_bits(self));
            assert(r.exponent() == self.exponent() && r.fraction() == self.fraction())
                by (nonlinear_arith)
                requires
                    0 <= r.fraction() < EXPONENT_UNIT,
                    0 <= self.fraction() < EXPONENT_UNIT,
                    r.exponent() * EXPONENT_UNIT + r.fraction() == self.exponent() * EXPONENT_UNIT
                        + self.fraction(),
            ;
        }
        r
    }

    fn key(self) -> (r: i64)
        ensures
            r == order_key(self),
    {
        let m: u64 = self.bits % SIGN_BIT;
        if self.bits >= SIGN_BIT {
            -(m as i64)
        } else {
            m as i64
        }
    }

    /// `self < other`.
    pub fn less_than(self, other: Double) -> (r: bool)
        ensures
            r == self.lt(other),
    {
        proof {
            lemma_order(self, other);
        }
        !self.is_nan() && !other.is_nan() && self.key() < other.key()
    }

    /// `self <= other`.
    pub fn at_most(self, other: Double) -> (r: bool)
        ensures
            r == self.le(other),
    {
        proof {
            lemma_order(self, other);
        }
        !self.is_nan() && !other.is_nan() && self.key() <= other.key()
    }

    /// `self == other`, as numbers.
    pub fn equals(self, other: Double) -> (r: bool)
        ensures
            r == self.same_value(other),
    {
        proof {
            lemma_order(self, other);
        }
        !self.is_nan() && !other.is_nan() && self.key() == other.key()
    }

    /// `self > 0`.
    pub fn is_positive(self) -> (r: bool)
        ensures
            r == self.positive(),
    {
        Double::zero().less_than(self)
    }

    /// The number, or the least one of full precision above zero where it is not above
    /// that.
    pub fn floored(self) -> (r: Double)
        ensures
            r == self.spec_floored(),
            r.positive(),
    {
        let least = Double { bits: EXPONENT_UNIT };
        proof {
            a_floored_number_is_above_zero(self);
        }
        if least.less_than(self) {
            self
        } else {
            least
        }
    }

    /// `self < 0`.
    pub fn is_below_zero(self) -> (r: bool)
        ensures
            r == self.below_zero(),
    {
        self.less_than(Double::zero())
    }

    /// Whether the value is a finite integer.
    pub fn is_whole(self) -> (r: bool)
        ensures
            r == self.whole(),
    {
        let e: u64 = (self.bits / EXPONENT_UNIT) % 2048;
        let f: u64 = self.bits % EXPONENT_UNIT;
        if e == 2047 {
            return false;
        }
        proof {
            lemma_whole(e as int, f as int);
        }
        if e == 0 {
            f == 0
        } else if e < 1023 {
            false
        } else if e >= 1075 {
            true
        } else {
            let d: u64 = power_of_two(1075 - e);
            (EXPONENT_UNIT + f) % d == 0
        }
    }

    /// Whether the value is a whole number that is not negative.
    pub fn is_whole_count(self) -> (r: bool)
        ensures
            r == self.whole_count(),
    {
        proof {
            lemma_finite_is_not_nan(self);
        }
        self.is_whole() && !self.is_below_zero()
    }

    /// Whether the value is finite and greater than zero.
    pub fn is_finite_positive(self) -> (r: bool)
        ensures
            r == self.finite_positive(),
    {
        proof {
            lemma_finite_is_not_nan(self);
        }
        self.is_finite() && self.is_positive()
    }

    /// The value as a count below `2^53`, or `None` where it is not one.
    pub fn to_count(self) -> (r: Option<u64>)
        ensures
            match r {
                Some(k) => self.count() == Some(k as nat) && k < 0x20_0000_0000_0000,
                None => self.count() is None,
            },
    {
        let e: u64 = (self.bits / EXPONENT_UNIT) % 2048;
        let f: u64 = self.bits % EXPONENT_UNIT;
        if !self.is_whole() {
            return None;
        }
        proof {
            lemma_pow2_pos(1074);
            lemma_fields(self);
            lemma_whole(e as int, f as int);
            lemma_finite_is_not_nan(self);
        }
        if self.is_below_zero() {
            return None;
        }
        if e == 0 {
            proof {
                assert(self.scaled() == 0);
                lemma_small_quotient(0, 0, one_scaled());
            }
            return Some(0);
        }
        if e >= 1076 {
            proof {
                assert(self.scaled() >= 0x20_0000_0000_0000 * one_scaled());
                lemma_large_quotient(self.scaled(), 0x20_0000_0000_0000, one_scaled());
            }
            return None;
        }
        let d: u64 = power_of_two(1075 - e);
        let k: u64 = (EXPONENT_UNIT + f) / d;
        proof {
            assert(self.scaled() == self.scaled_magnitude());
            assert(self.scaled() == k * one_scaled());
            lemma_small_quotient(self.scaled(), k as int, one_scaled());
            assert(k < 0x20_0000_0000_0000) by (nonlinear_arith)
                requires
                    k == (EXPONENT_UNIT + f) / d as int,
                    EXPONENT_UNIT + f < 0x20_0000_0000_0000,
                    d >= 1,
            ;
        }
        Some(k)
    }
}

proof fn lemma_finite_is_not_nan(d: Double)
    ensures
        d.finite() ==> !d.nan(),
{
}

proof fn lemma_small_quotient(v: int, k: int, one: int)
    requires
        v == k * one,
        one > 0,
    ensures
        v / one == k,
{
    assert(v / one == k) by (nonlinear_arith)
        requires
            v == k * one,
            one > 0,
    ;
}

proof fn lemma_large_quotient(v: int, k: int, one: int)
    requires
        v >= k * one,
        one > 0,
    ensures
        v / one >= k,
{
    assert(v / one >= k) by (nonlinear_arith)
        requires
            v >= k * one,
            one > 0,
    ;
}

fn power_of_two(k: u64) -> (r: u64)
    requires
        k <= 52,
    ensures
        r == pow2(k as nat),
        r >= 1,
{
    proof {
        lemma2_to64();
        lemma2_to64_rest();
        lemma_pow2_pos(k as nat);
        if k < 52 {
            lemma_pow2_strictly_increases(k as nat, 52);
        }
        lemma_u64_shl_is_mul(1, k);
    }
    1u64 << k
}

} // verus!
