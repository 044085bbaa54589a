//! Floating-point numbers by their bit patterns.
//!
//! The decisions of this library compare numbers and sort them; they never
//! compute with them. An IEEE 754 bit pattern is enough for that: without its
//! sign bit it grows with the magnitude of the number.

use vstd::arithmetic::power2::{lemma_pow2_adds, lemma_pow2_pos, lemma_pow2_strictly_increases, pow2};
use vstd::prelude::*;

verus! {

/// The sign bit of a single-precision number.
pub const SINGLE_SIGN: u32 = 0x8000_0000;

/// The magnitude bits of an infinite single-precision number; larger ones are
/// not numbers.
pub const SINGLE_INF: u32 = 0x7f80_0000;

/// The sign bit of a double-precision number.
pub const DOUBLE_SIGN: u64 = 0x8000_0000_0000_0000;

/// The magnitude bits of an infinite double-precision number; larger ones are
/// not numbers.
pub const DOUBLE_INF: u64 = 0x7ff0_0000_0000_0000;

/// A single-precision number.
#[derive(Clone, Copy, PartialEq, Eq, Debug, Structural)]
pub struct Single {
    pub bits: u32,
}

/// A double-precision number.
#[derive(Clone, Copy, PartialEq, Eq, Debug, Structural)]
pub struct Double {
    pub bits: u64,
}

impl Single {
    /// Below zero, or a negative zero.
    pub open spec fn negative(self) -> bool {
        self.bits >= SINGLE_SIGN
    }

    /// The bits without the sign.
    pub open spec fn magnitude(self) -> int {
        if self.negative() {
            self.bits - SINGLE_SIGN
        } else {
            self.bits as int
        }
    }

    /// Neither infinite nor not a number.
    pub open spec fn finite(self) -> bool {
        self.magnitude() < SINGLE_INF
    }

    /// Not a number.
    pub open spec fn nan(self) -> bool {
        self.magnitude() > SINGLE_INF
    }

    /// An integer that orders numbers as their values do; both zeros have the
    /// same.
    pub open spec fn key(self) -> int {
        if self.negative() {
            -self.magnitude()
        } else {
            self.magnitude()
        }
    }

    /// `self < other` as numbers; false where either is not a number.
    pub open spec fn less(self, other: Single) -> bool {
        !self.nan() && !other.nan() && self.key() < other.key()
    }

    /// The place in the total order of all bit patterns: by value, a negative
    /// zero before a positive one, what is not a number at the ends.
    pub open spec fn rank(self) -> int {
        if self.negative() {
            SINGLE_SIGN - 1 - self.magnitude()
        } else {
            SINGLE_SIGN + self.magnitude()
        }
    }

    /// Whether this is neither infinite nor not a number.
    pub fn is_finite(self) -> (r: bool)
        ensures
            r == self.finite(),
    {
        if self.bits >= SINGLE_SIGN {
            self.bits - SINGLE_SIGN < SINGLE_INF
        } else {
            self.bits < SINGLE_INF
        }
    }

    /// Whether this is not a number.
    pub fn is_nan(self) -> (r: bool)
        ensures
            r == self.nan(),
    {
        if self.bits >= SINGLE_SIGN {
            self.bits - SINGLE_SIGN > SINGLE_INF
        } else {
            self.bits > SINGLE_INF
        }
    }

    fn order_key(self) -> (r: i64)
        ensures
            r == self.key(),
    {
        if self.bits >= SINGLE_SIGN {
            -((self.bits - SINGLE_SIGN) as i64)
        } else {
            self.bits as i64
        }
    }

    /// `self < other` as numbers.
    pub fn lt(self, other: Single) -> (r: bool)
        ensures
            r == self.less(other),
    {
        !self.is_nan() && !other.is_nan() && self.order_key() < other.order_key()
    }

    /// The place in the total order of all bit patterns.
    pub fn total_rank(self) -> (r: u32)
        ensures
            r == self.rank(),
    {
        if self.bits >= SINGLE_SIGN {
            SINGLE_SIGN - 1 - (self.bits - SINGLE_SIGN)
        } else {
            SINGLE_SIGN + self.bits
        }
    }
}

impl Double {
    /// Below zero, or a negative zero.
    pub open spec fn negative(self) -> bool {
        self.bits >= DOUBLE_SIGN
    }

    /// The bits without the sign.
    pub open spec fn magnitude(self) -> int {
        if self.negative() {
            self.bits - DOUBLE_SIGN
        } else {
            self.bits as int
        }
    }

    /// Neither infinite nor not a number.
    pub open spec fn finite(self) -> bool {
        self.magnitude() < DOUBLE_INF
    }

    /// Not a number.
    pub open spec fn nan(self) -> bool {
        self.magnitude() > DOUBLE_INF
    }

    /// An integer that orders numbers as their values do; both zeros have the
    /// same.
    pub open spec fn key(self) -> int {
        if self.negative() {
            -self.magnitude()
        } else {
            self.magnitude()
        }
    }

    /// `self < other` as numbers; false where either is not a number.
    pub open spec fn less(self, other: Double) -> bool {
        !self.nan() && !other.nan() && self.key() < other.key()
    }

    /// Whether this is neither infinite nor not a number.
    pub fn is_finite(self) -> (r: bool)
        ensures
            r == self.finite(),
    {
        if self.bits >= DOUBLE_SIGN {
            self.bits - DOUBLE_SIGN < DOUBLE_INF
        } else {
            self.bits < DOUBLE_INF
        }
    }

    /// Whether this is not a number.
    pub fn is_nan(self) -> (r: bool)
        ensures
            r == self.nan(),
    {
        if self.bits >= DOUBLE_SIGN {
            self.bits - DOUBLE_SIGN > DOUBLE_INF
        } else {
            self.bits > DOUBLE_INF
        }
    }

    fn order_key(self) -> (r: i128)
        ensures
            r == self.key(),
    {
        if self.bits >= DOUBLE_SIGN {
            -((self.bits - DOUBLE_SIGN) as i128)
        } else {
            self.bits as i128
        }
    }

    /// `self < other` as numbers.
    pub fn lt(self, other: Double) -> (r: bool)
        ensures
            r == self.less(other),
    {
        !self.is_nan() && !other.is_nan() && self.order_key() < other.order_key()
    }
}

/// Negative infinity: the logit of what must not be drawn.
pub open spec fn neg_infinity() -> Single {
    Single { bits: 0xff80_0000 }
}

/// The value of a finite magnitude, in units of the smallest positive number.
pub open spec fn single_value(magnitude: nat) -> nat {
    let exponent = magnitude / 0x80_0000;
    let fraction = magnitude % 0x80_0000;
    if exponent == 0 {
        fraction
    } else {
        (0x80_0000 + fraction) * pow2((exponent - 1) as nat)
    }
}

/// The value of a finite magnitude, in units of the smallest positive number.
pub open spec fn double_value(magnitude: nat) -> nat {
    let exponent = magnitude / 0x10_0000_0000_0000;
    let fraction = magnitude % 0x10_0000_0000_0000;
    if exponent == 0 {
        fraction
    } else {
        (0x10_0000_0000_0000 + fraction) * pow2((exponent - 1) as nat)
    }
}

/// `(unit + f) * 2^(e - 1)` grows with `e` first and `f` second.
proof fn lemma_scaled(unit: nat, e1: nat, f1: nat, e2: nat, f2: nat)
    requires
        f1 < unit,
        f2 < unit,
        e1 >= 1,
        e2 >= 1,
        e1 < e2 || (e1 == e2 && f1 < f2),
    ensures
        (unit + f1) * pow2((e1 - 1) as nat) < (unit + f2) * pow2((e2 - 1) as nat),
{
    let p1 = pow2((e1 - 1) as nat);
    let p2 = pow2((e2 - 1) as nat);
    lemma_pow2_pos((e1 - 1) as nat);
    if e1 == e2 {
        assert((unit + f1) * p1 < (unit + f2) * p1) by (nonlinear_arith)
            requires
                f1 < f2,
                p1 > 0,
        ;
    } else {
        lemma_pow2_adds((e1 - 1) as nat, 1);
        vstd::arithmetic::power2::lemma2_to64();
        assert(pow2(e1) == 2 * p1);
        if e1 < e2 - 1 {
            lemma_pow2_strictly_increases(e1, (e2 - 1) as nat);
        }
        assert(2 * p1 <= p2);
        assert((unit + f1) * p1 < (unit + f2) * p2) by (nonlinear_arith)
            requires
                f1 < unit,
                p1 > 0,
                2 * p1 <= p2,
                f2 >= 0,
        ;
    }
}

/// Of two finite magnitudes the larger bit pattern is the larger number.
pub proof fn single_bits_order_values(a: nat, b: nat)
    requires
        a < b < SINGLE_INF,
    ensures
        single_value(a) < single_value(b),
{
    let (e1, f1, e2, f2) = (a / 0x80_0000, a % 0x80_0000, b / 0x80_0000, b % 0x80_0000);
    if e1 >= 1 {
        lemma_scaled(0x80_0000, e1, f1, e2, f2);
    } else if e2 >= 1 {
        let p = pow2((e2 - 1) as nat);
        lemma_pow2_pos((e2 - 1) as nat);
        assert((0x80_0000 + f2) * p >= 0x80_0000) by (nonlinear_arith)
            requires
                p > 0,
                f2 >= 0,
        ;
    }
}

/// Of two finite magnitudes the larger bit pattern is the larger number.
pub proof fn double_bits_order_values(a: nat, b: nat)
    requires
        a < b < DOUBLE_INF,
    ensures
        double_value(a) < double_value(b),
{
    let unit: nat = 0x10_0000_0000_0000;
    let (e1, f1, e2, f2) = (a / unit, a % unit, b / unit, b % unit);
    if e1 >= 1 {
        lemma_scaled(unit, e1, f1, e2, f2);
    } else if e2 >= 1 {
        let p = pow2((e2 - 1) as nat);
        lemma_pow2_pos((e2 - 1) as nat);
        assert((unit + f2) * p >= unit) by (nonlinear_arith)
            requires
                p > 0,
                f2 >= 0,
                unit >= 0,
        ;
    }
}

/// The value of a finite single-precision number, in units of the smallest positive
/// one.
pub open spec fn single_number(bits: int) -> int {
    if bits >= 0x8000_0000 {
        -(single_value((bits - 0x8000_0000) as nat) as int)
    } else {
        single_value(bits as nat) as int
    }
}

/// Single tells finite numbers, infinite ones and what is not a number apart by the
/// exponent and the fraction, and compares numbers by their values: an infinite
/// one is beyond all finite ones, and what is not a number is never below or
/// above anything.
pub proof fn single_comparison_is_that_of_values(a: Single, b: Single)
    ensures
        a.finite() <==> (a.bits % 0x8000_0000) / 0x80_0000 < 255,
        a.nan() <==> (a.bits % 0x8000_0000) / 0x80_0000 == 255 && a.bits % 0x80_0000 != 0,
        a.finite() && b.finite() ==> (a.less(b) <==> single_number(a.bits as int) < single_number(
            b.bits as int,
        )),
        a.nan() || b.nan() ==> !a.less(b),
        a.finite() && !b.finite() && !b.nan() ==> (a.less(b) <==> b.bits < 0x8000_0000) && (b.less(a)
            <==> b.bits >= 0x8000_0000),
        !a.finite() && !a.nan() && !b.finite() && !b.nan() ==> (a.less(b) <==> a.bits >= 0x8000_0000
            && b.bits < 0x8000_0000),
{
    let (m, n) = (a.magnitude(), b.magnitude());
    if a.finite() && b.finite() {
        if m < n {
            single_bits_order_values(m as nat, n as nat);
        } else if n < m {
            single_bits_order_values(n as nat, m as nat);
        }
        if m > 0 {
            single_bits_order_values(0, m as nat);
        }
        if n > 0 {
            single_bits_order_values(0, n as nat);
        }
    }
}

/// The value of a finite double-precision number, in units of the smallest positive
/// one.
pub open spec fn double_number(bits: int) -> int {
    if bits >= 0x8000_0000_0000_0000 {
        -(double_value((bits - 0x8000_0000_0000_0000) as nat) as int)
    } else {
        double_value(bits as nat) as int
    }
}

/// Double tells finite numbers, infinite ones and what is not a number apart by the
/// exponent and the fraction, and compares numbers by their values: an infinite
/// one is beyond all finite ones, and what is not a number is never below or
/// above anything.
pub proof fn double_comparison_is_that_of_values(a: Double, b: Double)
    ensures
        a.finite() <==> (a.bits % 0x8000_0000_0000_0000) / 0x10_0000_0000_0000 < 2047,
        a.nan() <==> (a.bits % 0x8000_0000_0000_0000) / 0x10_0000_0000_0000 == 2047 && a.bits % 0x10_0000_0000_0000 != 0,
        a.finite() && b.finite() ==> (a.less(b) <==> double_number(a.bits as int) < double_number(
            b.bits as int,
        )),
        a.nan() || b.nan() ==> !a.less(b),
        a.finite() && !b.finite() && !b.nan() ==> (a.less(b) <==> b.bits < 0x8000_0000_0000_0000) && (b.less(a)
            <==> b.bits >= 0x8000_0000_0000_0000),
        !a.finite() && !a.nan() && !b.finite() && !b.nan() ==> (a.less(b) <==> a.bits >= 0x8000_0000_0000_0000
            && b.bits < 0x8000_0000_0000_0000),
{
    let (m, n) = (a.magnitude(), b.magnitude());
    if a.finite() && b.finite() {
        if m < n {
            double_bits_order_values(m as nat, n as nat);
        } else if n < m {
            double_bits_order_values(n as nat, m as nat);
        }
        if m > 0 {
            double_bits_order_values(0, m as nat);
        }
        if n > 0 {
            double_bits_order_values(0, n as nat);
        }
    }
}

/// The total order of bit patterns follows the values, has a place of its own
/// for each pattern, and puts a negative zero before a positive one.
pub proof fn ranks_follow_the_values(a: Single, b: Single)
    ensures
        a.less(b) ==> a.rank() < b.rank(),
        a.rank() == b.rank() ==> a == b,
        0 <= a.rank() <= u32::MAX,
        a.bits == 0x8000_0000 && b.bits == 0 ==> a.rank() < b.rank(),
        neg_infinity().bits == 0xff80_0000,
{
}

} // verus!
