//! Real numbers carried by their IEEE 754 double-precision encoding.
//!
//! Prices, scores and weights are produced and consumed by floating-point code
//! outside this library. The rules here only compare them, and comparison is a
//! matter of the encoding: sign and magnitude order the numbers, and the
//! largest magnitudes are the infinities and the not-a-number values.

use vstd::prelude::*;

verus! {

/// The sign bit.
pub const SIGN: u64 = 0x8000_0000_0000_0000;

/// The encoding of positive infinity.
pub const INFINITE: u64 = 0x7FF0_0000_0000_0000;

/// A double-precision number, held as its 64-bit encoding.
#[derive(Clone, Copy, Debug, PartialEq, Eq, Structural)]
pub struct Number {
    pub bits: u64,
}

impl Number {
    /// The encoding without its sign.
    pub open spec fn magnitude(self) -> int {
        if self.bits < SIGN {
            self.bits as int
        } else {
            self.bits - SIGN
        }
    }

    /// Not a number.
    pub open spec fn nan(self) -> bool {
        self.magnitude() > INFINITE
    }

    /// Neither infinite nor not-a-number.
    pub open spec fn finite(self) -> bool {
        self.magnitude() < INFINITE
    }

    /// The place of the number among all others: the two zeros share a place, and a
    /// greater number has a greater place.
    pub open spec fn place(self) -> int {
        if self.bits < SIGN {
            self.magnitude()
        } else {
            -self.magnitude()
        }
    }

    /// `a < b`: false as soon as one of them is not a number.
    pub open spec fn lt(self, other: Number) -> bool {
        !self.nan() && !other.nan() && self.place() < other.place()
    }

    /// `a <= b`: false as soon as one of them is not a number.
    pub open spec fn le(self, other: Number) -> bool {
        !self.nan() && !other.nan() && self.place() <= other.place()
    }

    /// Finite and greater than zero.
    pub open spec fn positive(self) -> bool {
        self.finite() && self.place() > 0
    }

    /// The number with this encoding.
    pub fn from_bits(bits: u64) -> (r: Number)
        ensures
            r.bits == bits,
    {
        Number { bits }
    }

    /// The encoding of the number.
    pub fn to_bits(self) -> (r: u64)
        ensures
            r == self.bits,
    {
        self.bits
    }

    /// Zero.
    pub fn zero() -> (r: Number)
        ensures
            r.bits == 0,
    {
        Number { bits: 0 }
    }

    /// The encoding without its sign, which is that of the absolute value.
    pub fn abs(self) -> (r: Number)
        ensures
            r.bits == self.magnitude(),
    {
        if self.bits < SIGN {
            self
        } else {
            Number { bits: self.bits - SIGN }
        }
    }

    /// Whether this is not a number.
    pub fn is_nan(self) -> (r: bool)
        ensures
            r == self.nan(),
    {
        self.abs().bits > INFINITE
    }

    /// Whether this is neither infinite nor not-a-number.
    pub fn is_finite(self) -> (r: bool)
        ensures
            r == self.finite(),
    {
        self.abs().bits < INFINITE
    }

    /// The place of the number as an integer key for sorting.
    pub fn key(self) -> (r: i64)
        ensures
            r == self.place(),
    {
        if self.bits < SIGN {
            self.bits as i64
        } else {
            -((self.bits - SIGN) as i64)
        }
    }

    /// `self < other`.
    pub fn is_lt(self, other: Number) -> (r: bool)
        ensures
            r == self.lt(other),
    {
        !self.is_nan() && !other.is_nan() && self.key() < other.key()
    }

    /// `self <= other`.
    pub fn is_le(self, other: Number) -> (r: bool)
        ensures
            r == self.le(other),
    {
        !self.is_nan() && !other.is_nan() && self.key() <= other.key()
    }

    /// The smaller of two numbers; the other one where one is not a number.
    pub open spec fn smaller(self, other: Number) -> Number {
        if self.nan() {
            other
        } else if other.nan() {
            self
        } else if other.place() < self.place() {
            other
        } else {
            self
        }
    }

    /// The smaller of two numbers.
    pub fn min(self, other: Number) -> (r: Number)
        ensures
            r == self.smaller(other),
    {
        if self.is_nan() {
            other
        } else if other.is_nan() {
            self
        } else if other.key() < self.key() {
            other
        } else {
            self
        }
    }

    /// Whether the number is finite and greater than zero.
    pub fn is_positive(self) -> (r: bool)
        ensures
            r == self.positive(),
    {
        self.is_finite() && self.key() > 0
    }
}

/// Comparison of numbers is a total order once not-a-number values are left aside.
pub proof fn number_order_is_total(a: Number, b: Number, c: Number)
    requires
        !a.nan(),
        !b.nan(),
        !c.nan(),
    ensures
        a.le(b) || b.le(a),
        a.le(b) && b.le(c) ==> a.le(c),
        a.lt(b) <==> !b.le(a),
{
}

/// Nothing compares with a not-a-number value.
pub proof fn nan_compares_with_nothing(a: Number, b: Number)
    requires
        a.nan(),
    ensures
        !a.lt(b),
        !b.lt(a),
        !a.le(b),
        !b.le(a),
{
}

/// A number is finite and greater than zero where its encoding lies strictly between that of zero
/// and that of infinity; negative numbers, both zeros, infinities and not-a-number values are not.
pub proof fn positive_encodings(x: Number, r: bool)
    requires
        call_ensures(Number::is_positive, (x,), r),
    ensures
        r <==> 0 < x.bits < 0x7FF0_0000_0000_0000,
{
}

/// Numbers of the same sign compare by their encodings, negative ones the other way round, and a
/// negative number is smaller than a positive one; the two zeros are equal.
pub proof fn comparison_follows_the_encodings(a: Number, b: Number, less: bool, at_most: bool)
    requires
        call_ensures(Number::is_lt, (a, b), less),
        call_ensures(Number::is_le, (a, b), at_most),
    ensures
        a.bits <= 0x7FF0_0000_0000_0000 && b.bits <= 0x7FF0_0000_0000_0000 ==> (less <==> a.bits
            < b.bits) && (at_most <==> a.bits <= b.bits),
        0x8000_0000_0000_0000 <= a.bits <= 0xFFF0_0000_0000_0000 && 0x8000_0000_0000_0000 <= b.bits
            <= 0xFFF0_0000_0000_0000 ==> (less <==> b.bits < a.bits) && (at_most <==> b.bits
            <= a.bits),
        0x8000_0000_0000_0000 < a.bits <= 0xFFF0_0000_0000_0000 && b.bits
            <= 0x7FF0_0000_0000_0000 ==> less && at_most,
        a.bits == 0x8000_0000_0000_0000 && b.bits == 0 ==> !less && at_most,
        (0x7FF0_0000_0000_0000 < a.bits < 0x8000_0000_0000_0000 || a.bits > 0xFFF0_0000_0000_0000)
            ==> !less && !at_most,
{
}

/// The smaller of two numbers is one of them and exceeds neither.
pub proof fn the_smaller_exceeds_neither(a: Number, b: Number, r: Number)
    requires
        call_ensures(Number::min, (a, b), r),
        !a.nan(),
        !b.nan(),
    ensures
        r == a || r == b,
        !a.lt(r) && !b.lt(r),
{
}

/// The size of a number is its encoding without the sign; a number is finite where its size lies
/// below that of infinity, and none where it lies above.
pub proof fn sizes_drop_the_sign(x: Number, size: Number, nan: bool, finite: bool, bits: u64)
    requires
        call_ensures(Number::abs, (x,), size),
        call_ensures(Number::is_nan, (x,), nan),
        call_ensures(Number::is_finite, (x,), finite),
        call_ensures(Number::to_bits, (x,), bits),
    ensures
        size.bits < 0x8000_0000_0000_0000,
        x.bits < 0x8000_0000_0000_0000 ==> size == x,
        x.bits >= 0x8000_0000_0000_0000 ==> size.bits == x.bits - 0x8000_0000_0000_0000,
        nan <==> size.bits > 0x7FF0_0000_0000_0000,
        finite <==> size.bits < 0x7FF0_0000_0000_0000,
        bits == x.bits,
{
}

/// Sorting keys order numbers as the numbers themselves are ordered.
pub proof fn keys_order_as_numbers_do(a: Number, b: Number, x: i64, y: i64, less: bool)
    requires
        call_ensures(Number::key, (a,), x),
        call_ensures(Number::key, (b,), y),
        call_ensures(Number::is_lt, (a, b), less),
        a.bits % 0x8000_0000_0000_0000 <= 0x7FF0_0000_0000_0000,
        b.bits % 0x8000_0000_0000_0000 <= 0x7FF0_0000_0000_0000,
    ensures
        less <==> x < y,
        a.bits < 0x8000_0000_0000_0000 && b.bits < 0x8000_0000_0000_0000 ==> (x < y <==> a.bits
            < b.bits),
        a.bits > 0x8000_0000_0000_0000 && b.bits < 0x8000_0000_0000_0000 ==> x < y,
{
}

} // verus!
