//! Single-precision numbers that the library only carries.
use vstd::prelude::*;

verus! {

/// An IEEE-754 single-precision number, held as its bit pattern. The library
/// stores, copies and compares such numbers; arithmetic on them happens at the
/// edges, which convert with `f32::from_bits` and `f32::to_bits`.
#[derive(Clone, Copy, Debug, PartialEq, Eq, Hash, Structural)]
pub struct F32Bits(pub u32);

/// The bit pattern of `0.0`.
pub const F32_ZERO: u32 = 0;

/// The bit pattern of `1.0`.
pub const F32_ONE: u32 = 0x3f80_0000;

/// The bit pattern of positive infinity; larger magnitudes are not numbers.
pub const F32_INFINITY: u32 = 0x7f80_0000;

/// The sign bit.
pub const F32_SIGN: u32 = 0x8000_0000;

impl F32Bits {
    /// The pattern without its sign bit.
    pub open spec fn magnitude(self) -> int {
        if self.0 >= F32_SIGN {
            self.0 - F32_SIGN
        } else {
            self.0 as int
        }
    }

    /// The pattern stands for no number.
    pub open spec fn is_nan(self) -> bool {
        self.magnitude() > F32_INFINITY
    }

    /// Where the number stands in the order of numbers: bit patterns of one
    /// sign are ordered as the numbers are, and both zeros stand at zero.
    pub open spec fn rank(self) -> int {
        if self.0 >= F32_SIGN {
            -self.magnitude()
        } else {
            self.magnitude()
        }
    }

    /// `self < other`; false where one of them is no number.
    pub open spec fn less(self, other: F32Bits) -> bool {
        !self.is_nan() && !other.is_nan() && self.rank() < other.rank()
    }

    /// `self <= other`; false where one of them is no number.
    pub open spec fn at_most(self, other: F32Bits) -> bool {
        !self.is_nan() && !other.is_nan() && self.rank() <= other.rank()
    }

    /// Where the number stands in the order of numbers.
    fn rank_of(self) -> (r: i64)
        ensures
            r == self.rank(),
    {
        if self.0 >= F32_SIGN {
            -((self.0 - F32_SIGN) as i64)
        } else {
            self.0 as i64
        }
    }

    /// The pattern stands for no number.
    pub fn nan(self) -> (r: bool)
        ensures
            r == self.is_nan(),
    {
        let m: u32 = if self.0 >= F32_SIGN { self.0 - F32_SIGN } else { self.0 };
        m > F32_INFINITY
    }

    /// `self < other`; false where one of them is no number.
    pub fn lt(self, other: F32Bits) -> (r: bool)
        ensures
            r == self.less(other),
    {
        !self.nan() && !other.nan() && self.rank_of() < other.rank_of()
    }

    /// `self <= other`; false where one of them is no number.
    pub fn le(self, other: F32Bits) -> (r: bool)
        ensures
            r == self.at_most(other),
    {
        !self.nan() && !other.nan() && self.rank_of() <= other.rank_of()
    }

    /// The number zero.
    pub fn zero() -> (r: F32Bits)
        ensures
            r.0 == F32_ZERO,
    {
        F32Bits(F32_ZERO)
    }
}

/// A positive whole number with its binary point moved so that it has
/// twenty-four digits, and the exponent that goes with that.
pub open spec fn normalized(m: int, e: int) -> (int, int)
    decreases 0x100_0000 - m,
{
    if m <= 0 || m >= 0x80_0000 {
        (m, e)
    } else {
        normalized(2 * m, e - 1)
    }
}

/// The bit pattern of a whole number of less than twenty-five binary digits.
pub open spec fn whole_bits(n: int) -> int {
    if n == 0 {
        0
    } else {
        let (m, e) = normalized(
            if n < 0 {
                -n
            } else {
                n
            },
            150,
        );
        e * 0x80_0000 + (m - 0x80_0000) + (if n < 0 {
            F32_SIGN as int
        } else {
            0
        })
    }
}

/// Two times itself, `k` times over.
spec fn doubled(k: nat) -> int
    decreases k,
{
    if k == 0 {
        1
    } else {
        2 * doubled((k - 1) as nat)
    }
}

proof fn lemma_doubled(k: nat)
    ensures
        doubled(k) >= 1,
        k >= 24 ==> doubled(k) >= 0x100_0000,
    decreases k,
{
    if k > 24 {
        lemma_doubled((k - 1) as nat);
    } else {
        reveal_with_fuel(doubled, 25);
    }
}

impl F32Bits {
    /// The number `n`, which has fewer than twenty-five binary digits.
    pub fn from_whole(n: i32) -> (r: F32Bits)
        requires
            -0x100_0000 < n < 0x100_0000,
        ensures
            r.0 == whole_bits(n as int),
    {
        if n == 0 {
            return F32Bits(0);
        }
        let mut m: u32 = if n < 0 { (-n) as u32 } else { n as u32 };
        let ghost size = m as int;
        let mut e: u32 = 150;
        while m < 0x80_0000
            invariant
                0 < m < 0x100_0000,
                126 <= e <= 150,
                normalized(size, 150) == normalized(m as int, e as int),
                m >= doubled((150 - e) as nat),
            decreases 0x100_0000 - m,
        {
            proof {
                lemma_doubled((150 - e) as nat);
            }
            m = m * 2;
            e = e - 1;
            proof {
                lemma_doubled((150 - e) as nat);
            }
        }
        let bits: u32 = e * 0x80_0000 + (m - 0x80_0000);
        if n < 0 {
            F32Bits(bits + F32_SIGN)
        } else {
            F32Bits(bits)
        }
    }
}

impl Default for F32Bits {
    fn default() -> (r: F32Bits)
        ensures
            r.0 == F32_ZERO,
    {
        F32Bits(F32_ZERO)
    }
}

/// Of two numbers one is less than the other or they are equal; both zeros are
/// one; negative numbers come before positive ones, and greater patterns
/// further from zero. What is no number compares with nothing.
pub proof fn law_order_of_numbers(a: F32Bits, b: F32Bits, c: F32Bits)
    ensures
        !a.is_nan() && !b.is_nan() ==> a.less(b) || b.less(a) || (a.at_most(b) && b.at_most(a)),
        a.less(b) ==> a.at_most(b) && !b.at_most(a),
        a.at_most(b) && b.at_most(c) ==> a.at_most(c),
        a.less(b) && b.less(c) ==> a.less(c),
        a.is_nan() || b.is_nan() ==> !a.less(b) && !a.at_most(b),
        a.is_nan() <==> (0x7f80_0000 < a.0 && a.0 < 0x8000_0000) || a.0 > 0xff80_0000,
        0 < a.0 <= 0x7f80_0000 && 0x8000_0000 < b.0 <= 0xff80_0000 ==> b.less(a) && b.less(
            F32Bits(0),
        ) && F32Bits(0).less(a),
        F32Bits(0).at_most(F32Bits(0x8000_0000)) && F32Bits(0x8000_0000).at_most(F32Bits(0)),
        a.0 < b.0 <= 0x7f80_0000 ==> a.less(b),
        0x8000_0000 < a.0 < b.0 <= 0xff80_0000 ==> b.less(a),
{
}

/// Whole numbers have the patterns of binary floating point: one is one, twice
/// a number has the next exponent, and the negative of a number has the sign.
pub proof fn law_whole_numbers(n: int)
    requires
        0 < n < 0x80_0000,
    ensures
        whole_bits(0) == 0,
        whole_bits(1) == 0x3f80_0000,
        whole_bits(2 * n) == whole_bits(n) + 0x80_0000,
        whole_bits(-n) == whole_bits(n) + 0x8000_0000,
{
    reveal_with_fuel(normalized, 25);
    assert(whole_bits(1) == 0x3f80_0000);
    lemma_normalized_shift(2 * n, 150);
}

/// The exponent goes along.
proof fn lemma_normalized_shift(m: int, e: int)
    requires
        m > 0,
    ensures
        normalized(m, e).0 == normalized(m, e - 1).0,
        normalized(m, e).1 == normalized(m, e - 1).1 + 1,
    decreases 0x100_0000 - m,
{
    if m < 0x80_0000 {
        lemma_normalized_shift(2 * m, e - 1);
    }
}

} // verus!
