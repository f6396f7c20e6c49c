//! Single-precision numbers as ordered integers.
use vstd::prelude::*;

verus! {

/// The bit pattern of an IEEE-754 single holds a sign bit, eight exponent
/// bits and a 23-bit fraction. It is "not a number" when every exponent bit
/// is set and the fraction is not zero.
pub open spec fn is_nan(bits: u32) -> bool {
    (bits & 0x7fff_ffff) > 0x7f80_0000
}

/// The magnitude of a bit pattern: the pattern without its sign bit.
pub open spec fn magnitude(bits: u32) -> int {
    (bits & 0x7fff_ffff) as int
}

/// Whether the sign bit of a bit pattern is set.
pub open spec fn sign_bit(bits: u32) -> bool {
    (bits & 0x8000_0000) != 0
}

/// The position of a bit pattern on the number line of IEEE-754 singles:
/// magnitudes of one sign are ordered as integers, a set sign bit mirrors
/// them, and both zeros stand at 0.
pub open spec fn number_line(bits: u32) -> int {
    if sign_bit(bits) {
        -magnitude(bits)
    } else {
        magnitude(bits)
    }
}

/// The key that stands for a bit pattern: `number_line` moved up so that it
/// fits an unsigned word.
pub open spec fn key_of(bits: u32) -> int {
    number_line(bits) + 0x8000_0000
}

/// A single-precision number that is not NaN, held as an integer key.
///
/// Two scalars compare as the numbers they stand for do; negative zero and
/// positive zero are one scalar.
#[derive(Clone, Copy, Debug, PartialEq, Eq, Structural)]
pub struct Scalar {
    pub key: u32,
}

impl Scalar {
    /// A key is valid when some bit pattern other than NaN has it.
    pub open spec fn wf(&self) -> bool {
        0x0080_0000 <= self.key <= 0xff80_0000
    }

    /// The integer by which scalars are ordered.
    pub open spec fn view(&self) -> int {
        self.key as int
    }

    /// What `from_bits` returns.
    pub open spec fn spec_from_bits(bits: u32) -> Option<Scalar> {
        if is_nan(bits) {
            None
        } else {
            Some(Scalar { key: key_of(bits) as u32 })
        }
    }

    /// What `to_bits` returns: positive patterns are their own magnitude,
    /// negative ones carry the sign bit.
    pub open spec fn spec_to_bits(&self) -> u32 {
        if self.key >= 0x8000_0000 {
            (self.key - 0x8000_0000) as u32
        } else {
            (0x8000_0000 - self.key + 0x8000_0000) as u32
        }
    }

    /// Zero, as a scalar.
    pub open spec fn spec_zero() -> Scalar {
        Scalar { key: 0x8000_0000 }
    }

    /// One, as a scalar.
    pub open spec fn spec_one() -> Scalar {
        Scalar { key: 0xbf80_0000 }
    }

    /// What `clamp` returns.
    pub open spec fn spec_clamp(self, low: Scalar, high: Scalar) -> Scalar {
        if self@ < low@ {
            low
        } else if self@ > high@ {
            high
        } else {
            self
        }
    }

    /// What `fixed` returns.
    pub open spec fn spec_fixed(&self) -> i128 {
        if self.key >= 0x8000_0000 {
            size_of((self.key - 0x8000_0000) as u32) as i128
        } else {
            (-(size_of((0x8000_0000 - self.key) as u32) as i128)) as i128
        }
    }

    /// The scalar of a bit pattern, or `None` for NaN.
    pub fn from_bits(bits: u32) -> (r: Option<Scalar>)
        ensures
            r == Self::spec_from_bits(bits),
            r matches Some(s) ==> s.wf(),
    {
        let mag: u32 = bits & 0x7fff_ffff;
        let neg: bool = (bits & 0x8000_0000) != 0;
        if mag > 0x7f80_0000 {
            None
        } else if neg {
            Some(Scalar { key: 0x8000_0000 - mag })
        } else {
            Some(Scalar { key: 0x8000_0000 + mag })
        }
    }

    /// A bit pattern of this scalar: the one with a clear sign bit for zero.
    pub fn to_bits(&self) -> (bits: u32)
        requires
            self.wf(),
        ensures
            bits == self.spec_to_bits(),
            Self::spec_from_bits(bits) == Some(*self),
    {
        let bits: u32 = if self.key >= 0x8000_0000 {
            self.key - 0x8000_0000
        } else {
            (0x8000_0000 - self.key) + 0x8000_0000
        };
        proof {
            let k = self.key;
            assert(0x0080_0000 <= k <= 0xff80_0000 && k >= 0x8000_0000 ==> {
                let b = (k - 0x8000_0000u32) as u32;
                &&& (b & 0x7fff_ffff) == b
                &&& (b & 0x8000_0000) == 0
                &&& b <= 0x7f80_0000
            }) by (bit_vector);
            assert(0x0080_0000 <= k <= 0xff80_0000 && k < 0x8000_0000 ==> {
                let m = (0x8000_0000u32 - k) as u32;
                let b = (m + 0x8000_0000u32) as u32;
                &&& (b & 0x7fff_ffff) == m
                &&& (b & 0x8000_0000) != 0
                &&& m <= 0x7f80_0000
                &&& m >= 1
            }) by (bit_vector);
        }
        bits
    }

    /// Zero.
    pub fn zero() -> (r: Scalar)
        ensures
            r == Self::spec_zero(),
            Self::spec_from_bits(0) == Some(r),
            r.wf(),
    {
        proof {
            assert((0u32 & 0x7fff_ffff) == 0 && (0u32 & 0x8000_0000) == 0) by (bit_vector);
        }
        Scalar { key: 0x8000_0000 }
    }

    /// One.
    pub fn one() -> (r: Scalar)
        ensures
            r == Self::spec_one(),
            Self::spec_from_bits(0x3f80_0000) == Some(r),
            r.wf(),
    {
        proof {
            assert((0x3f80_0000u32 & 0x7fff_ffff) == 0x3f80_0000 && (0x3f80_0000u32
                & 0x8000_0000) == 0) by (bit_vector);
        }
        Scalar { key: 0xbf80_0000 }
    }

    /// `self`, moved into the range from `low` to `high`: `low` where it is
    /// below, `high` where it is above.
    pub fn clamp(self, low: Scalar, high: Scalar) -> (r: Scalar)
        ensures
            r == self.spec_clamp(low, high),
            low@ <= high@ ==> low@ <= r@ <= high@,
    {
        if self.key < low.key {
            low
        } else if self.key > high.key {
            high
        } else {
            self
        }
    }

    /// The number in steps of two to the power of -40, cut off towards
    /// zero. A number of size two to the power of 80 or more stands at two
    /// to the power of 120.
    pub fn fixed(&self) -> (r: i128)
        ensures
            r == self.spec_fixed(),
            -0x0100_0000_0000_0000_0000_0000_0000_0000 <= r
                <= 0x0100_0000_0000_0000_0000_0000_0000_0000,
    {
        let magnitude: u32 = if self.key >= 0x8000_0000 {
            self.key - 0x8000_0000
        } else {
            0x8000_0000 - self.key
        };
        let exponent: u32 = magnitude >> 23;
        let fraction: u128 = if exponent == 0 {
            (magnitude & 0x007f_ffff) as u128
        } else {
            ((magnitude & 0x007f_ffff) | 0x0080_0000) as u128
        };
        assert(fraction < 0x0100_0000) by (bit_vector)
            requires
                fraction == (magnitude & 0x007f_ffff) as u128 || fraction == ((magnitude
                    & 0x007f_ffff) | 0x0080_0000) as u128,
        ;
        let size: u128 = if exponent > 206 {
            0x0100_0000_0000_0000_0000_0000_0000_0000
        } else if exponent >= 110 {
            let by: u128 = (exponent - 110) as u128;
            assert(fraction << by <= 0x0100_0000_0000_0000_0000_0000_0000_0000) by (bit_vector)
                requires
                    fraction < 0x0100_0000,
                    by <= 96,
            ;
            fraction << by
        } else if exponent >= 87 {
            let by: u128 = (110 - exponent) as u128;
            assert(fraction >> by <= 0x0100_0000) by (bit_vector)
                requires
                    fraction < 0x0100_0000,
            ;
            fraction >> by
        } else {
            0
        };
        if self.key >= 0x8000_0000 {
            size as i128
        } else {
            -(size as i128)
        }
    }

    /// `self < other`, as numbers.
    pub fn lt(&self, other: &Scalar) -> (r: bool)
        ensures
            r == (self@ < other@),
    {
        self.key < other.key
    }

    /// `self <= other`, as numbers.
    pub fn le(&self, other: &Scalar) -> (r: bool)
        ensures
            r == (self@ <= other@),
    {
        self.key <= other.key
    }

    /// Whether the number is greater than zero.
    pub fn is_positive(&self) -> (r: bool)
        ensures
            r == (self@ > Self::spec_zero()@),
    {
        self.key > 0x8000_0000
    }

    /// Whether the number is less than zero.
    pub fn is_negative(&self) -> (r: bool)
        ensures
            r == (self@ < Self::spec_zero()@),
    {
        self.key < 0x8000_0000
    }

    /// The smaller of two scalars.
    pub fn min(self, other: Scalar) -> (r: Scalar)
        ensures
            r == if other@ < self@ { other } else { self },
    {
        if other.key < self.key {
            other
        } else {
            self
        }
    }

    /// The greater of two scalars.
    pub fn max(self, other: Scalar) -> (r: Scalar)
        ensures
            r == if other@ > self@ { other } else { self },
    {
        if other.key > self.key {
            other
        } else {
            self
        }
    }
}

/// Keys are ordered as the number line is: for two bit patterns other than
/// NaN, the scalar of the first is below the scalar of the second exactly
/// when the first stands left of the second on the number line.
pub proof fn order_follows_number_line(a: u32, b: u32)
    requires
        !is_nan(a),
        !is_nan(b),
    ensures
        Scalar::spec_from_bits(a) matches Some(x) && Scalar::spec_from_bits(b) matches Some(y)
            && (x@ < y@ <==> number_line(a) < number_line(b))
            && (x == y <==> number_line(a) == number_line(b)),
{
    key_in_range(a);
    key_in_range(b);
}

/// The key of a bit pattern other than NaN is a valid key.
pub proof fn key_in_range(bits: u32)
    requires
        !is_nan(bits),
    ensures
        0x0080_0000 <= key_of(bits) <= 0xff80_0000,
        Scalar::spec_from_bits(bits) matches Some(s) && s.wf() && s@ == key_of(bits),
{
    assert((bits & 0x7fff_ffff) <= 0x7fff_ffff) by (bit_vector);
}

/// In steps of two to the power of -40 a number is no less than any number
/// below it.
pub proof fn fixed_grows_with_the_number(a: Scalar, b: Scalar)
    requires
        a@ <= b@,
    ensures
        a.spec_fixed() <= b.spec_fixed(),
{
    let ka = a.key;
    let kb = b.key;
    if ka >= 0x8000_0000 {
        size_grows((ka - 0x8000_0000) as u32, (kb - 0x8000_0000) as u32);
        size_is_not_negative((ka - 0x8000_0000) as u32);
        size_is_not_negative((kb - 0x8000_0000) as u32);
    } else if kb < 0x8000_0000 {
        size_grows((0x8000_0000 - kb) as u32, (0x8000_0000 - ka) as u32);
        size_is_not_negative((0x8000_0000 - ka) as u32);
        size_is_not_negative((0x8000_0000 - kb) as u32);
    } else {
        size_is_not_negative((0x8000_0000 - ka) as u32);
        size_is_not_negative((kb - 0x8000_0000) as u32);
    }
}

/// The size of a magnitude in steps of two to the power of -40, cut off
/// towards zero. The eight bits above the fraction are the exponent; a
/// number with exponent `e` is its fraction, with a leading one unless `e`
/// is zero, times two to the power of `e - 150`. A size of two to the power
/// of 80 or more stands at two to the power of 120.
pub open spec fn size_of(magnitude: u32) -> u128 {
    let exponent: u32 = magnitude >> 23;
    let fraction: u128 = if exponent == 0 {
        (magnitude & 0x007f_ffff) as u128
    } else {
        ((magnitude & 0x007f_ffff) | 0x0080_0000) as u128
    };
    if exponent > 206 {
        0x0100_0000_0000_0000_0000_0000_0000_0000
    } else if exponent >= 110 {
        fraction << ((exponent - 110) as u128)
    } else if exponent >= 87 {
        fraction >> ((110 - exponent) as u128)
    } else {
        0
    }
}

proof fn size_is_not_negative(m: u32)
    ensures
        0 <= size_of(m) <= 0x0100_0000_0000_0000_0000_0000_0000_0000,
{
    let exponent: u32 = m >> 23;
    let fraction: u128 = if exponent == 0 {
        (m & 0x007f_ffff) as u128
    } else {
        ((m & 0x007f_ffff) | 0x0080_0000) as u128
    };
    assert(fraction < 0x0100_0000) by (bit_vector)
        requires
            fraction == (m & 0x007f_ffff) as u128 || fraction == ((m & 0x007f_ffff)
                | 0x0080_0000) as u128,
    ;
    if exponent > 206 {
    } else if exponent >= 110 {
        let by: u128 = (exponent - 110) as u128;
        assert(fraction << by <= 0x0100_0000_0000_0000_0000_0000_0000_0000) by (bit_vector)
            requires
                fraction < 0x0100_0000,
                by <= 96,
        ;
    } else if exponent >= 87 {
        let by: u128 = (110 - exponent) as u128;
        assert(fraction >> by <= 0x0100_0000) by (bit_vector)
            requires
                fraction < 0x0100_0000,
        ;
    }
}

proof fn size_grows(m: u32, n: u32)
    requires
        m <= n,
    ensures
        size_of(m) <= size_of(n),
{
    assert(size_of(m) <= size_of(n)) by (bit_vector)
        requires
            m <= n,
    ;
}

} // verus!
