//! Single-precision numbers, carried as their 32-bit IEEE-754 patterns.
//!
//! The library never does arithmetic on a number. It moves numbers around,
//! orders them, and reads a class label out of one. Those three things are
//! exact on the pattern itself: one sign bit, eight exponent bits, twenty-three
//! fraction bits.

use vstd::arithmetic::power2::*;
use vstd::prelude::*;

verus! {

/// A number, held as its bit pattern.
pub type Scalar = u32;

/// The pattern of positive zero.
pub const ZERO: u32 = 0;

/// The pattern of `1.0`.
pub const ONE: u32 = 0x3F80_0000;

/// The pattern of the largest finite number.
pub const LARGEST: u32 = 0x7F7F_FFFF;

/// The pattern of positive infinity; every larger magnitude is not a number.
pub const INFINITE: u32 = 0x7F80_0000;

/// The lowest pattern with the sign bit set.
pub const SIGN: u32 = 0x8000_0000;

/// Two to the twenty-third: the weight of the hidden leading bit.
pub const HIDDEN: u32 = 0x0080_0000;

/// The pattern with its sign bit cleared.
pub open spec fn magnitude(bits: u32) -> nat {
    if bits >= SIGN {
        (bits - SIGN) as nat
    } else {
        bits as nat
    }
}

/// Whether the sign bit is set.
pub open spec fn negative(bits: u32) -> bool {
    bits >= SIGN
}

/// Whether the pattern stands for no number at all.
pub open spec fn not_a_number(bits: u32) -> bool {
    magnitude(bits) > INFINITE
}

/// Where a number stands among all numbers: among patterns that are numbers,
/// `rank` grows exactly as the value does, and both zeros share rank 0.
pub open spec fn rank(bits: u32) -> int {
    if negative(bits) {
        -(magnitude(bits) as int)
    } else {
        magnitude(bits) as int
    }
}

/// `a <= b` as numbers; false as soon as one side is not a number.
pub open spec fn at_most(a: u32, b: u32) -> bool {
    !not_a_number(a) && !not_a_number(b) && rank(a) <= rank(b)
}

/// `a < b` as numbers; false as soon as one side is not a number.
pub open spec fn below(a: u32, b: u32) -> bool {
    !not_a_number(a) && !not_a_number(b) && rank(a) < rank(b)
}

/// `a == b` as numbers: both zeros are equal, and what is not a number equals
/// nothing.
pub open spec fn same_number(a: u32, b: u32) -> bool {
    !not_a_number(a) && !not_a_number(b) && rank(a) == rank(b)
}

/// Whether the pattern is one of the two zeros.
pub open spec fn zero(bits: u32) -> bool {
    magnitude(bits) == 0
}

/// The biased exponent field.
pub open spec fn exponent(bits: u32) -> nat {
    magnitude(bits) / (HIDDEN as nat)
}

/// The fraction field with the hidden bit put in front.
pub open spec fn significand(bits: u32) -> nat {
    (HIDDEN as nat) + magnitude(bits) % (HIDDEN as nat)
}

/// The value with its fractional part cut off, for a finite number that is
/// at least one: `significand * 2^(exponent - 150)`, rounded down. Everything
/// below one, every negative number and every pattern that is no number
/// counts as 0.
pub open spec fn whole_part(bits: u32) -> nat {
    if negative(bits) || not_a_number(bits) || exponent(bits) < 127 {
        0
    } else if exponent(bits) <= 150 {
        significand(bits) / pow2((150 - exponent(bits)) as nat)
    } else {
        significand(bits) * pow2((exponent(bits) - 150) as nat)
    }
}

/// The class label that a number stands for: its whole part, held to what a
/// `usize` can take. Positive infinity gives the largest `usize`.
pub open spec fn label_of(bits: u32) -> nat {
    if bits == INFINITE || whole_part(bits) > usize::MAX {
        usize::MAX as nat
    } else {
        whole_part(bits)
    }
}

/// Tells whether `bits` is not a number.
pub fn is_nan(bits: u32) -> (r: bool)
    ensures
        r == not_a_number(bits),
{
    if bits >= SIGN {
        bits - SIGN > INFINITE
    } else {
        bits > INFINITE
    }
}

/// Tells whether `bits` is positive or negative zero.
pub fn is_zero(bits: u32) -> (r: bool)
    ensures
        r == zero(bits),
{
    bits == 0 || bits == SIGN
}

/// Computes the rank of a pattern.
fn rank_of(bits: u32) -> (r: i64)
    ensures
        r == rank(bits),
{
    if bits >= SIGN {
        let m: u32 = bits - SIGN;
        -(m as i64)
    } else {
        bits as i64
    }
}

/// `a <= b` as numbers.
pub fn le(a: u32, b: u32) -> (r: bool)
    ensures
        r == at_most(a, b),
{
    !is_nan(a) && !is_nan(b) && rank_of(a) <= rank_of(b)
}

/// `a < b` as numbers.
pub fn lt(a: u32, b: u32) -> (r: bool)
    ensures
        r == below(a, b),
{
    !is_nan(a) && !is_nan(b) && rank_of(a) < rank_of(b)
}

/// `a == b` as numbers.
pub fn eq(a: u32, b: u32) -> (r: bool)
    ensures
        r == same_number(a, b),
{
    !is_nan(a) && !is_nan(b) && rank_of(a) == rank_of(b)
}

/// `a >= b` as numbers.
pub fn ge(a: u32, b: u32) -> (r: bool)
    ensures
        r == at_most(b, a),
{
    le(b, a)
}

/// Two to the power `e`, for an exponent that keeps it inside 64 bits.
fn power_of_two(e: u32) -> (r: u64)
    requires
        e < 64,
    ensures
        r == pow2(e as nat),
{
    let mut r: u64 = 1;
    let mut k: u32 = 0;
    proof {
        lemma2_to64();
    }
    while k < e
        invariant
            k <= e,
            e < 64,
            r == pow2(k as nat),
        decreases e - k,
    {
        proof {
            lemma_pow2_unfold((k + 1) as nat);
            lemma_pow2_strictly_increases((k + 1) as nat, 64);
            lemma2_to64_rest();
        }
        r = r * 2;
        k = k + 1;
    }
    r
}

/// Reads the class label out of a number, as a cast to `usize` would: the
/// fractional part is dropped, negative numbers and patterns that are no
/// number give 0, and what is too large gives the largest `usize`.
pub fn to_index(bits: u32) -> (r: usize)
    ensures
        r == label_of(bits),
{
    if bits >= SIGN || bits > INFINITE {
        return 0;
    }
    let e: u32 = bits / HIDDEN;
    let s: u32 = HIDDEN + bits % HIDDEN;
    if e < 127 {
        return 0;
    }
    if bits == INFINITE {
        return usize::MAX;
    }
    if e <= 150 {
        let d: u64 = power_of_two(150 - e);
        proof {
            lemma_pow2_pos((150 - e) as nat);
        }
        let w: u64 = (s as u64) / d;
        assert(w <= s);
        if w > usize::MAX as u64 {
            usize::MAX
        } else {
            w as usize
        }
    } else if e - 150 <= 40 {
        let m: u64 = power_of_two(e - 150);
        proof {
            lemma2_to64();
            lemma2_to64_rest();
            if e - 150 < 40 {
                lemma_pow2_strictly_increases((e - 150) as nat, 40);
            }
            assert(m <= 0x100_0000_0000) by {
                assert(pow2(40) == 0x100_0000_0000);
            }
            assert(s * m <= 0xFF_FFFF * 0x100_0000_0000) by (nonlinear_arith)
                requires
                    s <= 0xFF_FFFF,
                    m <= 0x100_0000_0000,
            ;
        }
        let w: u64 = (s as u64) * m;
        if w > usize::MAX as u64 {
            usize::MAX
        } else {
            w as usize
        }
    } else {
        proof {
            lemma2_to64();
            lemma2_to64_rest();
            if e - 150 > 41 {
                lemma_pow2_strictly_increases(41, (e - 150) as nat);
            }
            assert(pow2(41) == 0x200_0000_0000);
            let p: nat = pow2((e - 150) as nat);
            assert(s * p >= 0x80_0000 * 0x200_0000_0000) by (nonlinear_arith)
                requires
                    s >= 0x80_0000,
                    p >= 0x200_0000_0000,
            ;
        }
        usize::MAX
    }
}

} // verus!
