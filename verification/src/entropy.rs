//! The host's random source, and the scaling of one draw to an integer range.
//!
//! A draw is the bit pattern of a binary64 number. The patterns below
//! [`UNIT_END`] are exactly the numbers of the half-open unit interval, in
//! their order; every other pattern counts as zero.
//!
//! The functions that draw from the host need the host: they run on a
//! WebAssembly target under a JavaScript runtime. Each has a counterpart
//! that takes its draws as arguments and runs anywhere.
use vstd::prelude::*;
use vstd::arithmetic::div_mod::lemma_basic_div;
use vstd::arithmetic::power2::{
    lemma2_to64, lemma2_to64_rest, lemma_pow2_adds, lemma_pow2_strictly_increases, pow2,
};
use vstd::bits::lemma_u128_shr_is_div;

verus! {

/// The bit pattern of 1.0: the first pattern that is no longer below one.
pub const UNIT_END: u64 = 0x3FF0_0000_0000_0000;

/// Number of patterns that share one exponent: two to the 52nd.
pub const FRACTION_SPAN: u64 = 0x10_0000_0000_0000;

/// Whether `bits` encodes a number u with 0 <= u < 1.
pub open spec fn is_unit(bits: u64) -> bool {
    bits < UNIT_END
}

/// The numerator of the number that `bits` encodes, over two to the
/// [`unit_shift`].
pub open spec fn unit_significand(bits: u64) -> nat {
    if bits < FRACTION_SPAN {
        bits as nat
    } else {
        (bits % FRACTION_SPAN + FRACTION_SPAN) as nat
    }
}

/// The binary logarithm of the denominator of the number that `bits` encodes.
pub open spec fn unit_shift(bits: u64) -> nat {
    if bits < FRACTION_SPAN {
        1074
    } else {
        (1075 - bits / FRACTION_SPAN) as nat
    }
}

/// The integer part of `span` times the number that `bits` encodes; zero
/// where `bits` encodes no number of the unit interval.
pub open spec fn unit_floor(span: nat, bits: u64) -> nat {
    if is_unit(bits) {
        (span * unit_significand(bits)) / pow2(unit_shift(bits))
    } else {
        0
    }
}

/// The integer that a draw picks from `min` to `max`: `min` plus the integer
/// part of the draw's share of the distance; zero for an inverted range.
pub open spec fn range_pick(min: u32, max: u32, bits: u64) -> nat {
    if max < min {
        0
    } else {
        min as nat + unit_floor((max - min) as nat, bits)
    }
}

/// What a draw contributes is less than the distance, and nothing where the
/// distance is zero.
pub proof fn lemma_unit_floor_below(span: nat, bits: u64)
    ensures
        span == 0 ==> unit_floor(span, bits) == 0,
        span > 0 ==> unit_floor(span, bits) < span,
{
    if is_unit(bits) {
        let sig = unit_significand(bits);
        let shift = unit_shift(bits);
        lemma2_to64_rest();
        assert(pow2(53) == 0x20_0000_0000_0000);
        assert(sig < pow2(53));
        assert(shift >= 53);
        if shift > 53 {
            lemma_pow2_strictly_increases(53, shift);
        }
        let d = pow2(shift) as int;
        let p = (span * sig) as int;
        let n = span as int;
        assert(sig < d);
        if span > 0 {
            assert(p < n * d) by (nonlinear_arith)
                requires
                    n > 0,
                    0 <= sig < d,
                    p == n * sig,
            ;
            assert(p / d < n) by (nonlinear_arith)
                requires
                    d > 0,
                    0 <= p < n * d,
            ;
        } else {
            assert(p == 0) by (nonlinear_arith)
                requires
                    n == 0,
                    p == n * sig,
            ;
        }
    }
}

/// A pick lies in its range and reaches the upper end only where the range
/// is a single integer; an inverted range gives zero.
pub proof fn lemma_range_pick(min: u32, max: u32, bits: u64)
    ensures
        min <= max ==> min <= range_pick(min, max, bits) <= max,
        min == max ==> range_pick(min, max, bits) == min,
        min < max ==> range_pick(min, max, bits) < max,
        max < min ==> range_pick(min, max, bits) == 0,
{
    if min <= max {
        lemma_unit_floor_below((max - min) as nat, bits);
    }
}

/// The integer part of `span` times the number that the draw encodes.
pub fn scale_unit(span: u32, bits: u64) -> (part: u32)
    ensures
        part == unit_floor(span as nat, bits),
        span == 0 ==> part == 0,
        span > 0 ==> part < span,
{
    proof {
        lemma_unit_floor_below(span as nat, bits);
    }
    if bits >= UNIT_END {
        return 0;
    }
    let exponent: u64 = bits / FRACTION_SPAN;
    let significand: u64 = if exponent == 0 {
        bits
    } else {
        bits % FRACTION_SPAN + FRACTION_SPAN
    };
    let shift: u64 = if exponent == 0 {
        1074
    } else {
        1075 - exponent
    };
    assert(significand == unit_significand(bits));
    assert(shift == unit_shift(bits));
    assert((span as u128) * (significand as u128) < 0x20_0000_0000_0000_0000_0000) by (nonlinear_arith)
        requires
            significand < 0x20_0000_0000_0000,
            span < 0x1_0000_0000,
    ;
    let product: u128 = (span as u128) * (significand as u128);
    if shift >= 85 {
        proof {
            lemma2_to64_rest();
            lemma_pow2_strictly_increases(64, 85);
            assert(pow2(85) == pow2(64) * 0x20_0000) by {
                lemma_pow2_adds(64, 21);
                lemma2_to64();
            }
            if shift > 85 {
                lemma_pow2_strictly_increases(85, shift as nat);
            }
            lemma_basic_div(product as int, pow2(shift as nat) as int);
        }
        0
    } else {
        proof {
            lemma_u128_shr_is_div(product, shift as u128);
        }
        (product >> (shift as u128)) as u32
    }
}

/// Draws from the host's random source: `Math.random` of the JavaScript
/// runtime, through `js_sys::Math::random`, handed on as the bit pattern of
/// the number it returned. Nothing is claimed of the pattern: callers are
/// proved for every value of it. The binding exists on WebAssembly targets
/// only; on any other target the call panics.
#[verifier::external_body]
pub(crate) fn host_unit() -> (bits: u64) {
    js_sys::Math::random().to_bits()
}

/// The integer that the draw `bits` picks from `min` to `max`, both ends
/// included in the range; zero where the range is inverted.
pub fn pick_in_range(min: u32, max: u32, bits: u64) -> (n: u32)
    ensures
        n == range_pick(min, max, bits),
        min <= max ==> min <= n <= max,
        min < max ==> n < max,
        max < min ==> n == 0,
{
    if max < min {
        return 0;
    }
    min + scale_unit(max - min, bits)
}

/// A random integer from `min` to `max`, both ends included in the range,
/// picked by a fresh draw from the host; zero where the range is inverted.
pub fn gen_range(min: u32, max: u32) -> (n: u32)
    ensures
        exists|bits: u64| n == range_pick(min, max, bits),
        min <= max ==> min <= n <= max,
        min == max ==> n == min,
        min < max ==> n < max,
        max < min ==> n == 0,
{
    if max < min {
        assert(0 == range_pick(min, max, 0));
        return 0;
    }
    let bits = host_unit();
    pick_in_range(min, max, bits)
}

/// The draw at place `i` of a record of draws; a record that has ended
/// reads as zero.
pub open spec fn draw_at(draws: Seq<u64>, i: int) -> u64 {
    if 0 <= i < draws.len() {
        draws[i]
    } else {
        0
    }
}

/// Reads the draw at place `i` of a record.
pub fn read_draw(draws: &Vec<u64>, i: u64) -> (bits: u64)
    ensures
        bits == draw_at(draws@, i as int),
{
    if i < draws.len() as u64 {
        draws[i as usize]
    } else {
        0
    }
}

/// Takes `count` fresh draws from the host.
pub fn host_draws(count: usize) -> (draws: Vec<u64>)
    ensures
        draws.len() == count,
{
    let mut draws: Vec<u64> = Vec::new();
    while draws.len() < count
        invariant
            draws.len() <= count,
        decreases count - draws.len(),
    {
        draws.push(host_unit());
    }
    draws
}

} // verus!
