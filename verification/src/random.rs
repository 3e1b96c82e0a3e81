//! The first weights of a network: drawn at random, evenly from the numbers `j / 2^51` with
//! `j` an integer from `-2^51` up to, but without, `2^51`. These are the numbers from minus one
//! up to, but without, one that are `2^-51` apart.

use vstd::prelude::*;
use vstd::arithmetic::power2::{
    lemma2_to64, lemma2_to64_rest, lemma_pow2_adds, lemma_pow2_pos, lemma_pow2_strictly_increases,
    lemma_pow2_unfold, pow2,
};

verus! {

/// The standard generator of the `rand` crate. The library hands it on to the draw and knows
/// nothing of its state.
#[verifier::external_type_specification]
#[verifier::external_body]
pub struct ExStdRng(rand::rngs::StdRng);

/// One more than the largest draw: two to the power of 51.
pub const HIGH: i64 = 0x8_0000_0000_0000;

/// The smallest draw.
pub const LOW: i64 = -0x8_0000_0000_0000;

/// The sign bit of a bit pattern: two to the power of 63.
pub const SIGN: u64 = 0x8000_0000_0000_0000;

/// The bit above the fraction of a bit pattern: two to the power of 52.
pub const HIDDEN: u64 = 0x10_0000_0000_0000;

/// The sign of a bit pattern: one for a negative number.
pub open spec fn sign_of(bits: u64) -> nat {
    (bits / SIGN) as nat
}

/// The biased exponent of a bit pattern.
pub open spec fn exponent_of(bits: u64) -> nat {
    ((bits / HIDDEN) % 0x800) as nat
}

/// The fraction of a bit pattern.
pub open spec fn fraction_of(bits: u64) -> nat {
    (bits % HIDDEN) as nat
}

/// Whether `bits` is the pattern of the number `num / 2^shift`, as zero or as a normal number:
/// one whose magnitude is `(2^52 + fraction) * 2^(exponent - 1075)`.
pub open spec fn denotes(bits: u64, num: int, shift: nat) -> bool {
    if num == 0 {
        bits == 0
    } else {
        &&& sign_of(bits) == if num < 0 { 1nat } else { 0nat }
        &&& 1 <= exponent_of(bits) <= 1075
        &&& (pow2(52) + fraction_of(bits)) * pow2(shift) == (if num < 0 { -num } else { num }) * pow2(
            (1075 - exponent_of(bits)) as nat,
        )
    }
}

/// A number of that form has one bit pattern only.
pub proof fn lemma_denotes_one(left: u64, right: u64, num: int, shift: nat)
    requires
        denotes(left, num, shift),
        denotes(right, num, shift),
    ensures
        left == right,
{
    if num != 0 {
        let size = if num < 0 { -num } else { num };
        let e1 = exponent_of(left);
        let e2 = exponent_of(right);
        let m1 = pow2(52) + fraction_of(left);
        let m2 = pow2(52) + fraction_of(right);
        lemma2_to64();
        lemma2_to64_rest();
        lemma_pow2_pos(shift);
        lemma_exponent_least(m1, m2, size, shift, e1, e2);
        lemma_exponent_least(m2, m1, size, shift, e2, e1);
        assert(m1 == m2) by (nonlinear_arith)
            requires
                m1 * pow2(shift) == m2 * pow2(shift),
                pow2(shift) > 0,
        ;
        assert(left == sign_of(left) * SIGN + exponent_of(left) * HIDDEN + fraction_of(left));
        assert(right == sign_of(right) * SIGN + exponent_of(right) * HIDDEN + fraction_of(right));
    }
}

/// Of two mantissas with exponents for the same magnitude, the first exponent is not the
/// smaller: else its mantissa would be twice the other or more.
proof fn lemma_exponent_least(m1: nat, m2: nat, size: int, shift: nat, e1: nat, e2: nat)
    requires
        e1 <= 1075,
        e2 <= 1075,
        size > 0,
        pow2(52) <= m1 < 2 * pow2(52),
        pow2(52) <= m2 < 2 * pow2(52),
        m1 * pow2(shift) == size * pow2((1075 - e1) as nat),
        m2 * pow2(shift) == size * pow2((1075 - e2) as nat),
    ensures
        e2 <= e1,
{
    if e1 < e2 {
        let low = (1075 - e2) as nat;
        let gap = (e2 - e1) as nat;
        lemma_pow2_adds(low, gap);
        assert(pow2((1075 - e1) as nat) == pow2(low) * pow2(gap));
        lemma_pow2_pos(shift);
        lemma_pow2_pos(low);
        lemma_pow2_unfold(gap);
        lemma_pow2_pos((gap - 1) as nat);
        assert(pow2(gap) >= 2);
        assert(m1 * pow2(shift) == (m2 * pow2(shift)) * pow2(gap)) by (nonlinear_arith)
            requires
                m1 * pow2(shift) == size * (pow2(low) * pow2(gap)),
                m2 * pow2(shift) == size * pow2(low),
        ;
        assert(m1 >= 2 * m2) by (nonlinear_arith)
            requires
                m1 * pow2(shift) == (m2 * pow2(shift)) * pow2(gap),
                pow2(gap) >= 2,
                pow2(shift) > 0,
                m2 > 0,
        ;
    }
}

/// Whether `bits` is the pattern of a weight that may be drawn.
pub open spec fn is_weight(bits: u64) -> bool {
    exists|j: int| LOW <= j < HIGH && denotes(bits, j, 51)
}

/// Calls `rand::Rng::gen_range` on the range from `low` up to, but without, `high`: the result
/// lies in that range. The call panics where the range is empty.
#[verifier::external_body]
fn draw(rng: &mut rand::rngs::StdRng, low: i64, high: i64) -> (r: i64)
    requires
        low < high,
    ensures
        low <= r < high,
{
    rand::Rng::gen_range(rng, low..high)
}

/// The bit pattern of the weight `j / 2^51`.
pub fn weight(j: i64) -> (bits: u64)
    requires
        LOW <= j < HIGH,
    ensures
        denotes(bits, j as int, 51),
{
    if j == 0 {
        return 0;
    }
    let negative = j < 0;
    let a: u64 = if negative {
        (0 - j) as u64
    } else {
        j as u64
    };
    let mut m: u64 = a;
    let mut s: u64 = 0;
    proof {
        lemma2_to64();
        lemma2_to64_rest();
    }
    while m < HIDDEN
        invariant
            1 <= a <= 0x8_0000_0000_0000,
            m == a * pow2(s as nat),
            pow2(s as nat) <= m < 2 * HIDDEN,
            1 <= m,
            s <= 52,
            pow2(52) == HIDDEN,
        decreases 2 * HIDDEN - m,
    {
        proof {
            lemma_pow2_unfold((s + 1) as nat);
            assert(a * (2 * pow2(s as nat)) == 2 * (a * pow2(s as nat))) by (nonlinear_arith);
            if s >= 52 {
                if s > 52 {
                    lemma_pow2_strictly_increases(52, s as nat);
                }
            }
        }
        m = m * 2;
        s = s + 1;
    }
    let fraction: u64 = m - HIDDEN;
    let exponent: u64 = 1024 - s;
    let sign: u64 = if negative {
        SIGN
    } else {
        0
    };
    let bits: u64 = sign + exponent * HIDDEN + fraction;
    proof {
        assert(sign_of(bits) == if negative { 1nat } else { 0nat });
        assert(bits / HIDDEN == (if negative { 2048u64 } else { 0u64 }) + exponent);
        assert(exponent_of(bits) == exponent);
        assert(fraction_of(bits) == fraction);
        lemma_pow2_adds(s as nat, 51);
        assert((a * pow2(s as nat)) * pow2(51) == a * (pow2(s as nat) * pow2(51))) by (nonlinear_arith);
        assert((1075 - exponent) as nat == s + 51);
    }
    bits
}

/// A weight, drawn at random.
pub fn random_weight(rng: &mut rand::rngs::StdRng) -> (bits: u64)
    ensures
        is_weight(bits),
{
    let j = draw(rng, LOW, HIGH);
    weight(j)
}

} // verus!
