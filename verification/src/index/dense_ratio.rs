//! The share of a block's documents above which a term is stored densely.
//!
//! A share is a single-precision number, held here as an integer over a power of
//! two, and a threshold follows from it by the rounding of that precision.

use vstd::arithmetic::div_mod::{
    lemma_basic_div, lemma_div_denominator, lemma_fundamental_div_mod,
    lemma_fundamental_div_mod_converse, lemma_mod_bound, lemma_small_mod,
};
use vstd::arithmetic::power2::{
    lemma2_to64, lemma_pow2_adds, lemma_pow2_pos, lemma_pow2_strictly_increases,
    lemma_pow2_unfold, pow2,
};
use vstd::prelude::*;

verus! {

/// The gap between neighbouring numbers of 24 significant bits around `n`, as far
/// as they are integers.
pub open spec fn single_gap(n: nat) -> nat
    decreases n,
{
    if n < 0x100_0000 {
        1
    } else {
        2 * single_gap(n / 2)
    }
}

/// The number of 24 significant bits that is nearest to `n`; of two that are
/// equally near, the one that is an even multiple of the gap.
pub open spec fn nearest_single(n: nat) -> nat {
    let gap = single_gap(n);
    let multiple = n / gap;
    let rest = n % gap;
    if 2 * rest < gap || (2 * rest == gap && multiple % 2 == 0) {
        multiple * gap
    } else {
        (multiple + 1) * gap
    }
}

/// `n / d`, rounded up.
pub open spec fn ceil_div(n: nat, d: nat) -> nat {
    if n % d == 0 {
        n / d
    } else {
        n / d + 1
    }
}

/// The product of `block_size` and the ratio `numerator / 2^shift`, in single
/// precision, rounded up.
pub open spec fn dense_threshold(block_size: nat, numerator: nat, shift: nat) -> nat {
    ceil_div(nearest_single(nearest_single(block_size) * numerator), pow2(shift))
}

/// The threshold for `block_size` documents and the ratio `ratio.0 / 2^ratio.1`,
/// or the largest size where it is larger than that.
pub open spec fn stored_threshold(block_size: nat, ratio: (nat, nat)) -> nat {
    let threshold = dense_threshold(block_size, ratio.0, ratio.1);
    if threshold <= usize::MAX {
        threshold
    } else {
        usize::MAX as nat
    }
}

/// The single-precision number that `bits` encodes, brought into the range from
/// zero to one, as a numerator and the exponent of a power of two below it. What
/// is not a number counts as zero.
pub open spec fn clamped_ratio(bits: u32) -> (nat, nat) {
    let exponent = bits / 0x80_0000;
    let fraction = bits % 0x80_0000;
    if bits >= 0x8000_0000 || (exponent == 255 && fraction != 0) {
        (0, 0)
    } else if exponent >= 127 {
        (1, 0)
    } else if exponent == 0 {
        (fraction as nat, 149)
    } else {
        ((0x80_0000 + fraction) as nat, (150 - exponent) as nat)
    }
}

/// A share between zero and one: `numerator / 2^shift`.
pub struct DenseRatio {
    numerator: u32,
    shift: u32,
}

impl View for DenseRatio {
    type V = (nat, nat);

    closed spec fn view(&self) -> (nat, nat) {
        (self.numerator as nat, self.shift as nat)
    }
}

impl DenseRatio {
    #[verifier::type_invariant]
    spec fn in_range(self) -> bool {
        self.numerator <= 0x100_0000 && self.shift <= 149
    }

    /// One quarter.
    pub fn quarter() -> (ratio: DenseRatio)
        ensures
            ratio@ == (1nat, 2nat),
    {
        DenseRatio { numerator: 1, shift: 2 }
    }

    /// The share that the bits of a single-precision number encode, brought into
    /// the range from zero to one.
    pub fn from_f32_bits(bits: u32) -> (ratio: DenseRatio)
        ensures
            ratio@ == clamped_ratio(bits),
    {
        let exponent: u32 = bits / 0x80_0000;
        let fraction: u32 = bits % 0x80_0000;
        if bits >= 0x8000_0000 || (exponent == 255 && fraction != 0) {
            DenseRatio { numerator: 0, shift: 0 }
        } else if exponent >= 127 {
            DenseRatio { numerator: 1, shift: 0 }
        } else if exponent == 0 {
            DenseRatio { numerator: fraction, shift: 149 }
        } else {
            DenseRatio { numerator: 0x80_0000 + fraction, shift: 150 - exponent }
        }
    }

    /// The number of pairs above which a term of a block of `block_size`
    /// documents is stored densely.
    pub fn threshold(&self, block_size: usize) -> (threshold: usize)
        ensures
            threshold == stored_threshold(block_size as nat, self@),
    {
        proof {
            use_type_invariant(self);
            lemma_nearest_single_bound(block_size as nat);
        }
        let whole: u128 = round_to_single(block_size as u128);
        assert(whole * self.numerator <= 0x2_0000_0000_0000_0000 * 0x100_0000)
            by (nonlinear_arith)
            requires
                whole <= 0x2_0000_0000_0000_0000,
                self.numerator <= 0x100_0000,
        ;
        proof {
            lemma_nearest_single_bound((whole * self.numerator) as nat);
        }
        let product: u128 = round_to_single(whole * self.numerator as u128);
        let limit: u128 = usize::MAX as u128;
        let threshold: u128 = ceil_div_pow2(product, self.shift);
        if threshold > limit {
            usize::MAX
        } else {
            threshold as usize
        }
    }
}

/// Rounds to 24 significant bits.
fn round_to_single(n: u128) -> (rounded: u128)
    requires
        n <= 0x10_0000_0000_0000_0000_0000_0000,
    ensures
        rounded == nearest_single(n as nat),
{
    let mut gap: u128 = 1;
    let mut multiple: u128 = n;
    while multiple >= 0x100_0000
        invariant
            n <= 0x10_0000_0000_0000_0000_0000_0000,
            gap >= 1,
            multiple == n as nat / gap as nat,
            single_gap(n as nat) == gap * single_gap(multiple as nat),
        decreases multiple,
    {
        proof {
            lemma_fundamental_div_mod(n as int, gap as int);
            assert(gap <= n) by (nonlinear_arith)
                requires
                    gap * multiple + n as int % gap as int == n,
                    multiple >= 1,
                    n as int % gap as int >= 0,
            ;
            lemma_div_denominator(n as int, gap as int, 2);
            let half = single_gap((multiple / 2) as nat) as int;
            assert(gap as int * (2 * half) == (gap as int * 2) * half) by (nonlinear_arith);
        }
        gap = gap * 2;
        multiple = multiple / 2;
    }
    proof {
        assert(single_gap(multiple as nat) == 1);
        assert(gap * 1 == gap);
        lemma_fundamental_div_mod(n as int, gap as int);
        assert(gap as int * multiple == multiple as int * gap) by (nonlinear_arith);
        lemma_gap_bound(n as nat);
        assert((multiple + 1) * gap == multiple * gap + gap) by (nonlinear_arith);
    }
    let rest: u128 = n - multiple * gap;
    if 2 * rest < gap || (2 * rest == gap && multiple % 2 == 0) {
        multiple * gap
    } else {
        (multiple + 1) * gap
    }
}

/// Divides by a power of two and rounds up.
fn ceil_div_pow2(n: u128, shift: u32) -> (quotient: u128)
    requires
        n < 0x10_0000_0000_0000_0000_0000_0000,
        shift <= 149,
    ensures
        quotient == ceil_div(n as nat, pow2(shift as nat)),
{
    proof {
        lemma2_to64();
        lemma_pow2_adds(32, 64);
        lemma_pow2_adds(4, 96);
        assert(pow2(100) == 0x10_0000_0000_0000_0000_0000_0000);
    }
    if shift > 100 {
        proof {
            lemma_pow2_strictly_increases(100, shift as nat);
            lemma_small_mod(n as nat, pow2(shift as nat));
            lemma_basic_div(n as int, pow2(shift as nat) as int);
        }
        if n == 0 {
            return 0;
        } else {
            return 1;
        }
    }
    let mut divisor: u128 = 1;
    let mut k: u32 = 0;
    while k < shift
        invariant
            k <= shift <= 100,
            divisor == pow2(k as nat),
            pow2(100) == 0x10_0000_0000_0000_0000_0000_0000,
        decreases shift - k,
    {
        proof {
            lemma_pow2_strictly_increases(k as nat, 100);
            lemma_pow2_unfold((k + 1) as nat);
        }
        divisor = divisor * 2;
        k += 1;
    }
    proof {
        lemma_pow2_pos(shift as nat);
    }
    if n % divisor == 0 {
        n / divisor
    } else {
        proof {
            lemma_fundamental_div_mod(n as int, divisor as int);
            assert(n as int / divisor as int <= n) by (nonlinear_arith)
                requires
                    divisor >= 1,
                    n >= 0,
            ;
        }
        n / divisor + 1
    }
}

/// The gap is never larger than the number itself.
proof fn lemma_gap_bound(n: nat)
    ensures
        1 <= single_gap(n),
        n >= 1 ==> single_gap(n) <= n,
    decreases n,
{
    if n >= 0x100_0000 {
        lemma_gap_bound(n / 2);
    }
}

/// Rounding at most doubles a number.
proof fn lemma_nearest_single_bound(n: nat)
    ensures
        nearest_single(n) <= 2 * n,
{
    let gap = single_gap(n);
    lemma_gap_bound(n);
    lemma_fundamental_div_mod(n as int, gap as int);
    let multiple = n / gap;
    assert(gap as int * multiple == multiple * gap) by (nonlinear_arith);
    assert((multiple + 1) * gap == multiple * gap + gap) by (nonlinear_arith);
}

/// Numbers of up to 24 bits are rounded to themselves.
pub proof fn law_small_numbers_are_exact(n: nat)
    requires
        n <= 0x100_0000,
    ensures
        nearest_single(n) == n,
{
    if n == 0x100_0000 {
        reveal_with_fuel(single_gap, 2);
        assert(single_gap(n) == 2);
    }
}

/// A number is rounded by at most half the gap.
pub proof fn law_rounding_is_to_nearest(n: nat)
    ensures
        2 * (nearest_single(n) - n) <= single_gap(n),
        2 * (n - nearest_single(n)) <= single_gap(n),
{
    let gap = single_gap(n);
    lemma_gap_bound(n);
    lemma_fundamental_div_mod(n as int, gap as int);
    let multiple = n / gap;
    assert(gap as int * multiple == multiple * gap) by (nonlinear_arith);
    assert((multiple + 1) * gap == multiple * gap + gap) by (nonlinear_arith);
}

/// Rounding does not depend on the scale.
pub proof fn law_rounding_doubles(n: nat)
    ensures
        nearest_single(2 * n) == 2 * nearest_single(n),
{
    lemma_gap_bound(n);
    if 2 * n < 0x100_0000 {
        law_small_numbers_are_exact(n);
        law_small_numbers_are_exact(2 * n);
    } else {
        let gap = single_gap(n);
        let double = single_gap(2 * n);
        assert((2 * n) / 2 == n);
        assert(double == 2 * gap);
        let (q, r) = (n as int / gap as int, n as int % gap as int);
        lemma_fundamental_div_mod(n as int, gap as int);
        lemma_mod_bound(n as int, gap as int);
        assert(2 * n == q * (2 * gap) + 2 * r) by (nonlinear_arith)
            requires
                n == gap * q + r,
        ;
        lemma_fundamental_div_mod_converse((2 * n) as int, (2 * gap) as int, q, 2 * r);
        assert(q * (2 * gap) == 2 * (q * gap)) by (nonlinear_arith);
        assert((q + 1) * (2 * gap) == 2 * ((q + 1) * gap)) by (nonlinear_arith);
    }
}

/// A ratio may be written with any power of two below it.
pub proof fn law_threshold_depends_on_the_ratio(block_size: nat, numerator: nat, shift: nat)
    ensures
        dense_threshold(block_size, 2 * numerator, shift + 1) == dense_threshold(
            block_size,
            numerator,
            shift,
        ),
{
    let whole = nearest_single(block_size);
    let product = nearest_single(whole * numerator);
    assert(whole * (2 * numerator) == 2 * (whole * numerator)) by (nonlinear_arith);
    law_rounding_doubles(whole * numerator);
    lemma_pow2_unfold(shift + 1);
    lemma_pow2_pos(shift);
    let d = pow2(shift) as int;
    let (q, r) = (product as int / d, product as int % d);
    lemma_fundamental_div_mod(product as int, d);
    lemma_mod_bound(product as int, d);
    assert(2 * product == q * (2 * d) + 2 * r) by (nonlinear_arith)
        requires
            product == d * q + r,
    ;
    lemma_fundamental_div_mod_converse((2 * product) as int, 2 * d, q, 2 * r);
}

/// The share of one quarter is what the single-precision number 0.25 encodes.
pub proof fn law_quarter_is_encoded(block_size: nat)
    ensures
        stored_threshold(block_size, clamped_ratio(0x3e80_0000)) == stored_threshold(
            block_size,
            (1, 2),
        ),
{
    lemma_scaled_ratio(block_size, 23);
    lemma2_to64();
    assert(pow2(23) == 0x80_0000);
    assert(clamped_ratio(0x3e80_0000) == (0x80_0000nat, 25nat));
}

proof fn lemma_scaled_ratio(block_size: nat, k: nat)
    ensures
        dense_threshold(block_size, pow2(k), 2 + k) == dense_threshold(block_size, 1, 2),
    decreases k,
{
    lemma2_to64();
    if k > 0 {
        lemma_scaled_ratio(block_size, (k - 1) as nat);
        lemma_pow2_unfold(k);
        law_threshold_depends_on_the_ratio(block_size, pow2((k - 1) as nat), (1 + k) as nat);
    }
}

/// For blocks of up to 2^24 documents, a quarter is a quarter, rounded up.
pub proof fn law_quarter_of_a_block(block_size: nat)
    requires
        block_size <= 0x100_0000,
    ensures
        dense_threshold(block_size, 1, 2) == (block_size + 3) / 4,
{
    law_small_numbers_are_exact(block_size);
    lemma2_to64();
}

/// A ratio of zero makes the threshold zero.
pub proof fn law_zero_ratio(block_size: nat, shift: nat)
    ensures
        dense_threshold(block_size, 0, shift) == 0,
{
    lemma_pow2_pos(shift);
    assert(nearest_single(block_size) * 0 == 0);
    law_small_numbers_are_exact(0);
    lemma_small_mod(0, pow2(shift));
    lemma_basic_div(0, pow2(shift) as int);
}

/// A ratio of one makes the size of the block the threshold, for blocks of up to
/// 2^24 documents.
pub proof fn law_full_ratio(block_size: nat)
    requires
        block_size <= 0x100_0000,
    ensures
        dense_threshold(block_size, 1, 0) == block_size,
{
    law_small_numbers_are_exact(block_size);
    lemma2_to64();
}

/// The gap around a number is the power of two that leaves 24 bits of it, or one
/// where it has no more than these.
pub proof fn law_gap_leaves_24_bits(n: nat)
    ensures
        exists|k: nat| single_gap(n) == #[trigger] pow2(k),
        n < 0x100_0000 * single_gap(n),
        single_gap(n) > 1 ==> n >= 0x80_0000 * single_gap(n),
    decreases n,
{
    lemma2_to64();
    if n < 0x100_0000 {
        assert(single_gap(n) == pow2(0));
    } else {
        law_gap_leaves_24_bits(n / 2);
        let k = choose|k: nat| single_gap(n / 2) == #[trigger] pow2(k);
        lemma_pow2_unfold(k + 1);
        assert(single_gap(n) == pow2(k + 1));
    }
}

/// Of the multiples of the gap, none is nearer than the one that is rounded to; and
/// where another is as near, that one is even.
proof fn lemma_nearest_multiple(n: nat, t: int)
    ensures
        nearest_single(n) % single_gap(n) == 0,
        nearest_single(n) - n <= t * single_gap(n) - n || nearest_single(n) - n <= n - t
            * single_gap(n),
        n - nearest_single(n) <= t * single_gap(n) - n || n - nearest_single(n) <= n - t
            * single_gap(n),
        t * single_gap(n) != nearest_single(n) && (nearest_single(n) - n == n - t * single_gap(n)
            || nearest_single(n) - n == t * single_gap(n) - n) ==> (nearest_single(n)
            / single_gap(n)) % 2 == 0,
{
    let gap = single_gap(n) as int;
    lemma_gap_bound(n);
    lemma_fundamental_div_mod(n as int, gap);
    lemma_mod_bound(n as int, gap);
    let (q, r) = (n as int / gap, n as int % gap);
    assert(gap * q == q * gap) by (nonlinear_arith);
    assert((q + 1) * gap == q * gap + gap) by (nonlinear_arith);
    lemma_fundamental_div_mod_converse(q * gap, gap, q, 0);
    lemma_fundamental_div_mod_converse((q + 1) * gap, gap, q + 1, 0);
    if t <= q {
        assert(t * gap <= q * gap) by (nonlinear_arith)
            requires
                t <= q,
                gap >= 1,
        ;
        if t < q {
            assert(t * gap <= q * gap - gap) by (nonlinear_arith)
                requires
                    t + 1 <= q,
                    gap >= 1,
            ;
        }
    } else {
        assert(t * gap >= (q + 1) * gap) by (nonlinear_arith)
            requires
                t >= q + 1,
                gap >= 1,
        ;
        if t > q + 1 {
            assert(t * gap >= (q + 1) * gap + gap) by (nonlinear_arith)
                requires
                    t >= q + 2,
                    gap >= 1,
            ;
        }
    }
}

/// A number of 24 significant bits is `m` times a power of two, with `m` of at most
/// 2^24. Rounding gives such a number, and no other is nearer; where another is as
/// near, the one that is given is an even multiple of the gap.
pub proof fn law_no_single_is_nearer(n: nat, m: nat, k: nat)
    requires
        m <= 0x100_0000,
    ensures
        exists|a: nat, b: nat|
            a <= 0x100_0000 && nearest_single(n) == #[trigger] (a * pow2(b)),
        nearest_single(n) <= n ==> n - nearest_single(n) <= m * pow2(k) - n || n
            - nearest_single(n) <= n - m * pow2(k),
        nearest_single(n) >= n ==> nearest_single(n) - n <= m * pow2(k) - n || nearest_single(n)
            - n <= n - m * pow2(k),
        m * pow2(k) != nearest_single(n) && (nearest_single(n) - n == n - m * pow2(k)
            || nearest_single(n) - n == m * pow2(k) - n) ==> (nearest_single(n)
            / single_gap(n)) % 2 == 0,
{
    let gap = single_gap(n);
    let single = nearest_single(n);
    law_gap_leaves_24_bits(n);
    lemma_gap_bound(n);
    let g = choose|g: nat| gap == #[trigger] pow2(g);
    let q = n / gap;
    lemma_fundamental_div_mod(n as int, gap as int);
    lemma_mod_bound(n as int, gap as int);
    assert(q < 0x100_0000) by (nonlinear_arith)
        requires
            n == gap * q + n as int % gap as int,
            n as int % gap as int >= 0,
            n < 0x100_0000 * gap,
            gap >= 1,
    ;
    if single == q * gap {
        assert(single == q * pow2(g));
    } else {
        assert(single == (q + 1) * pow2(g));
    }
    let x = (m * pow2(k)) as int;
    if k >= g {
        lemma_pow2_adds(g, (k - g) as nat);
        let t = (m * pow2((k - g) as nat)) as int;
        assert(x == t * gap) by (nonlinear_arith)
            requires
                x == m * pow2(k),
                pow2(k) == gap * pow2((k - g) as nat),
                t == m * pow2((k - g) as nat),
        ;
        lemma_nearest_multiple(n, t);
    } else {
        lemma_pow2_adds(k, (g - k) as nat);
        lemma_pow2_pos(k);
        lemma_pow2_pos((g - k) as nat);
        lemma_pow2_unfold((g - k) as nat);
        let half = pow2((g - k - 1) as nat);
        lemma_pow2_pos((g - k - 1) as nat);
        assert(2 * pow2(k) <= gap) by (nonlinear_arith)
            requires
                gap == pow2(k) * pow2((g - k) as nat),
                pow2((g - k) as nat) == 2 * half,
                half >= 1,
        ;
        assert(x <= 0x100_0000 * pow2(k)) by (nonlinear_arith)
            requires
                x == m * pow2(k),
                m <= 0x100_0000,
        ;
        lemma_nearest_multiple(n, 0x80_0000);
    }
}

/// Division that is rounded up gives the least number of divisors that reach `n`.
pub proof fn law_rounded_up_division_reaches(n: nat, d: nat)
    requires
        d > 0,
    ensures
        n <= ceil_div(n, d) * d < n + d,
{
    lemma_fundamental_div_mod(n as int, d as int);
    lemma_mod_bound(n as int, d as int);
    let q = n as int / d as int;
    assert(d * q == q * d) by (nonlinear_arith);
    assert((q + 1) * d == q * d + d) by (nonlinear_arith);
}

/// The threshold is the least number that reaches the ratio's share of the block's
/// size, both in single precision; exactly that share where neither the size nor
/// the product needs more than 24 bits. What is stored is at most the largest size.
pub proof fn law_threshold_reaches_the_share(block_size: nat, ratio: (nat, nat))
    ensures
        nearest_single(nearest_single(block_size) * ratio.0) <= dense_threshold(
            block_size,
            ratio.0,
            ratio.1,
        ) * pow2(ratio.1) < nearest_single(nearest_single(block_size) * ratio.0) + pow2(ratio.1),
        block_size <= 0x100_0000 && block_size * ratio.0 <= 0x100_0000 ==> block_size * ratio.0
            <= dense_threshold(block_size, ratio.0, ratio.1) * pow2(ratio.1) < block_size
            * ratio.0 + pow2(ratio.1),
        stored_threshold(block_size, ratio) <= usize::MAX,
        stored_threshold(block_size, ratio) <= dense_threshold(block_size, ratio.0, ratio.1),
        stored_threshold(block_size, ratio) == dense_threshold(block_size, ratio.0, ratio.1)
            || stored_threshold(block_size, ratio) == usize::MAX,
{
    lemma_pow2_pos(ratio.1);
    law_rounded_up_division_reaches(
        nearest_single(nearest_single(block_size) * ratio.0),
        pow2(ratio.1),
    );
    if block_size <= 0x100_0000 && block_size * ratio.0 <= 0x100_0000 {
        law_small_numbers_are_exact(block_size);
        law_small_numbers_are_exact(block_size * ratio.0);
    }
}

/// The bits of a single-precision number are its sign, eight bits of exponent and 23
/// of fraction. A share is the number that they encode: `1.fraction` times two to
/// the exponent less 127, or `0.fraction` times two to -126 where the exponent is
/// zero. A number of one or more makes the share one; a negative one, or what is
/// not a number, makes it zero.
pub proof fn law_ratio_is_the_encoded_number(negative: bool, exponent: u32, fraction: u32)
    requires
        exponent <= 255,
        fraction < 0x80_0000,
    ensures
        ({
            let bits = (if negative {
                0x8000_0000int
            } else {
                0
            } + exponent * 0x80_0000 + fraction) as u32;
            let (numerator, shift) = clamped_ratio(bits);
            &&& negative || (exponent == 255 && fraction != 0) ==> numerator == 0
            &&& !negative && 127 <= exponent && !(exponent == 255 && fraction != 0)
                ==> numerator == pow2(shift)
            &&& !negative && 1 <= exponent < 127 ==> numerator * pow2((150 - exponent) as nat)
                == (0x80_0000 + fraction) * pow2(shift)
            &&& !negative && exponent == 0 ==> numerator * pow2(149) == fraction * pow2(shift)
        }),
{
    lemma2_to64();
    let bits = (if negative {
        0x8000_0000int
    } else {
        0
    } + exponent * 0x80_0000 + fraction) as u32;
    if !negative {
        assert(bits / 0x80_0000 == exponent && bits % 0x80_0000 == fraction);
    }
}

} // verus!
