//! The integer shape of a slice histogram.
//!
//! `histogram` sizes its bucket array from `precision` and `max_value` with
//! exact integer arithmetic; only the bucket *index* of a value is computed
//! with floating point (and is therefore only named, in `hist`).  This module
//! states the integer part — the array length and the memory bound — and a
//! conservative `quant_safe` condition under which the crate's indexing
//! provably stays inside the array it allocated.

use vstd::prelude::*;

verus! {

/// `10^p`.
pub open spec fn pow10(p: nat) -> nat
    decreases p,
{
    if p == 0 {
        1
    } else {
        10 * pow10((p - 1) as nat)
    }
}

/// `2^k`.
pub open spec fn pow2(k: nat) -> nat
    decreases k,
{
    if k == 0 {
        1
    } else {
        2 * pow2((k - 1) as nat)
    }
}

/// Number of binary digits of `n`; 0 for 0.
pub open spec fn bit_len(n: nat) -> nat
    decreases n,
{
    if n == 0 {
        0
    } else {
        1 + bit_len(n / 2)
    }
}

/// Length of the bucket array `histogram` allocates for a `(precision,
/// max_value)` pair: `10^precision` buckets per power-of-two octave above the
/// linear range, plus the linear range itself.
pub open spec fn hist_data_len(precision: u64, max_value: u64) -> int {
    let inner = pow10(precision as nat);
    let lpow = bit_len(inner);
    let lmax = pow2(lpow);
    let mvb = bit_len(max_value as nat);
    let outer: nat = if mvb > lpow {
        (mvb - lpow) as nat
    } else {
        0
    };
    (inner * outer + lmax) as int
}

/// Configurations on which every histogram operation for values up to
/// `max_value` provably stays inside the crate's reachable bucket range.
/// Four hazards are excluded:
/// - a precision above 7 can overflow the crate's 32-bit sizing arithmetic;
/// - a `max_value` in the topmost sliver of its power-of-two range can push
///   the floating-point bucket index one past the allocated array;
/// - the crate's linear indexing extends up to `linear_max + 2^precision`,
///   so a `max_value` just above that threshold makes the reachable bucket
///   count (`get_index(max_value) + 1`) fall below linear bucket indices
///   still admitted — the last disjunct demands that `get_index(max_value)`
///   clear the extended linear range (with one spare bucket for the
///   floating-point floor);
/// - at or above `2^53` values lose exactness as `f64`, and a rounded-up
///   nominal bucket value can cut the crate's iterator short.
pub open spec fn quant_safe(precision: u64, max_value: u64) -> bool {
    &&& 1 <= precision <= 7
    &&& max_value < pow2(53)
    &&& (max_value == 0 || max_value * pow10(precision as nat) <= pow2(
        (bit_len(max_value as nat) - 1) as nat,
    ) * (2 * pow10(precision as nat) - 4))
    &&& ({
        let inner = pow10(precision as nat);
        let lmax = pow2(bit_len(inner));
        ||| max_value <= lmax + pow2(precision as nat)
        ||| (max_value - lmax) * pow10(precision as nat) >= pow2(precision as nat) * lmax
    })
}

pub proof fn lemma_pow2_bound(k: nat)
    requires
        k <= 63,
    ensures
        pow2(k) <= 0x8000_0000_0000_0000,
        pow2(k) >= 1,
    decreases k,
{
    if k == 0 {
    } else {
        lemma_pow2_bound((k - 1) as nat);
        assert(pow2(k) == 2 * pow2((k - 1) as nat));
        assert(pow2((k - 1) as nat) <= 0x4000_0000_0000_0000) by {
            lemma_pow2_mono((k - 1) as nat, 62);
            reveal_with_fuel(pow2, 64);
        }
    }
}

pub proof fn lemma_pow2_mono(a: nat, b: nat)
    requires
        a <= b,
    ensures
        pow2(a) <= pow2(b),
    decreases b,
{
    if a < b {
        lemma_pow2_mono(a, (b - 1) as nat);
        assert(pow2(b) == 2 * pow2((b - 1) as nat));
        assert(pow2((b - 1) as nat) >= 1) by {
            lemma_pow2_pos((b - 1) as nat);
        }
    }
}

pub proof fn lemma_pow2_pos(k: nat)
    ensures
        pow2(k) >= 1,
    decreases k,
{
    if k > 0 {
        lemma_pow2_pos((k - 1) as nat);
    }
}

/// `n < 2^k` bounds the bit length by `k`.
pub proof fn lemma_bit_len_le(n: nat, k: nat)
    requires
        n < pow2(k),
    ensures
        bit_len(n) <= k,
    decreases n,
{
    if n > 0 {
        assert(k > 0) by {
            if k == 0 {
                assert(pow2(0nat) == 1);
            }
        }
        assert(n / 2 < pow2((k - 1) as nat)) by {
            assert(pow2(k) == 2 * pow2((k - 1) as nat));
        }
        lemma_bit_len_le(n / 2, (k - 1) as nat);
    }
}

/// Every `u64` has at most 64 binary digits.
pub proof fn lemma_bit_len_u64(n: u64)
    ensures
        bit_len(n as nat) <= 64,
{
    assert(pow2(64) == 0x1_0000_0000_0000_0000) by {
        reveal_with_fuel(pow2, 65);
    }
    lemma_bit_len_le(n as nat, 64);
}

/// Exact executable `10^p` for the precisions `quant_safe` admits.
pub(crate) fn pow10_exec(p: u32) -> (r: u64)
    requires
        p <= 7,
    ensures
        r == pow10(p as nat),
{
    let mut i: u32 = 0;
    let mut r: u64 = 1;
    while i < p
        invariant
            i <= p,
            p <= 7,
            r == pow10(i as nat),
        decreases p - i,
    {
        proof {
            lemma_pow10_bound(i as nat);
        }
        r = r * 10;
        i = i + 1;
    }
    r
}

pub proof fn lemma_pow10_bound(p: nat)
    requires
        p <= 7,
    ensures
        pow10(p) <= 10_000_000,
        pow10(p) >= 1,
    decreases p,
{
    if p == 0 {
    } else {
        lemma_pow10_bound((p - 1) as nat);
        assert(pow10(p) == 10 * pow10((p - 1) as nat));
        assert(pow10((p - 1) as nat) <= 1_000_000) by {
            lemma_pow10_mono((p - 1) as nat, 6);
            reveal_with_fuel(pow10, 8);
        }
    }
}

pub proof fn lemma_pow10_mono(a: nat, b: nat)
    requires
        a <= b,
    ensures
        pow10(a) <= pow10(b),
    decreases b,
{
    if a < b {
        lemma_pow10_mono(a, (b - 1) as nat);
        assert(pow10(b) == 10 * pow10((b - 1) as nat));
        assert(pow10((b - 1) as nat) >= 1) by {
            lemma_pow10_pos((b - 1) as nat);
        }
    }
}

pub proof fn lemma_pow10_pos(p: nat)
    ensures
        pow10(p) >= 1,
    decreases p,
{
    if p > 0 {
        lemma_pow10_pos((p - 1) as nat);
    }
}

/// Executable bit length.
pub(crate) fn bit_len_exec(n: u64) -> (r: u32)
    ensures
        r == bit_len(n as nat),
        r <= 64,
{
    proof {
        lemma_bit_len_u64(n);
    }
    let mut m: u64 = n;
    let mut r: u32 = 0;
    while m > 0
        invariant
            bit_len(n as nat) == r + bit_len(m as nat),
            bit_len(n as nat) <= 64,
            r <= 64,
        decreases m,
    {
        proof {
            lemma_bit_len_u64(m);
            assert(bit_len(m as nat) == 1 + bit_len((m / 2) as nat));
        }
        m = m / 2;
        r = r + 1;
    }
    r
}

/// Exact executable `2^k` for exponents within `u64`.
pub(crate) fn pow2_exec(k: u32) -> (r: u64)
    requires
        k <= 63,
    ensures
        r == pow2(k as nat),
{
    let mut i: u32 = 0;
    let mut r: u64 = 1;
    while i < k
        invariant
            i <= k,
            k <= 63,
            r == pow2(i as nat),
        decreases k - i,
    {
        proof {
            lemma_pow2_bound(i as nat);
            lemma_pow2_bound((i + 1) as nat);
            assert(pow2((i + 1) as nat) == 2 * pow2(i as nat));
        }
        r = r * 2;
        i = i + 1;
    }
    r
}

/// Decides `quant_safe` at run time.
pub fn quant_safe_exec(precision: u32, max_value: u64) -> (r: bool)
    ensures
        r == quant_safe(precision as u64, max_value),
{
    if precision < 1 || precision > 7 {
        return false;
    }
    proof {
        assert(pow2(53) == 0x20_0000_0000_0000nat) by {
            reveal_with_fuel(pow2, 54);
        }
    }
    if max_value >= 0x20_0000_0000_0000 {
        return false;
    }
    let inner: u64 = pow10_exec(precision);
    proof {
        lemma_pow10_bound(precision as nat);
        assert(pow10(precision as nat) >= 10) by {
            lemma_pow10_mono(1, precision as nat);
            reveal_with_fuel(pow10, 2);
        }
    }
    let lb: u32 = bit_len_exec(inner);
    proof {
        assert(pow2(24) == 0x100_0000nat) by {
            reveal_with_fuel(pow2, 25);
        }
        lemma_bit_len_le(inner as nat, 24);
    }
    let lmax: u64 = pow2_exec(lb);
    let p2: u64 = pow2_exec(precision);
    proof {
        assert(pow2(precision as nat) <= 128) by {
            lemma_pow2_mono(precision as nat, 7);
            reveal_with_fuel(pow2, 8);
        }
        assert(pow2(lb as nat) <= 0x100_0000) by {
            lemma_pow2_mono(lb as nat, 24);
        }
    }
    if max_value == 0 {
        return true;
    }
    let b: u32 = bit_len_exec(max_value);
    proof {
        assert(bit_len(max_value as nat) >= 1) by {
            assert(max_value as nat != 0);
        }
    }
    let half: u64 = pow2_exec(b - 1);
    proof {
        lemma_pow2_bound((b - 1) as nat);
    }
    proof {
        assert((max_value as nat) * (inner as nat) <= 0xffff_ffff_ffff_ffff * 10_000_000)
            by (nonlinear_arith)
            requires
                max_value <= 0xffff_ffff_ffff_ffff,
                inner <= 10_000_000,
        {
        }
        assert((half as nat) * ((2 * inner - 4) as nat) <= 0x8000_0000_0000_0000 * 20_000_000)
            by (nonlinear_arith)
            requires
                half <= 0x8000_0000_0000_0000,
                inner >= 10,
                inner <= 10_000_000,
        {
        }
    }
    let lhs: u128 = (max_value as u128) * (inner as u128);
    let rhs: u128 = (half as u128) * ((2 * inner - 4) as u128);
    if lhs > rhs {
        return false;
    }
    if max_value <= lmax + p2 {
        return true;
    }
    proof {
        assert(((max_value - lmax) as nat) * (inner as nat) <= 0xffff_ffff_ffff_ffff
            * 10_000_000) by (nonlinear_arith)
            requires
                max_value - lmax <= 0xffff_ffff_ffff_ffff,
                max_value >= lmax,
                inner <= 10_000_000,
        {
        }
        assert((p2 as nat) * (lmax as nat) <= 128 * 0x100_0000) by (nonlinear_arith)
            requires
                p2 <= 128,
                lmax <= 0x100_0000,
        {
        }
    }
    let lin_lhs: u128 = ((max_value - lmax) as u128) * (inner as u128);
    let lin_rhs: u128 = (p2 as u128) * (lmax as u128);
    lin_lhs >= lin_rhs
}

} // verus!
