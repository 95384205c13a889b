//! Approximate x·log2(x) primitive used by the entropy ranker.
//!
//! All arithmetic is integer arithmetic in Q16 fixed point (one unit is
//! 1/65536 of a bit), so ranking is exactly reproducible on every machine.
//! log2 is approximated by exponent extraction plus a quadratic correction of
//! the mantissa; the relative error is far below the margins the ranker
//! decides by, and the approximation itself is the specification.

use vstd::arithmetic::div_mod::lemma_fundamental_div_mod_converse;
use vstd::arithmetic::power2::pow2;
use vstd::prelude::*;

verus! {

/// The integer part of log2 of a positive integer.
pub open spec fn floor_log2(x: int) -> int
    decreases x
        when x >= 1
{
    if x <= 1 {
        0
    } else {
        1 + floor_log2(x / 2)
    }
}

/// log2(x) in Q16 fixed point: exponent, plus mantissa interpolation with a
/// quadratic correction term.
pub open spec fn spec_log2_q16(x: int) -> int
    recommends
        x >= 1,
{
    let e = floor_log2(x);
    let f = (x * 65536) / (pow2(e as nat) as int);
    let t = f - 65536;
    e * 65536 + t + (t * (65536 - t) * 22275) / 0x1_0000_0000
}

/// x·log2(x) in Q16 fixed point.
pub open spec fn spec_xlog2_q16(x: int) -> int
    recommends
        x >= 1,
{
    x * spec_log2_q16(x)
}

/// `floor_log2` is characterized by the enclosing powers of two.
pub proof fn lemma_floor_log2_char(x: int, e: nat)
    requires
        pow2(e) <= x < pow2(e + 1),
    ensures
        floor_log2(x) == e,
    decreases e,
{
    vstd::arithmetic::power2::lemma_pow2_unfold(e + 1);
    vstd::arithmetic::power2::lemma2_to64();
    if e == 0 {
    } else {
        vstd::arithmetic::power2::lemma_pow2_unfold(e);
        vstd::arithmetic::power2::lemma_pow2_pos((e - 1) as nat);
        assert(pow2((e - 1) as nat) <= x / 2 < pow2(e)) by (nonlinear_arith)
            requires
                2 * pow2((e - 1) as nat) <= x < 2 * pow2(e) && pow2((e - 1) as nat) >= 1,
        ;
        lemma_floor_log2_char(x / 2, (e - 1) as nat);
    }
}

/// The enclosing powers of two of `floor_log2`.
pub proof fn lemma_floor_log2_bounds(x: int)
    requires
        x >= 1,
    ensures
        floor_log2(x) >= 0,
        pow2(floor_log2(x) as nat) <= x < pow2((floor_log2(x) + 1) as nat),
    decreases x,
{
    vstd::arithmetic::power2::lemma2_to64();
    if x == 1 {
    } else {
        lemma_floor_log2_bounds(x / 2);
        let h = floor_log2(x / 2);
        vstd::arithmetic::power2::lemma_pow2_unfold((h + 1) as nat);
        vstd::arithmetic::power2::lemma_pow2_unfold((h + 2) as nat);
        assert(pow2((h + 1) as nat) <= x < pow2((h + 2) as nat)) by (nonlinear_arith)
            requires
                x >= 2 && pow2(h as nat) <= x / 2 < pow2((h + 1) as nat) && pow2(
                    (h + 1) as nat,
                ) == 2 * pow2(h as nat) && pow2((h + 2) as nat) == 2 * pow2((h + 1) as nat),
        ;
    }
}

/// log2 of `x` in Q16 fixed point, computed with integer arithmetic alone.
pub fn log2_q16(x: u64) -> (r: u64)
    requires
        1 <= x <= 0x7fff_ffff,
    ensures
        r == spec_log2_q16(x as int),
        r < 0x20_0000,
{
    let x16: u64 = x * 65536;
    let mut f: u64 = x16;
    let mut e: u32 = 0;
    let mut p: u64 = 1;
    proof {
        vstd::arithmetic::power2::lemma2_to64();
    }
    while f >= 131072
        invariant
            1 <= x <= 0x7fff_ffff,
            x16 == x * 65536,
            p == pow2(e as nat),
            65536 <= f,
            f * p <= x16 < (f + 1) * p,
            e <= 47,
            p <= x16,
        decreases f,
    {
        proof {
            vstd::arithmetic::power2::lemma_pow2_unfold((e + 1) as nat);
            vstd::arithmetic::power2::lemma_pow2_pos(e as nat);
            assert((f / 2) * (2 * p) <= f * p) by (nonlinear_arith)
                requires
                    p >= 0 && f >= 0,
            ;
            assert(x16 < (f / 2 + 1) * (2 * p)) by (nonlinear_arith)
                requires
                    x16 < (f + 1) * p && p >= 0 && f >= 0,
            ;
            assert(2 * p <= f * p) by (nonlinear_arith)
                requires
                    p >= 1 && f >= 2,
            ;
            assert(x16 < 0x1_0000_0000_0000) by (nonlinear_arith)
                requires
                    x <= 0x7fff_ffff && x16 == x * 65536,
            ;
            if e + 1 > 47 {
                vstd::arithmetic::power2::lemma_pow2_strictly_increases(47, (e + 1) as nat);
                vstd::arithmetic::power2::lemma2_to64_rest();
            }
        }
        f = f / 2;
        e = e + 1;
        p = p * 2;
    }
    proof {
        // e is the floor of log2(x), and f the Q16 mantissa.
        vstd::arithmetic::power2::lemma_pow2_adds(16, e as nat);
        vstd::arithmetic::power2::lemma_pow2_adds(16, (e + 1) as nat);
        vstd::arithmetic::power2::lemma_pow2_unfold((e + 1) as nat);
        vstd::arithmetic::power2::lemma2_to64();
        vstd::arithmetic::power2::lemma_pow2_pos(e as nat);
        assert(pow2(e as nat) <= x < pow2((e + 1) as nat)) by (nonlinear_arith)
            requires
                65536 <= f < 131072 && f * pow2(e as nat) <= x * 65536 < (f + 1) * pow2(e as nat)
                    && x16 == x * 65536 && pow2(e as nat) >= 1 && pow2((e + 1) as nat) == 2 * pow2(
                    e as nat,
                ),
        ;
        lemma_floor_log2_char(x as int, e as nat);
        assert(f == (x16 as int) / (pow2(e as nat) as int)) by {
            vstd::arithmetic::power2::lemma_pow2_pos(e as nat);
            assert(0 <= x16 - f * pow2(e as nat) < pow2(e as nat)) by (nonlinear_arith)
                requires
                    f * pow2(e as nat) <= x16 < (f + 1) * pow2(e as nat),
            ;
            lemma_fundamental_div_mod_converse(
                x16 as int,
                pow2(e as nat) as int,
                f as int,
                x16 - f * pow2(e as nat),
            );
        }
        if e == 31 {
        } else if e > 31 {
            vstd::arithmetic::power2::lemma_pow2_strictly_increases(31, e as nat);
        }
        assert(e <= 30);
    }
    let t: u64 = f - 65536;
    proof {
        assert(t * (65536 - t) <= 0x4000_0000) by (nonlinear_arith)
            requires
                0 <= t < 65536,
        ;
        assert(t * (65536 - t) * 22275 <= 0x4000_0000 * 22275) by (nonlinear_arith)
            requires
                0 <= t * (65536 - t) <= 0x4000_0000,
        ;
    }
    let corr: u64 = (t * (65536 - t) * 22275) / 0x1_0000_0000;
    proof {
        vstd::arithmetic::div_mod::lemma_div_is_ordered(
            t * (65536 - t) * 22275,
            (0x4000_0000 as int) * 22275,
            0x1_0000_0000,
        );
    }
    (e as u64) * 65536 + t + corr
}

/// x·log2(x) in Q16 fixed point.
pub fn xlog2_q16(x: u64) -> (r: i64)
    requires
        1 <= x <= 0x7fff_ffff,
    ensures
        r == spec_xlog2_q16(x as int),
        0 <= r < 0x10_0000_0000_0000,
{
    let l = log2_q16(x);
    proof {
        assert(x * l < 0x8000_0000 * 0x20_0000) by (nonlinear_arith)
            requires
                x < 0x8000_0000 && l < 0x20_0000,
        ;
        assert(x * l >= 0) by (nonlinear_arith)
            requires
                x >= 0 && l >= 0,
        ;
    }
    (x * l) as i64
}

} // verus!
