//! The UCT (Upper Confidence bound for Trees) scoring rule, in fixed-point
//! integer arithmetic.
//!
//! For a child with `node_visit` visits and accumulated `win_score`, under a
//! parent with `total_visit` visits, the score is
//!
//! ```text
//! win_score / node_visit  +  sqrt(2 * ln(total_visit) / node_visit)
//! ```
//!
//! scaled by the fixed-point unit [`SCALE`], with an unvisited child
//! (`node_visit == 0`) always scoring the maximum possible value. The
//! natural logarithm is approximated by `floor(log2(x)) * ln(2)`, which keeps
//! the score monotone in each argument exactly as the real-valued rule is.

use vstd::prelude::*;

verus! {

use vstd::arithmetic::div_mod::lemma_div_is_ordered_by_denominator;
use vstd::arithmetic::power2::lemma2_to64;
use vstd::arithmetic::power2::pow2;

/// The fixed-point unit: one point of average score is worth `SCALE`.
pub const SCALE: u64 = 1024;

/// `ln(2) * SCALE`, rounded to the nearest integer.
pub const LN2_SCALED: u64 = 710;

/// `floor(log2(x))`, with `log2` of 0 and 1 taken to be 0.
pub open spec fn log2_floor(x: nat) -> nat
    decreases x,
{
    if x < 2 {
        0
    } else {
        1 + log2_floor(x / 2)
    }
}

/// `ln(x) * SCALE`, approximated as `floor(log2(x)) * (ln(2) * SCALE)`.
pub open spec fn ln_scaled(x: nat) -> nat {
    log2_floor(x) * (LN2_SCALED as nat)
}

/// The integer square root: `floor(sqrt(x))`.
pub open spec fn sqrt_floor(x: nat) -> nat
    decreases x,
{
    if x == 0 {
        0
    } else {
        let s = sqrt_floor((x - 1) as nat);
        if (s + 1) * (s + 1) <= x {
            s + 1
        } else {
            s
        }
    }
}

/// The exploitation term, scaled by `SCALE`: the truncating division
/// `win_score * SCALE / node_visit`, of either sign.
pub open spec fn exploit_scaled(win_score: int, node_visit: int) -> int
    recommends
        node_visit > 0,
{
    if win_score >= 0 {
        (win_score * (SCALE as int)) / node_visit
    } else {
        -(((-win_score) * (SCALE as int)) / node_visit)
    }
}

/// The exploration bonus, scaled by `SCALE`:
/// `SCALE * sqrt(2 * ln(total_visit) / node_visit)`.
pub open spec fn explore_scaled(total_visit: nat, node_visit: nat) -> nat
    recommends
        node_visit > 0,
{
    sqrt_floor((2 * (SCALE as nat) * ln_scaled(total_visit)) / node_visit)
}

/// Saturation of a mathematical integer into `u32`.
pub open spec fn clamp_u32(v: int) -> u32 {
    if v < 0 {
        0u32
    } else if v > u32::MAX {
        u32::MAX
    } else {
        v as u32
    }
}

/// What [`uct`] returns: the maximum for an unexplored child, otherwise the
/// sum of the exploitation and exploration terms, saturated into `u32`.
pub open spec fn uct_spec(total_visit: u32, win_score: i32, node_visit: i32) -> u32 {
    if node_visit <= 0 {
        u32::MAX
    } else {
        clamp_u32(
            exploit_scaled(win_score as int, node_visit as int) + explore_scaled(
                total_visit as nat,
                node_visit as nat,
            ),
        )
    }
}

/// `floor(log2)` of a `u32`, by repeated halving.
fn log2_floor_exec(x: u32) -> (r: u64)
    ensures
        r == log2_floor(x as nat),
{
    proof {
        lemma2_to64();
        lemma_log2_floor_below(x as nat, 32);
    }
    let mut v: u32 = x;
    let mut lg: u64 = 0;
    while v >= 2
        invariant
            log2_floor(x as nat) == lg + log2_floor(v as nat),
            lg + log2_floor(v as nat) < 32,
        decreases v,
    {
        proof {
            assert(log2_floor(v as nat) == 1 + log2_floor((v / 2) as nat));
        }
        v = v / 2;
        lg = lg + 1;
    }
    lg
}

/// `floor(sqrt)` of a small `u64`, by binary search.
fn isqrt(x: u64) -> (r: u64)
    requires
        x < 0x1_0000_0000,
    ensures
        r == sqrt_floor(x as nat),
{
    let mut lo: u64 = 0;
    let mut hi: u64 = 0x1_0000;
    proof {
        assert(0x1_0000 * 0x1_0000 == 0x1_0000_0000) by (nonlinear_arith);
    }
    while lo + 1 < hi
        invariant
            lo < hi <= 0x1_0000,
            lo * lo <= x,
            x < hi * hi,
        decreases hi - lo,
    {
        let mid = lo + (hi - lo) / 2;
        proof {
            assert(mid * mid <= 0x1_0000_0000) by (nonlinear_arith)
                requires
                    mid <= 0x1_0000,
            ;
        }
        if mid * mid <= x {
            lo = mid;
        } else {
            hi = mid;
        }
    }
    proof {
        lemma_sqrt_floor_unique(x as nat, lo as nat);
    }
    lo
}

/// The UCT score of a child with `node_visit` visits and `win_score`
/// accumulated wins, under a parent visited `total_visit` times. An
/// unexplored child (no visits yet) always scores the maximum, so that
/// selection prefers it; a nonpositive `node_visit` is treated as unexplored.
pub fn uct(total_visit: u32, win_score: i32, node_visit: i32) -> (r: u32)
    ensures
        r == uct_spec(total_visit, win_score, node_visit),
{
    if node_visit <= 0 {
        return u32::MAX;
    }
    proof {
        lemma2_to64();
        lemma_log2_floor_below(total_visit as nat, 32);
    }
    let nv = node_visit as u64;
    let lg = log2_floor_exec(total_visit);
    assert(lg <= 31);
    let ln_total = lg * LN2_SCALED;
    assert(ln_total <= 22010);
    let doubled_scale: u64 = 2 * SCALE;
    assert(doubled_scale == 2048);
    let explore = isqrt(doubled_scale * ln_total / nv);
    proof {
        lemma_explore_scaled_small(total_visit as nat, node_visit as nat);
    }
    if win_score >= 0 {
        let exploit = (win_score as u64) * SCALE / nv;
        let sum = exploit + explore;
        if sum > (u32::MAX as u64) {
            u32::MAX
        } else {
            sum as u32
        }
    } else {
        let magnitude = ((-(win_score as i64)) as u64) * SCALE / nv;
        if explore > magnitude {
            (explore - magnitude) as u32
        } else {
            0
        }
    }
}

/// `log2_floor` stays below `k` on inputs below `2^k`.
proof fn lemma_log2_floor_below(x: nat, k: nat)
    requires
        x < pow2(k),
        k >= 1,
    ensures
        log2_floor(x) < k,
    decreases k,
{
    vstd::arithmetic::power2::lemma_pow2_unfold(k);
    if x >= 2 {
        vstd::arithmetic::div_mod::lemma_fundamental_div_mod(x as int, 2);
        assert(x / 2 < pow2((k - 1) as nat));
        assert(k >= 2) by {
            if k == 1 {
                lemma2_to64();
            }
        }
        lemma_log2_floor_below(x / 2, (k - 1) as nat);
    }
}

/// `sqrt_floor(x)` is characterised by `sqrt_floor(x)^2 <= x < (sqrt_floor(x)+1)^2`.
proof fn lemma_sqrt_floor_char(x: nat)
    ensures
        sqrt_floor(x) * sqrt_floor(x) <= x,
        x < (sqrt_floor(x) + 1) * (sqrt_floor(x) + 1),
    decreases x,
{
    if x == 0 {
        assert(sqrt_floor(x) == 0);
        assert((sqrt_floor(x) + 1) * (sqrt_floor(x) + 1) == 1) by (nonlinear_arith)
            requires
                sqrt_floor(x) == 0,
        ;
    } else {
        let y = (x - 1) as nat;
        lemma_sqrt_floor_char(y);
        let s = sqrt_floor(y);
        assert(s * s <= y);
        assert(y < (s + 1) * (s + 1));
        if (s + 1) * (s + 1) <= x {
            assert(sqrt_floor(x) == s + 1);
            assert(x == (s + 1) * (s + 1));
            assert(x < (s + 2) * (s + 2)) by (nonlinear_arith)
                requires
                    x == (s + 1) * (s + 1),
            ;
            assert(sqrt_floor(x) * sqrt_floor(x) <= x);
            assert(x < (sqrt_floor(x) + 1) * (sqrt_floor(x) + 1));
        } else {
            assert(sqrt_floor(x) == s);
            assert(sqrt_floor(x) * sqrt_floor(x) <= x);
            assert(x < (sqrt_floor(x) + 1) * (sqrt_floor(x) + 1));
        }
    }
}

/// The characterisation determines `sqrt_floor` uniquely.
proof fn lemma_sqrt_floor_unique(x: nat, r: nat)
    requires
        r * r <= x,
        x < (r + 1) * (r + 1),
    ensures
        r == sqrt_floor(x),
{
    lemma_sqrt_floor_char(x);
    let s = sqrt_floor(x);
    assert(r == s) by (nonlinear_arith)
        requires
            r * r <= x,
            x < (r + 1) * (r + 1),
            s * s <= x,
            x < (s + 1) * (s + 1),
    ;
}

/// `sqrt_floor` is monotone.
proof fn lemma_sqrt_floor_mono(x: nat, y: nat)
    requires
        x <= y,
    ensures
        sqrt_floor(x) <= sqrt_floor(y),
{
    lemma_sqrt_floor_char(x);
    lemma_sqrt_floor_char(y);
    let sx = sqrt_floor(x);
    let sy = sqrt_floor(y);
    assert(sx <= sy) by (nonlinear_arith)
        requires
            sx * sx <= x,
            x <= y,
            y < (sy + 1) * (sy + 1),
    ;
}

/// The exploration bonus never exceeds the fixed-point value of `sqrt(64)`.
proof fn lemma_explore_scaled_small(total_visit: nat, node_visit: nat)
    requires
        total_visit <= u32::MAX,
        node_visit >= 1,
    ensures
        explore_scaled(total_visit, node_visit) < 0x2000,
{
    lemma2_to64();
    lemma_log2_floor_below(total_visit, 32);
    assert(ln_scaled(total_visit) <= 22010);
    let num = 2 * (SCALE as nat) * ln_scaled(total_visit);
    assert(num <= 45076480) by (nonlinear_arith)
        requires
            num == 2 * (SCALE as nat) * ln_scaled(total_visit),
            ln_scaled(total_visit) <= 22010,
            SCALE == 1024,
    ;
    vstd::arithmetic::div_mod::lemma_div_nonincreasing(num as int, node_visit as int);
    lemma_sqrt_floor_mono(num / node_visit, 0x3FF_FFFF);
    assert(0x1FFF * 0x1FFF <= 0x3FF_FFFF < 0x2000 * 0x2000) by (nonlinear_arith);
    lemma_sqrt_floor_unique(0x3FF_FFFF, 0x1FFF);
}

/// UCT monotonicity: with the score and the parent's visits fixed, and a
/// nonnegative score, the UCT value is non-increasing in the child's visit
/// count; and an unvisited child always scores the maximum possible value.
pub proof fn lemma_uct_monotone(total_visit: u32, win_score: i32, n1: i32, n2: i32)
    requires
        win_score >= 0,
        0 < n1 <= n2,
    ensures
        uct_spec(total_visit, win_score, n2) <= uct_spec(total_visit, win_score, n1),
        uct_spec(total_visit, win_score, 0) == u32::MAX,
{
    lemma_div_is_ordered_by_denominator(
        win_score * (SCALE as int),
        n1 as int,
        n2 as int,
    );
    lemma_div_is_ordered_by_denominator(
        (2 * (SCALE as nat) * ln_scaled(total_visit as nat)) as int,
        n1 as int,
        n2 as int,
    );
    lemma_sqrt_floor_mono(
        (2 * (SCALE as nat) * ln_scaled(total_visit as nat)) / (n2 as nat),
        (2 * (SCALE as nat) * ln_scaled(total_visit as nat)) / (n1 as nat),
    );
}

} // verus!
