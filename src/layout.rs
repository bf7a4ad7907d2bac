//! The seeded choice of mine positions, as spec functions over cell indices.
use vstd::prelude::*;
use crate::cell::Coordinate;

verus! {

/// One step of the xorshift generator that drives placement.
pub open spec fn rng_next(s: u64) -> u64 {
    let a = s ^ (s << 13u64);
    let b = a ^ (a >> 7u64);
    b ^ (b << 17u64)
}

/// The generator's starting state for a seed.
pub open spec fn rng_start(seed: u64) -> u64 {
    seed ^ 0x9E37_79B9_7F4A_7C15u64
}

/// Whether `(x, y)` is kept free of mines: the protected cell, and with
/// `wide` its eight neighbours too.
pub open spec fn in_zone(wide: bool, p: Coordinate, x: int, y: int) -> bool {
    if wide {
        p.x - 1 <= x <= p.x + 1 && p.y - 1 <= y <= p.y + 1
    } else {
        x == p.x && y == p.y
    }
}

/// Cell `i` of a grid `w` wide may receive a mine.
pub open spec fn eligible(w: int, wide: bool, p: Coordinate, i: int) -> bool {
    !in_zone(wide, p, i % w, i / w)
}

/// Number of eligible cells among indices `lo .. n`.
pub open spec fn eligible_from(w: int, n: int, wide: bool, p: Coordinate, lo: int) -> nat
    decreases n - lo,
{
    if lo >= n {
        0
    } else {
        eligible_from(w, n, wide, p, lo + 1) + if eligible(w, wide, p, lo) {
            1nat
        } else {
            0nat
        }
    }
}

/// The neighbourhood is kept free when the mines still fit outside it.
pub open spec fn wide_zone(w: int, n: int, p: Coordinate, mine_count: int) -> bool {
    mine_count <= eligible_from(w, n, true, p, 0)
}

/// Whether a draw `s` with `need` mines left for `rem` eligible cells picks the
/// current cell.
pub open spec fn picks(s: u64, need: int, rem: int) -> bool {
    ((s >> 11u64) as int) % rem < need
}

/// Generator state, mines still to place and eligible cells still to visit,
/// before index `i` is visited.
pub open spec fn sample_state(
    w: int,
    n: int,
    p: Coordinate,
    seed: u64,
    mine_count: int,
    i: int,
) -> (u64, int, int)
    decreases i,
{
    let wide = wide_zone(w, n, p, mine_count);
    if i <= 0 {
        (rng_start(seed), mine_count, eligible_from(w, n, wide, p, 0) as int)
    } else {
        let (s, need, rem) = sample_state(w, n, p, seed, mine_count, i - 1);
        if eligible(w, wide, p, i - 1) {
            let s2 = rng_next(s);
            if picks(s2, need, rem) {
                (s2, need - 1, rem - 1)
            } else {
                (s2, need, rem - 1)
            }
        } else {
            (s, need, rem)
        }
    }
}

/// Whether cell `i` receives a mine.
pub open spec fn picked(w: int, n: int, p: Coordinate, seed: u64, mine_count: int, i: int) -> bool {
    let wide = wide_zone(w, n, p, mine_count);
    let (s, need, rem) = sample_state(w, n, p, seed, mine_count, i);
    eligible(w, wide, p, i) && picks(rng_next(s), need, rem)
}

/// The mine layout of a `w`-wide grid of `n` cells, by index.
pub open spec fn mine_layout(w: int, n: int, p: Coordinate, seed: u64, mine_count: int) -> Seq<bool> {
    Seq::new(n as nat, |i: int| picked(w, n, p, seed, mine_count, i))
}

/// Number of `true` among the first `k` entries.
pub open spec fn count_true(s: Seq<bool>, k: int) -> nat
    decreases k,
{
    if k <= 0 {
        0
    } else {
        count_true(s, k - 1) + if s[k - 1] {
            1nat
        } else {
            0nat
        }
    }
}

/// With only the protected cell kept free, every other cell is eligible.
pub proof fn lemma_narrow_eligible(w: int, h: int, p: Coordinate, lo: int)
    requires
        w > 0,
        0 <= p.x < w,
        0 <= p.y < h,
        0 <= lo <= w * h,
    ensures
        eligible_from(w, w * h, false, p, lo) == (w * h - lo) - if lo <= p.y * w + p.x {
            1int
        } else {
            0int
        },
    decreases w * h - lo,
{
    let n = w * h;
    let pi = p.y * w + p.x;
    assert(pi < n) by (nonlinear_arith)
        requires
            0 <= p.x < w,
            0 <= p.y < h,
            pi == p.y * w + p.x,
            n == w * h,
    ;
    if lo < n {
        lemma_narrow_eligible(w, h, p, lo + 1);
        vstd::arithmetic::div_mod::lemma_fundamental_div_mod(lo, w);
        assert(lo % w == w * (lo / w) + lo % w - w * (lo / w));
        if lo == pi {
            vstd::arithmetic::div_mod::lemma_fundamental_div_mod_converse(lo, w, p.y as int, p.x as int);
        } else {
            if lo % w == p.x && lo / w == p.y {
                assert(lo == (lo / w) * w + lo % w) by (nonlinear_arith)
                    requires
                        lo == w * (lo / w) + lo % w,
                ;
            }
        }
    }
}

} // verus!
