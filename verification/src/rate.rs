//! Rate control: which step widths to try next so that a frame's payload meets a target size,
//! and which of the tries to keep.
use crate::frame;
use vstd::prelude::*;

verus! {

/// A try: step widths, and how many tries came before.
#[derive(Clone, Copy, Debug)]
pub struct RatePlan {
    /// The size to meet, in bytes.
    pub target: usize,
    /// 0 for the step widths of the frame before, 1 after a first interpolation, 2 and 3 in the
    /// refinement.
    pub stage: u8,
    pub sw1: u32,
    pub sw2: u32,
}

/// At most a quarter away from the target.
pub open spec fn within_quarter(size: int, t: int) -> bool {
    4 * (size - t) <= t && 4 * (t - size) <= t
}

/// Less than a tenth above the target, or at most a tenth below.
pub open spec fn within_tenth(size: int, t: int) -> bool {
    10 * (size - t) < t && 10 * (t - size) <= t
}

/// At most 15 percent above the target, or less than that below.
pub open spec fn within_fifteen_percent(size: int, t: int) -> bool {
    100 * (size - t) <= 15 * t && 100 * (t - size) < 15 * t
}

/// `r` is the integer nearest to `sw * sqrt(size / t)`.
pub open spec fn is_nearest(r: int, sw: int, size: int, t: int) -> bool {
    &&& r >= 0
    &&& r == 0 || (2 * r - 1) * (2 * r - 1) * t <= 4 * sw * sw * size
    &&& 4 * sw * sw * size < (2 * r + 1) * (2 * r + 1) * t
}

/// The integer nearest to `sw * sqrt(size / t)`.
pub open spec fn nearest(sw: int, size: int, t: int) -> int {
    choose|r: int| is_nearest(r, sw, size, t)
}

/// A step width scaled by the square root of size over target: payload size falls with the
/// square of the step width. The factor is kept between `1 / k` and `k`, the result between `lo`
/// and `hi`.
pub open spec fn scaled_step(sw: int, size: int, t: int, k: int, lo: int, hi: int) -> int {
    frame::clamp(
        if k * k * size <= t {
            (2 * sw + k) / (2 * k)
        } else if size >= k * k * t {
            k * sw
        } else {
            nearest(sw, size, t)
        },
        lo,
        hi,
    )
}

/// What to try after a try of the given size, if anything.
pub open spec fn next_plan(p: RatePlan, size: usize) -> Option<RatePlan> {
    let t: int = if p.target == 0 {
        1
    } else {
        p.target as int
    };
    let s = size as int;
    let sw1 = p.sw1 as int;
    let sw2 = p.sw2 as int;
    if p.stage == 0 {
        if within_quarter(s, t) {
            None
        } else {
            Some(
                RatePlan {
                    target: p.target,
                    stage: 1,
                    sw1: scaled_step(sw1, s, t, 4, 16, 16384) as u32,
                    sw2: scaled_step(sw2, s, t, 4, 1, 4096) as u32,
                },
            )
        }
    } else if p.stage == 1 {
        if within_tenth(s, t) {
            None
        } else {
            Some(RatePlan { target: p.target, stage: 2, sw1: p.sw1, sw2: p.sw2 })
        }
    } else if p.stage == 2 {
        if within_fifteen_percent(s, t) {
            None
        } else {
            Some(
                RatePlan {
                    target: p.target,
                    stage: 3,
                    sw1: scaled_step(sw1, s, t, 2, 16, 16384) as u32,
                    sw2: scaled_step(sw2, s, t, 2, 1, 4096) as u32,
                },
            )
        }
    } else {
        None
    }
}

/// The finest fitting candidate is kept; if none fits, the smallest.
pub open spec fn better(size: usize, best: usize, target: usize) -> bool {
    let fits = size <= target;
    let best_fits = best <= target;
    (fits && !best_fits) || (fits == best_fits && ((fits && size > best) || (!fits && size < best)))
}

proof fn lemma_square_order(a: int, b: int, t: int)
    requires
        0 <= a,
        0 <= b,
        t > 0,
        a * a * t < b * b * t,
    ensures
        a < b,
{
    if a >= b {
        assert(a * a * t >= b * b * t) by (nonlinear_arith)
            requires
                a >= b >= 0,
                t > 0,
        ;
    }
}

/// There is a nearest integer.
proof fn lemma_nearest_from(r: int, sw: int, size: int, t: int) -> (n: int)
    requires
        r >= 0,
        t > 0,
        r == 0 || (2 * r - 1) * (2 * r - 1) * t <= 4 * sw * sw * size,
    ensures
        is_nearest(n, sw, size, t),
    decreases 4 * sw * sw * size + 1 - r,
{
    if 4 * sw * sw * size < (2 * r + 1) * (2 * r + 1) * t {
        r
    } else {
        assert((2 * r + 1) * (2 * r + 1) * t >= r + 1) by (nonlinear_arith)
            requires
                r >= 0,
                t > 0,
        ;
        assert(2 * (r + 1) - 1 == 2 * r + 1);
        lemma_nearest_from(r + 1, sw, size, t)
    }
}

/// The nearest integer is one, and not below any number that is at most half above the exact
/// value.
proof fn lemma_nearest(sw: int, size: int, t: int, r: int)
    requires
        t > 0,
        r >= 0,
        r == 0 || (2 * r - 1) * (2 * r - 1) * t <= 4 * sw * sw * size,
    ensures
        is_nearest(nearest(sw, size, t), sw, size, t),
        r <= nearest(sw, size, t),
        is_nearest(r, sw, size, t) ==> r == nearest(sw, size, t),
{
    let w = lemma_nearest_from(0, sw, size, t);
    let n = nearest(sw, size, t);
    if r > 0 {
        lemma_square_order(2 * r - 1, 2 * n + 1, t);
    }
    if is_nearest(r, sw, size, t) && n > 0 {
        lemma_square_order(2 * n - 1, 2 * r + 1, t);
    }
}

/// Very large step widths scale to large ones.
proof fn lemma_large(sw: int, size: int, t: int, k: int)
    requires
        sw > 0x1_0000,
        size >= 0,
        t > 0,
        k == 2 || k == 4,
        k * k * size > t,
    ensures
        nearest(sw, size, t) >= 16384,
{
    lemma_nearest(sw, size, t, 0);
    let n = nearest(sw, size, t);
    assert(16 * size > t) by (nonlinear_arith)
        requires
            k * k * size > t,
            k == 2 || k == 4,
            size >= 0,
    ;
    let x = 4 * sw * sw * size;
    assert(16 * x > 4 * (sw * sw) * t) by (nonlinear_arith)
        requires
            x == 4 * sw * sw * size,
            16 * size > t,
            sw > 0,
    ;
    if n < 16384 {
        assert((2 * n + 1) * (2 * n + 1) <= 32767 * 32767) by (nonlinear_arith)
            requires
                0 <= n < 16384,
        ;
        let sq = (2 * n + 1) * (2 * n + 1);
        assert(16 * (sq * t) <= 16 * 32767 * 32767 * t) by (nonlinear_arith)
            requires
                sq <= 32767 * 32767,
                t > 0,
        ;
        assert(4 * (sw * sw) * t >= 4 * 0x1_0000 * 0x1_0000 * t) by (nonlinear_arith)
            requires
                sw >= 0x1_0000,
                t > 0,
        ;
        assert(16 * 32767 * 32767 * t <= 4 * 0x1_0000 * 0x1_0000 * t) by (nonlinear_arith)
            requires
                t > 0,
        ;
        assert(false);
    }
}

/// Scale a step width towards a target size.
pub fn scale_step(sw: u32, size: u64, t: u64, k: u32, lo: u32, hi: u32) -> (r: u32)
    requires
        t > 0,
        k == 2 || k == 4,
        lo <= hi <= 16384,
    ensures
        r == scaled_step(sw as int, size as int, t as int, k as int, lo as int, hi as int),
{
    let kk: u128 = if k == 2 {
        4
    } else {
        16
    };
    proof {
        assert(k * k == kk) by (nonlinear_arith)
            requires
                (k == 2 && kk == 4) || (k == 4 && kk == 16),
        ;
        assert(k * k * size == kk * size && k * k * t == kk * t) by (nonlinear_arith)
            requires
                k * k == kk,
        ;
    }
    let v: u64 = if kk * size as u128 <= t as u128 {
        if k == 2 {
            (2 * sw as u64 + 2) / 4
        } else {
            (2 * sw as u64 + 4) / 8
        }
    } else if size as u128 >= kk * t as u128 {
        if k == 2 {
            2 * sw as u64
        } else {
            4 * sw as u64
        }
    } else if sw > 0x1_0000 {
        proof {
            lemma_large(sw as int, size as int, t as int, k as int);
        }
        hi as u64
    } else {
        nearest_below(sw, size, t, hi) as u64
    };
    if v < lo as u64 {
        lo
    } else if v > hi as u64 {
        hi
    } else {
        v as u32
    }
}

/// The integer nearest to `sw * sqrt(size / t)`, but at most `hi`.
fn nearest_below(sw: u32, size: u64, t: u64, hi: u32) -> (r: u32)
    requires
        t > 0,
        sw <= 0x1_0000,
        hi <= 16384,
    ensures
        r == (if nearest(sw as int, size as int, t as int) > hi {
            hi as int
        } else {
            nearest(sw as int, size as int, t as int)
        }),
{
    proof {
        assert(4 * sw * sw <= 4 * 0x1_0000 * 0x1_0000) by (nonlinear_arith)
            requires
                0 <= sw <= 0x1_0000,
        ;
    }
    let sq: u128 = 4 * sw as u128 * sw as u128;
    assert(0 <= sq * size <= 0x4_0000_0000 * size) by (nonlinear_arith)
        requires
            0 <= sq <= 0x4_0000_0000,
            size >= 0,
    ;
    let x: u128 = sq * size as u128;
    let mut r: u32 = 0;
    while r < hi && square_fits(r, t, x)
        invariant
            r <= hi <= 16384,
            t > 0,
            x == 4 * sw * sw * size,
            r == 0 || (2 * r - 1) * (2 * r - 1) * t <= 4 * sw * sw * size,
        decreases hi - r,
    {
        r = r + 1;
        assert(2 * r - 1 == 2 * (r - 1) + 1);
    }
    proof {
        lemma_nearest(sw as int, size as int, t as int, r as int);
    }
    r
}

/// Whether `(2r + 1)^2 * t` is at most `x`.
fn square_fits(r: u32, t: u64, x: u128) -> (b: bool)
    requires
        r <= 16384,
    ensures
        b == ((2 * r + 1) * (2 * r + 1) * t <= x),
{
    let odd: u128 = 2 * r as u128 + 1;
    assert(odd * odd <= 32769 * 32769) by (nonlinear_arith)
        requires
            0 <= odd <= 32769,
    ;
    let sq: u128 = odd * odd;
    assert(sq * t <= 32769 * 32769 * t) by (nonlinear_arith)
        requires
            sq <= 32769 * 32769,
            t >= 0,
    ;
    sq * t as u128 <= x
}

/// Decide on the next try.
pub fn decide(plan: &RatePlan, size: usize) -> (next: Option<RatePlan>)
    ensures
        next == next_plan(*plan, size),
{
    let t: u64 = if plan.target == 0 {
        1
    } else {
        plan.target as u64
    };
    let s: i128 = size as i128;
    let e: i128 = t as i128;
    if plan.stage == 0 {
        if 4 * (s - e) <= e && 4 * (e - s) <= e {
            None
        } else {
            Some(
                RatePlan {
                    target: plan.target,
                    stage: 1,
                    sw1: scale_step(plan.sw1, size as u64, t, 4, 16, 16384),
                    sw2: scale_step(plan.sw2, size as u64, t, 4, 1, 4096),
                },
            )
        }
    } else if plan.stage == 1 {
        if 10 * (s - e) < e && 10 * (e - s) <= e {
            None
        } else {
            Some(RatePlan { target: plan.target, stage: 2, sw1: plan.sw1, sw2: plan.sw2 })
        }
    } else if plan.stage == 2 {
        if 100 * (s - e) <= 15 * e && 100 * (e - s) < 15 * e {
            None
        } else {
            Some(
                RatePlan {
                    target: plan.target,
                    stage: 3,
                    sw1: scale_step(plan.sw1, size as u64, t, 2, 16, 16384),
                    sw2: scale_step(plan.sw2, size as u64, t, 2, 1, 4096),
                },
            )
        }
    } else {
        None
    }
}

/// Whether a candidate replaces the best one so far.
pub fn is_better(size: usize, best: usize, target: usize) -> (b: bool)
    ensures
        b == better(size, best, target),
{
    let fits: bool = size <= target;
    let best_fits: bool = best <= target;
    (fits && !best_fits) || (fits == best_fits && ((fits && size > best) || (!fits && size < best)))
}

/// Rate control makes at most four tries.
pub proof fn law_search_ends(p: RatePlan, size: usize)
    ensures
        next_plan(p, size) matches Some(q) ==> p.stage < q.stage <= 3 && q.target == p.target,
{
}

/// A scaled step width moves with the payload: it does not fall where the payload is above the
/// target, and does not rise where it is below.
proof fn lemma_scaled_direction(sw: int, size: int, t: int, k: int, lo: int, hi: int)
    requires
        sw >= 0,
        size >= 0,
        t > 0,
        k == 2 || k == 4,
        0 <= lo <= hi,
    ensures
        lo <= scaled_step(sw, size, t, k, lo, hi) <= hi,
        size > t ==> scaled_step(sw, size, t, k, lo, hi) >= sw || scaled_step(
            sw,
            size,
            t,
            k,
            lo,
            hi,
        ) == hi,
        size < t ==> scaled_step(sw, size, t, k, lo, hi) <= sw || scaled_step(
            sw,
            size,
            t,
            k,
            lo,
            hi,
        ) == lo,
        size > t ==> k * k * size > t,
        size < t ==> size < k * k * t,
{
    lemma_nearest(sw, size, t, 0);
    let n = nearest(sw, size, t);
    assert(size > t ==> k * k * size > t) by (nonlinear_arith)
        requires
            k == 2 || k == 4,
            size >= 0,
            t > 0,
    ;
    assert(size < t ==> size < k * k * t) by (nonlinear_arith)
        requires
            k == 2 || k == 4,
            size >= 0,
            t > 0,
    ;
    if size > t && sw > 0 {
        assert((2 * sw - 1) * (2 * sw - 1) * t <= 4 * sw * sw * size) by (nonlinear_arith)
            requires
                sw > 0,
                size > t,
                t > 0,
        ;
        lemma_nearest(sw, size, t, sw);
    }
    assert((2 * sw + k) / (2 * k) <= sw) by {
        if k == 2 {
            assert((2 * sw + 2) / 4 <= sw);
        } else {
            assert((2 * sw + 4) / 8 <= sw);
        }
    }
    if size < t && n > sw {
        assert((2 * n - 1) * (2 * n - 1) * t > 4 * sw * sw * size) by (nonlinear_arith)
            requires
                2 * n - 1 >= 2 * sw + 1,
                sw >= 0,
                0 <= size < t,
        ;
    }
}

/// Whether `q` is `sw * sqrt(size / t)`, rounded to an integer, with the square root kept
/// between `1 / k` and `k` and the result between `lo` and `hi`.
pub open spec fn follows_root(
    q: int,
    sw: int,
    size: int,
    t: int,
    k: int,
    lo: int,
    hi: int,
) -> bool {
    &&& lo <= q <= hi
    &&& q > lo && k * k * size > t && size < k * k * t ==> (2 * q - 1) * (2 * q - 1) * t <= 4 * sw
        * sw * size
    &&& q < hi && k * k * size > t && size < k * k * t ==> 4 * sw * sw * size < (2 * q + 1) * (2 * q
        + 1) * t
    &&& q > lo && k * k * size <= t ==> k * (2 * q - 1) <= 2 * sw
    &&& q < hi && k * k * size <= t ==> 2 * sw < k * (2 * q + 1)
    &&& q > lo && size >= k * k * t ==> q <= k * sw
    &&& q < hi && size >= k * k * t ==> q >= k * sw
}

proof fn lemma_scaled_root(sw: int, size: int, t: int, k: int, lo: int, hi: int)
    requires
        sw >= 0,
        size >= 0,
        t > 0,
        k == 2 || k == 4,
        0 <= lo <= hi,
    ensures
        follows_root(scaled_step(sw, size, t, k, lo, hi), sw, size, t, k, lo, hi),
{
    lemma_nearest(sw, size, t, 0);
    let n = nearest(sw, size, t);
    let q = scaled_step(sw, size, t, k, lo, hi);
    assert(!(k * k * size <= t && size >= k * k * t)) by (nonlinear_arith)
        requires
            k == 2 || k == 4,
            size >= 0,
            t > 0,
    ;
    if k * k * size > t && size < k * k * t {
        // A limit only ever lies on the near side of the rounded number.
        if q < n {
            assert((2 * q - 1) * (2 * q - 1) * t <= (2 * n - 1) * (2 * n - 1) * t || q == 0)
                by (nonlinear_arith)
                requires
                    0 <= q < n,
                    t > 0,
            ;
        }
        if q > n {
            assert((2 * n + 1) * (2 * n + 1) * t <= (2 * q + 1) * (2 * q + 1) * t)
                by (nonlinear_arith)
                requires
                    0 <= n < q,
                    t > 0,
            ;
        }
    }
}

/// Of two different payload sizes exactly one is better than the other, and none is better than
/// itself.
pub proof fn law_one_is_better(a: usize, b: usize, target: usize)
    ensures
        better(a, b, target) ==> !better(b, a, target),
        a != b ==> better(a, b, target) || better(b, a, target),
{
}

/// Rate control moves towards its target: another try has coarser step widths where the payload
/// was too large and finer ones where it was too small, up to the limits of 16 to 16384 and 1 to
/// 4096. Where the step widths are chosen anew, they are the old ones times the square root of
/// size over target, which is kept within a factor of four at first and of two later.
pub proof fn law_steps_follow_size(p: RatePlan, size: usize)
    requires
        next_plan(p, size) is Some,
    ensures
        ({
            let q = next_plan(p, size)->0;
            let t: int = if p.target > 0 {
                p.target as int
            } else {
                1
            };
            &&& size > t ==> (q.sw1 >= p.sw1 || q.sw1 == 16384) && (q.sw2 >= p.sw2 || q.sw2 == 4096)
            &&& size < t ==> (q.sw1 <= p.sw1 || q.sw1 == 16) && (q.sw2 <= p.sw2 || q.sw2 == 1)
            &&& p.stage == 1 ==> q.sw1 == p.sw1 && q.sw2 == p.sw2
            &&& p.stage != 1 ==> {
                let k: int = if p.stage == 0 {
                    4
                } else {
                    2
                };
                &&& follows_root(q.sw1 as int, p.sw1 as int, size as int, t, k, 16, 16384)
                &&& follows_root(q.sw2 as int, p.sw2 as int, size as int, t, k, 1, 4096)
            }
        }),
{
    let t: int = if p.target > 0 {
        p.target as int
    } else {
        1
    };
    let k: int = if p.stage == 0 {
        4
    } else {
        2
    };
    lemma_scaled_direction(p.sw1 as int, size as int, t, k, 16, 16384);
    lemma_scaled_direction(p.sw2 as int, size as int, t, k, 1, 4096);
    lemma_scaled_root(p.sw1 as int, size as int, t, k, 16, 16384);
    lemma_scaled_root(p.sw2 as int, size as int, t, k, 1, 4096);
}

/// Rate control stops where the payload is near the target, and only there or after its last
/// try: at a distance of a quarter of the target at first, then of a tenth, then of 15 percent.
pub proof fn law_stops_near_target(p: RatePlan, size: usize)
    ensures
        ({
            let t: int = if p.target > 0 {
                p.target as int
            } else {
                1
            };
            let d: int = if size > t {
                size - t
            } else {
                t - size
            };
            let percent: int = if p.stage == 0 {
                25
            } else if p.stage == 1 {
                10
            } else {
                15
            };
            if p.stage >= 3 {
                next_plan(p, size) is None
            } else {
                &&& 100 * d < percent * t ==> next_plan(p, size) is None
                &&& 100 * d > percent * t ==> next_plan(p, size) is Some
            }
        }),
{
}

/// The candidate that is kept is no worse than one that is not: it fits where the other fits, it
/// is then at least as large, and where none fits it is at least as small.
pub proof fn law_best_kept(kept: usize, other: usize, target: usize)
    requires
        !better(other, kept, target),
    ensures
        other <= target ==> kept <= target && kept >= other,
        other > target && kept > target ==> kept <= other,
{
}

} // verus!
