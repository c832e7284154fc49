//! Integer geometry: squared Euclidean distance, per-axis distance bounds,
//! and ceiling division — the facts the grid-window visibility scan rests
//! on.

use vstd::prelude::*;

verus! {

/// Squared Euclidean distance between two points.
pub open spec fn dist2(ax: int, ay: int, bx: int, by: int) -> int {
    (ax - bx) * (ax - bx) + (ay - by) * (ay - by)
}

/// A point `b` is within `r` of `a` when the squared distance is at most `r * r`.
pub open spec fn in_range(ax: int, ay: int, bx: int, by: int, r: int) -> bool {
    dist2(ax, ay, bx, by) <= r * r
}

/// Absolute difference of two integers.
pub open spec fn abs_diff(a: int, b: int) -> int {
    if a >= b {
        a - b
    } else {
        b - a
    }
}

/// If the squared distance is within `r * r`, each coordinate differs by at
/// most `r`: the Euclidean disc lies inside the axis-aligned square.
pub proof fn lemma_in_range_bounds_axes(ax: int, ay: int, bx: int, by: int, r: int)
    requires
        r >= 0,
        in_range(ax, ay, bx, by, r),
    ensures
        abs_diff(ax, bx) <= r,
        abs_diff(ay, by) <= r,
{
    assert(abs_diff(ax, bx) <= r && abs_diff(ay, by) <= r) by (nonlinear_arith)
        requires
            r >= 0,
            (ax - bx) * (ax - bx) + (ay - by) * (ay - by) <= r * r,
    ;
}

/// Squared distance, computed exactly in wide integers.
pub fn dist2_exec(ax: u32, ay: u32, bx: u32, by: u32) -> (d: i128)
    ensures
        d == dist2(ax as int, ay as int, bx as int, by as int),
{
    let dx: i128 = ax as i128 - bx as i128;
    let dy: i128 = ay as i128 - by as i128;
    proof {
        assert(dx * dx + dy * dy <= i128::MAX && dx * dx >= 0 && dy * dy >= 0) by (nonlinear_arith)
            requires
                -0x1_0000_0000 < dx < 0x1_0000_0000,
                -0x1_0000_0000 < dy < 0x1_0000_0000,
        ;
    }
    dx * dx + dy * dy
}

/// Whether `b` lies within range `r` of `a`, by exact integer arithmetic.
pub fn in_range_exec(ax: u32, ay: u32, bx: u32, by: u32, r: u32) -> (res: bool)
    ensures
        res == in_range(ax as int, ay as int, bx as int, by as int, r as int),
{
    let d: i128 = dist2_exec(ax, ay, bx, by);
    let rr: i128 = r as i128;
    proof {
        assert(0 <= rr * rr <= i128::MAX) by (nonlinear_arith)
            requires
                0 <= rr < 0x1_0000_0000,
        ;
    }
    d <= rr * rr
}

/// Ceiling division: the least `r` with `r * d >= n`.
pub open spec fn div_ceil_spec(n: int, d: int) -> int
    recommends
        d > 0,
{
    (n + d - 1) / d
}

/// The number of cells of size `d` needed to cover a span of `n` world units.
pub fn div_ceil(n: u32, d: u32) -> (r: u32)
    requires
        d > 0,
    ensures
        r == div_ceil_spec(n as int, d as int),
        n == 0 ==> r == 0,
        n >= 1 ==> r >= 1,
        r * d >= n,
{
    let wide: u64 = (n as u64 + d as u64 - 1) / d as u64;
    proof {
        lemma_div_ceil_bounds(n as int, d as int);
    }
    wide as u32
}

/// Bounds on the ceiling-division formula.
pub proof fn lemma_div_ceil_bounds(n: int, d: int)
    requires
        n >= 0,
        d > 0,
    ensures
        n == 0 ==> div_ceil_spec(n, d) == 0,
        n >= 1 ==> 1 <= div_ceil_spec(n, d) <= n,
        div_ceil_spec(n, d) * d >= n,
        div_ceil_spec(n, d) >= 0,
{
    assert((n + d - 1) / d * d >= n && (n + d - 1) / d >= 0 && (n == 0 ==> (n + d - 1) / d == 0)
        && (n >= 1 ==> 1 <= (n + d - 1) / d <= n)) by (nonlinear_arith)
        requires
            n >= 0,
            d > 0,
    ;
}

} // verus!
