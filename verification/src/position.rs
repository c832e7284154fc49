//! Time-parameterized motion state of one unit: a current point, and an
//! optional in-flight target toward which the point advances linearly.
//!
//! All geometry is exact integer arithmetic: distances are floored Euclidean
//! lengths, and the interpolated point at a query time is the floored linear
//! blend between the start point and the target. A traveling position is
//! advanced only by [`Position::update`]; the accessors return the point as
//! of the last update, never re-interpolating on read.

use vstd::prelude::*;

use crate::geom::dist2;

verus! {

/// An in-flight travel order: from `(sx, sy)` toward `(x2, y2)`, started at
/// `start`, covering `speed` world units per time unit.
#[derive(Clone, Copy)]
pub struct Target {
    pub sx: u32,
    pub sy: u32,
    pub x2: u32,
    pub y2: u32,
    pub start: u64,
    pub speed: u32,
}

/// Motion state of one unit.
#[derive(Clone, Copy)]
pub struct Position {
    x: u32,
    y: u32,
    target: Option<Target>,
}

/// `r` is the floored square root of `n`.
pub open spec fn is_sqrt_floor(n: int, r: int) -> bool {
    0 <= r && r * r <= n && n < (r + 1) * (r + 1)
}

/// Floored linear blend: the point `num/den` of the way from `s` to `t`.
pub open spec fn lerp(s: int, t: int, num: int, den: int) -> int
    recommends
        den > 0,
        0 <= num <= den,
{
    if t >= s {
        s + (t - s) * num / den
    } else {
        s - (s - t) * num / den
    }
}

/// Time elapsed since `start`, zero for queries before the start instant.
pub open spec fn elapsed_of(start: u64, now: u64) -> int {
    if now >= start {
        now - start
    } else {
        0
    }
}

/// Floored square root, by binary search.
pub fn isqrt(n: u128) -> (r: u64)
    ensures
        is_sqrt_floor(n as int, r as int),
{
    let mut lo: u128 = 0;
    let mut hi: u128 = 0x1_0000_0000_0000_0000;
    proof {
        assert(hi * hi > n) by (nonlinear_arith)
            requires
                hi == 0x1_0000_0000_0000_0000u128 as int,
                n < 0x1_0000_0000_0000_0000_0000_0000_0000_0000,
        ;
    }
    while lo + 1 < hi
        invariant
            0 <= lo < hi <= 0x1_0000_0000_0000_0000,
            lo * lo <= n,
            hi * hi > n,
        decreases hi - lo,
    {
        let mid: u128 = lo + (hi - lo) / 2;
        proof {
            assert(mid * mid < 0x1_0000_0000_0000_0000_0000_0000_0000_0000) by (nonlinear_arith)
                requires
                    0 <= mid < 0x1_0000_0000_0000_0000,
            ;
        }
        if mid * mid <= n {
            lo = mid;
        } else {
            hi = mid;
        }
    }
    lo as u64
}

impl Position {
    /// Current x coordinate, as of the last update.
    pub closed spec fn spec_x(self) -> int {
        self.x as int
    }

    /// Current y coordinate, as of the last update.
    pub closed spec fn spec_y(self) -> int {
        self.y as int
    }

    /// Whether a travel target is active.
    pub closed spec fn is_moving(self) -> bool {
        self.target is Some
    }

    /// The active travel order.
    pub closed spec fn spec_target(self) -> Target
        recommends
            self.is_moving(),
    {
        self.target->0
    }

    /// A static position at `(x, y)` with no target.
    pub fn new(x: u32, y: u32) -> (p: Position)
        ensures
            p.spec_x() == x,
            p.spec_y() == y,
            !p.is_moving(),
    {
        Position { x, y, target: None }
    }

    /// Current x coordinate, as of the last update.
    pub fn x(&self) -> (r: u32)
        ensures
            r == self.spec_x(),
    {
        self.x
    }

    /// Current y coordinate, as of the last update.
    pub fn y(&self) -> (r: u32)
        ensures
            r == self.spec_y(),
    {
        self.y
    }

    /// Orders travel from the current point toward `(x, y)` at `speed` world
    /// units per time unit, starting at `now`.
    ///
    /// A zero speed is accepted: the position then reports itself as moving
    /// on every update but never advances nor arrives.
    pub fn move_to(&mut self, x: u32, y: u32, speed: u32, now: u64)
        ensures
            final(self).spec_x() == old(self).spec_x(),
            final(self).spec_y() == old(self).spec_y(),
            final(self).is_moving(),
            final(self).spec_target() == (Target {
                sx: old(self).spec_x() as u32,
                sy: old(self).spec_y() as u32,
                x2: x,
                y2: y,
                start: now,
                speed,
            }),
    {
        self.target = Some(
            Target { sx: self.x, sy: self.y, x2: x, y2: y, start: now, speed },
        );
    }

    /// The squared length of the active travel segment.
    pub open spec fn travel_dist2(t: Target) -> int {
        dist2(t.sx as int, t.sy as int, t.x2 as int, t.y2 as int)
    }

    /// Distance covered since the start of the travel order.
    pub open spec fn traveled(t: Target, now: u64) -> int {
        elapsed_of(t.start, now) * t.speed
    }

    /// The state an updating position reaches at time `now`, given that `d`
    /// is the floored length of the travel segment of the order `t`: snapped
    /// to the target once the covered distance reaches `d`, else the floored
    /// linear blend along the segment with the order still active.
    pub open spec fn updated_state(t: Target, now: u64, d: int, p: Position) -> bool {
        if Self::traveled(t, now) >= d {
            p.spec_x() == t.x2 && p.spec_y() == t.y2 && !p.is_moving()
        } else {
            p.spec_x() == lerp(t.sx as int, t.x2 as int, Self::traveled(t, now), d) && p.spec_y()
                == lerp(t.sy as int, t.y2 as int, Self::traveled(t, now), d) && p.is_moving()
                && p.spec_target() == t
        }
    }

    /// How a position advanced to time `now` relates to what it was: kept
    /// as it was when no order was active, else determined by the floored
    /// length of the travel segment.
    pub open spec fn advanced_to(before: Position, now: u64, after: Position) -> bool {
        if before.is_moving() {
            forall|d: int|
                #[trigger] is_sqrt_floor(Self::travel_dist2(before.spec_target()), d)
                    ==> Self::updated_state(before.spec_target(), now, d, after)
        } else {
            after == before
        }
    }

    /// Advances the position to time `now`.
    ///
    /// Returns false, changing nothing, when no target is active. Otherwise
    /// returns true; if the distance covered has reached the floored length
    /// of the travel segment the position snaps to the target and the order
    /// is cleared, else the position becomes the floored linear blend along
    /// the segment and the order stays active.
    pub fn update(&mut self, now: u64) -> (moved: bool)
        ensures
            moved == old(self).is_moving(),
            !old(self).is_moving() ==> *final(self) == *old(self),
            old(self).is_moving() ==> (forall|d: int|
                #[trigger] is_sqrt_floor(Self::travel_dist2(old(self).spec_target()), d)
                    ==> Self::updated_state(old(self).spec_target(), now, d, *final(self))),
    {
        match self.target {
            None => false,
            Some(t) => {
                let elapsed: u64 = if now >= t.start {
                    now - t.start
                } else {
                    0
                };
                proof {
                    assert(elapsed * t.speed < 0x1_0000_0000_0000_0000_0000_0000_0000_0000)
                        by (nonlinear_arith)
                        requires
                            0 <= elapsed < 0x1_0000_0000_0000_0000,
                            0 <= t.speed < 0x1_0000_0000,
                    ;
                }
                let trav: u128 = elapsed as u128 * t.speed as u128;
                let dx: u128 = if t.x2 >= t.sx {
                    (t.x2 - t.sx) as u128
                } else {
                    (t.sx - t.x2) as u128
                };
                let dy: u128 = if t.y2 >= t.sy {
                    (t.y2 - t.sy) as u128
                } else {
                    (t.sy - t.y2) as u128
                };
                proof {
                    assert(dx * dx + dy * dy == Self::travel_dist2(t) && Self::travel_dist2(t)
                        < 0x1_0000_0000_0000_0000_0000_0000_0000_0000) by (nonlinear_arith)
                        requires
                            dx == abs_int(t.x2 as int - t.sx as int),
                            dy == abs_int(t.y2 as int - t.sy as int),
                            0 <= dx < 0x1_0000_0000,
                            0 <= dy < 0x1_0000_0000,
                            Self::travel_dist2(t) == (t.sx - t.x2) * (t.sx - t.x2) + (t.sy - t.y2)
                                * (t.sy - t.y2),
                    ;
                }
                let dist: u64 = isqrt(dx * dx + dy * dy);
                proof {
                    assert forall|d: int| #[trigger] is_sqrt_floor(
                        Self::travel_dist2(t),
                        d,
                    ) implies d == dist as int by {
                        lemma_sqrt_floor_unique(Self::travel_dist2(t), d, dist as int);
                    }
                }
                if trav >= dist as u128 {
                    self.x = t.x2;
                    self.y = t.y2;
                    self.target = None;
                } else {
                    let nx: u32 = Self::blend(t.sx, t.x2, trav, dist as u128);
                    let ny: u32 = Self::blend(t.sy, t.y2, trav, dist as u128);
                    self.x = nx;
                    self.y = ny;
                }
                true
            },
        }
    }

    /// The floored linear blend of one axis, `num/den` of the way from `s`
    /// toward `t`.
    fn blend(s: u32, t: u32, num: u128, den: u128) -> (r: u32)
        requires
            0 <= num < den,
            den < 0x1_0000_0000_0000_0000,
        ensures
            r == lerp(s as int, t as int, num as int, den as int),
    {
        let span: u128 = if t >= s {
            (t - s) as u128
        } else {
            (s - t) as u128
        };
        proof {
            lemma_blend_bounds(span as int, num as int, den as int);
            assert(span * num < 0x1_0000_0000_0000_0000_0000_0000_0000_0000) by (nonlinear_arith)
                requires
                    0 <= span < 0x1_0000_0000,
                    0 <= num < 0x1_0000_0000_0000_0000,
            ;
        }
        if t >= s {
            s + (span * num / den) as u32
        } else {
            s - (span * num / den) as u32
        }
    }
}

/// The floored square root of a number is unique.
pub proof fn lemma_sqrt_floor_unique(n: int, r1: int, r2: int)
    requires
        is_sqrt_floor(n, r1),
        is_sqrt_floor(n, r2),
    ensures
        r1 == r2,
{
    assert(r1 == r2) by (nonlinear_arith)
        requires
            0 <= r1 && r1 * r1 <= n && n < (r1 + 1) * (r1 + 1),
            0 <= r2 && r2 * r2 <= n && n < (r2 + 1) * (r2 + 1),
    ;
}

/// Absolute value of an integer.
pub open spec fn abs_int(a: int) -> int {
    if a >= 0 {
        a
    } else {
        -a
    }
}

/// A partial advance along a span never overshoots the span itself.
proof fn lemma_blend_bounds(span: int, num: int, den: int)
    requires
        span >= 0,
        0 <= num < den,
    ensures
        0 <= span * num / den <= span,
        span * num >= 0,
{
    assert(0 <= span * num / den <= span && span * num >= 0) by (nonlinear_arith)
        requires
            span >= 0,
            0 <= num < den,
    ;
}

} // verus!
