//! The closed set of unit kinds, as a tagged union. The map is kind-agnostic:
//! it reads identifier, position and view through the accessors here, and the
//! few kind-specific behaviors are dispatched by a single `match`.

use vstd::prelude::*;

use crate::bullet::Bullet;
use crate::position::Position;
use crate::tank::Tank;
use crate::view::UnitView;

verus! {

/// One unit of any kind.
pub enum Unit {
    Tank(Tank),
    Bullet(Bullet),
}

impl Unit {
    /// The unique identifier.
    pub open spec fn spec_id(self) -> u32 {
        match self {
            Unit::Tank(t) => t.spec_id(),
            Unit::Bullet(b) => b.spec_id(),
        }
    }

    /// The motion state.
    pub open spec fn spec_pos(self) -> Position {
        match self {
            Unit::Tank(t) => t.spec_pos(),
            Unit::Bullet(b) => b.spec_pos(),
        }
    }

    /// Whether the unit has been destroyed.
    pub open spec fn spec_destroyed(self) -> bool {
        match self {
            Unit::Tank(t) => t.spec_destroyed(),
            Unit::Bullet(b) => b.spec_destroyed(),
        }
    }

    /// Whether the unit observes its surroundings at all.
    pub open spec fn has_view(self) -> bool {
        self is Tank
    }

    /// The view of an observing unit.
    pub open spec fn spec_view(self) -> UnitView
        recommends
            self.has_view(),
    {
        self->Tank_0.spec_view()
    }

    /// The view range of an observing unit.
    pub open spec fn spec_range(self) -> int
        recommends
            self.has_view(),
    {
        self.spec_view().spec_range()
    }

    /// The unit's own travel speed, as its configuration fixes it.
    pub open spec fn spec_speed(self) -> int {
        match self {
            Unit::Tank(t) => t.spec_cfg().speed as int,
            Unit::Bullet(b) => b.spec_speed(),
        }
    }

    /// Whether this unit currently sees `other`.
    pub open spec fn sees(self, other: u32) -> bool {
        self.has_view() && self.spec_view().sees(other)
    }

    /// The visible set holds no duplicates.
    pub open spec fn view_wf(self) -> bool {
        self.has_view() ==> self.spec_view().wf()
    }

    /// Identifier, kind and configuration are unchanged between `a` and `b`.
    pub open spec fn same_skeleton(a: Unit, b: Unit) -> bool {
        &&& b.spec_id() == a.spec_id()
        &&& b.has_view() == a.has_view()
        &&& (a.has_view() ==> b.spec_range() == a.spec_range())
        &&& (a is Tank <==> b is Tank)
        &&& (a is Tank ==> b->Tank_0.spec_cfg() == a->Tank_0.spec_cfg())
        &&& (a is Bullet ==> b->Bullet_0.spec_tank_id() == a->Bullet_0.spec_tank_id()
            && b->Bullet_0.spec_speed() == a->Bullet_0.spec_speed())
    }

    /// Everything but the motion state is unchanged between `a` and `b`.
    pub open spec fn same_but_pos(a: Unit, b: Unit) -> bool {
        &&& Unit::same_skeleton(a, b)
        &&& b.spec_destroyed() == a.spec_destroyed()
        &&& (a.has_view() ==> b.spec_view() == a.spec_view())
    }

    /// Everything but the visible set is unchanged between `a` and `b`.
    pub open spec fn same_but_visible(a: Unit, b: Unit) -> bool {
        &&& Unit::same_skeleton(a, b)
        &&& b.spec_destroyed() == a.spec_destroyed()
        &&& b.spec_pos() == a.spec_pos()
    }

    /// The unique identifier.
    pub fn id(&self) -> (r: u32)
        ensures
            r == self.spec_id(),
    {
        match self {
            Unit::Tank(t) => t.id(),
            Unit::Bullet(b) => b.id(),
        }
    }

    /// The current coordinates, as of the last update.
    pub fn position(&self) -> (r: (u32, u32))
        ensures
            r.0 == self.spec_pos().spec_x(),
            r.1 == self.spec_pos().spec_y(),
    {
        match self {
            Unit::Tank(t) => t.position(),
            Unit::Bullet(b) => b.position(),
        }
    }

    /// The view of an observing unit, if it has one.
    pub fn view(&self) -> (r: Option<&UnitView>)
        ensures
            r is Some <==> self.has_view(),
            r is Some ==> *r->0 == self.spec_view(),
    {
        match self {
            Unit::Tank(t) => Some(t.view()),
            Unit::Bullet(_) => None,
        }
    }

    /// The view range of an observing unit, if it has one.
    pub fn range(&self) -> (r: Option<u32>)
        ensures
            r is Some <==> self.has_view(),
            r is Some ==> r->0 == self.spec_range(),
    {
        match self {
            Unit::Tank(t) => Some(t.view().range()),
            Unit::Bullet(_) => None,
        }
    }

    /// Whether the unit has been destroyed.
    pub fn is_destroyed(&self) -> (r: bool)
        ensures
            r == self.spec_destroyed(),
    {
        match self {
            Unit::Tank(t) => t.is_destroyed(),
            Unit::Bullet(b) => b.is_destroyed(),
        }
    }

    /// Marks the unit destroyed.
    pub fn destroy(&mut self)
        ensures
            Unit::same_skeleton(*old(self), *final(self)),
            final(self).spec_pos() == old(self).spec_pos(),
            final(self).spec_destroyed(),
            old(self).has_view() ==> final(self).spec_view() == old(self).spec_view(),
    {
        match self {
            Unit::Tank(t) => t.destroy(),
            Unit::Bullet(b) => b.destroy(),
        }
    }

    /// Orders travel toward `(x, y)` at the unit's own speed, starting at
    /// `now`. The current position is unchanged until the next update.
    pub fn order_move(&mut self, x: u32, y: u32, now: u64)
        ensures
            Unit::same_but_pos(*old(self), *final(self)),
            final(self).spec_speed() == old(self).spec_speed(),
            final(self).spec_pos().spec_x() == old(self).spec_pos().spec_x(),
            final(self).spec_pos().spec_y() == old(self).spec_pos().spec_y(),
            final(self).spec_pos().is_moving(),
            final(self).spec_pos().spec_target() == (crate::position::Target {
                sx: old(self).spec_pos().spec_x() as u32,
                sy: old(self).spec_pos().spec_y() as u32,
                x2: x,
                y2: y,
                start: now,
                speed: old(self).spec_speed() as u32,
            }),
    {
        match self {
            Unit::Tank(t) => t.move_to(x, y, now),
            Unit::Bullet(b) => b.move_to(x, y, now),
        }
    }

    /// Advances the position to `now`; reports whether it may have changed.
    pub fn update(&mut self, now: u64) -> (moved: bool)
        ensures
            Unit::same_but_pos(*old(self), *final(self)),
            moved == (!old(self).spec_destroyed() && old(self).spec_pos().is_moving()),
            !moved ==> final(self).spec_pos() == old(self).spec_pos(),
            moved ==> (forall|d: int|
                #[trigger] crate::position::is_sqrt_floor(
                    Position::travel_dist2(old(self).spec_pos().spec_target()),
                    d,
                ) ==> Position::updated_state(
                    old(self).spec_pos().spec_target(),
                    now,
                    d,
                    final(self).spec_pos(),
                )),
    {
        match self {
            Unit::Tank(t) => t.update(now),
            Unit::Bullet(b) => b.update(now),
        }
    }

    /// Lets the unit see `other`; the map's visibility pass is the only
    /// caller. Viewless units ignore the call.
    pub(crate) fn view_enter(&mut self, other: u32) -> (added: bool)
        requires
            old(self).view_wf(),
        ensures
            Unit::same_but_visible(*old(self), *final(self)),
            final(self).view_wf(),
            added == (old(self).has_view() && !old(self).sees(other)),
            forall|x: u32| final(self).sees(x) <==> (old(self).sees(x) || (old(self).has_view()
                && x == other)),
    {
        match self {
            Unit::Tank(t) => t.view_insert(other),
            Unit::Bullet(_) => false,
        }
    }

    /// Takes `other` out of the unit's sight; the map's visibility pass is
    /// the only caller. Viewless units ignore the call.
    pub(crate) fn view_leave(&mut self, other: u32) -> (removed: bool)
        requires
            old(self).view_wf(),
        ensures
            Unit::same_but_visible(*old(self), *final(self)),
            final(self).view_wf(),
            removed == old(self).sees(other),
            forall|x: u32| final(self).sees(x) <==> (old(self).sees(x) && x != other),
    {
        match self {
            Unit::Tank(t) => t.view_remove(other),
            Unit::Bullet(_) => false,
        }
    }
}

} // verus!
