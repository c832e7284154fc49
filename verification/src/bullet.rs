//! The bullet unit kind: a projectile spawned by a tank. Only its role as a
//! unit is modeled here: an identifier, the firing tank, and a motion state.
//! Bullets have no view.

use vstd::prelude::*;

use crate::position::Position;

verus! {

/// One bullet in flight.
pub struct Bullet {
    id: u32,
    tank_id: u32,
    speed: u32,
    position: Position,
    destroyed: bool,
}

impl Bullet {
    /// The unique identifier.
    pub closed spec fn spec_id(self) -> u32 {
        self.id
    }

    /// The identifier of the tank that fired the bullet.
    pub closed spec fn spec_tank_id(self) -> u32 {
        self.tank_id
    }

    /// The travel speed.
    pub closed spec fn spec_speed(self) -> int {
        self.speed as int
    }

    /// The motion state.
    pub closed spec fn spec_pos(self) -> Position {
        self.position
    }

    /// Whether the bullet has been destroyed.
    pub closed spec fn spec_destroyed(self) -> bool {
        self.destroyed
    }

    /// A fresh bullet standing at `(x, y)`, fired by tank `tank_id`.
    pub fn new(id: u32, x: u32, y: u32, tank_id: u32, speed: u32) -> (b: Bullet)
        ensures
            b.spec_id() == id,
            b.spec_tank_id() == tank_id,
            b.spec_speed() == speed,
            b.spec_pos().spec_x() == x,
            b.spec_pos().spec_y() == y,
            !b.spec_pos().is_moving(),
            !b.spec_destroyed(),
    {
        Bullet { id, tank_id, speed, position: Position::new(x, y), destroyed: false }
    }

    /// The unique identifier.
    pub fn id(&self) -> (r: u32)
        ensures
            r == self.spec_id(),
    {
        self.id
    }

    /// The identifier of the tank that fired the bullet.
    pub fn tank_id(&self) -> (r: u32)
        ensures
            r == self.spec_tank_id(),
    {
        self.tank_id
    }

    /// The current coordinates, as of the last update.
    pub fn position(&self) -> (r: (u32, u32))
        ensures
            r.0 == self.spec_pos().spec_x(),
            r.1 == self.spec_pos().spec_y(),
    {
        (self.position.x(), self.position.y())
    }

    /// Orders travel toward `(x, y)` at the bullet's speed, starting `now`.
    pub fn move_to(&mut self, x: u32, y: u32, now: u64)
        ensures
            final(self).spec_id() == old(self).spec_id(),
            final(self).spec_tank_id() == old(self).spec_tank_id(),
            final(self).spec_speed() == old(self).spec_speed(),
            final(self).spec_destroyed() == old(self).spec_destroyed(),
            final(self).spec_pos().spec_x() == old(self).spec_pos().spec_x(),
            final(self).spec_pos().spec_y() == old(self).spec_pos().spec_y(),
            final(self).spec_pos().is_moving(),
            final(self).spec_pos().spec_target() == (crate::position::Target {
                sx: old(self).spec_pos().spec_x() as u32,
                sy: old(self).spec_pos().spec_y() as u32,
                x2: x,
                y2: y,
                start: now,
                speed: old(self).spec_speed() as u32,
            }),
    {
        self.position.move_to(x, y, self.speed, now);
    }

    /// Advances the position to `now`; a destroyed bullet no longer moves.
    /// Reports whether the position may have changed.
    pub fn update(&mut self, now: u64) -> (moved: bool)
        ensures
            final(self).spec_id() == old(self).spec_id(),
            final(self).spec_tank_id() == old(self).spec_tank_id(),
            final(self).spec_speed() == old(self).spec_speed(),
            final(self).spec_destroyed() == old(self).spec_destroyed(),
            moved == (!old(self).spec_destroyed() && old(self).spec_pos().is_moving()),
            !moved ==> final(self).spec_pos() == old(self).spec_pos(),
            moved ==> (forall|d: int|
                #[trigger] crate::position::is_sqrt_floor(
                    Position::travel_dist2(old(self).spec_pos().spec_target()),
                    d,
                ) ==> Position::updated_state(
                    old(self).spec_pos().spec_target(),
                    now,
                    d,
                    final(self).spec_pos(),
                )),
    {
        if self.destroyed {
            false
        } else {
            self.position.update(now)
        }
    }

    /// Marks the bullet destroyed.
    pub fn destroy(&mut self)
        ensures
            final(self).spec_id() == old(self).spec_id(),
            final(self).spec_tank_id() == old(self).spec_tank_id(),
            final(self).spec_speed() == old(self).spec_speed(),
            final(self).spec_pos() == old(self).spec_pos(),
            final(self).spec_destroyed(),
    {
        self.destroyed = true;
    }

    /// Whether the bullet has been destroyed.
    pub fn is_destroyed(&self) -> (r: bool)
        ensures
            r == self.spec_destroyed(),
    {
        self.destroyed
    }
}

} // verus!
