//! The tank unit kind: an identifier, a configuration, a motion state, a
//! destroyed flag and a view.

use vstd::prelude::*;

use crate::bullet::Bullet;
use crate::position::Position;
use crate::view::UnitView;

verus! {

/// Configuration of one tank kind: travel speed, view range, and the speed
/// of the bullets it fires.
#[derive(Clone, Copy)]
pub struct TankCfg {
    pub speed: u32,
    pub range: u32,
    pub bullet_speed: u32,
}

/// The configurations of all tank kinds.
pub struct TankCfgs {
    pub list: Vec<TankCfg>,
}

/// One tank.
pub struct Tank {
    id: u32,
    cfg: TankCfg,
    position: Position,
    destroyed: bool,
    view: UnitView,
}

impl Tank {
    /// The unique identifier.
    pub closed spec fn spec_id(self) -> u32 {
        self.id
    }

    /// The configuration.
    pub closed spec fn spec_cfg(self) -> TankCfg {
        self.cfg
    }

    /// The motion state.
    pub closed spec fn spec_pos(self) -> Position {
        self.position
    }

    /// Whether the tank has been destroyed.
    pub closed spec fn spec_destroyed(self) -> bool {
        self.destroyed
    }

    /// The view.
    pub closed spec fn spec_view(self) -> UnitView {
        self.view
    }

    /// A fresh tank standing at `(x, y)`, seeing nothing yet.
    pub fn new(id: u32, cfg: TankCfg, x: u32, y: u32) -> (t: Tank)
        ensures
            t.spec_id() == id,
            t.spec_cfg() == cfg,
            t.spec_pos().spec_x() == x,
            t.spec_pos().spec_y() == y,
            !t.spec_pos().is_moving(),
            !t.spec_destroyed(),
            t.spec_view().spec_range() == cfg.range,
            t.spec_view().visible_seq() == Seq::<u32>::empty(),
            t.spec_view().wf(),
    {
        Tank {
            id,
            cfg,
            position: Position::new(x, y),
            destroyed: false,
            view: UnitView::new(cfg.range),
        }
    }

    /// The unique identifier.
    pub fn id(&self) -> (r: u32)
        ensures
            r == self.spec_id(),
    {
        self.id
    }

    /// The kind name.
    pub fn name(&self) -> (r: &'static str)
        ensures
            r@ == "crazy tank"@,
    {
        "crazy tank"
    }

    /// The current coordinates, as of the last update.
    pub fn position(&self) -> (r: (u32, u32))
        ensures
            r.0 == self.spec_pos().spec_x(),
            r.1 == self.spec_pos().spec_y(),
    {
        (self.position.x(), self.position.y())
    }

    /// Read access to the view.
    pub fn view(&self) -> (r: &UnitView)
        ensures
            *r == self.spec_view(),
    {
        &self.view
    }

    /// Orders travel toward `(x, y)` at the configured speed, starting `now`.
    pub fn move_to(&mut self, x: u32, y: u32, now: u64)
        ensures
            final(self).spec_id() == old(self).spec_id(),
            final(self).spec_cfg() == old(self).spec_cfg(),
            final(self).spec_destroyed() == old(self).spec_destroyed(),
            final(self).spec_view() == old(self).spec_view(),
            final(self).spec_pos().spec_x() == old(self).spec_pos().spec_x(),
            final(self).spec_pos().spec_y() == old(self).spec_pos().spec_y(),
            final(self).spec_pos().is_moving(),
            final(self).spec_pos().spec_target() == (crate::position::Target {
                sx: old(self).spec_pos().spec_x() as u32,
                sy: old(self).spec_pos().spec_y() as u32,
                x2: x,
                y2: y,
                start: now,
                speed: old(self).spec_cfg().speed,
            }),
    {
        self.position.move_to(x, y, self.cfg.speed, now);
    }

    /// Advances the position to `now`; a destroyed tank no longer moves.
    /// Reports whether the position may have changed.
    pub fn update(&mut self, now: u64) -> (moved: bool)
        ensures
            final(self).spec_id() == old(self).spec_id(),
            final(self).spec_cfg() == old(self).spec_cfg(),
            final(self).spec_destroyed() == old(self).spec_destroyed(),
            final(self).spec_view() == old(self).spec_view(),
            moved == (!old(self).spec_destroyed() && old(self).spec_pos().is_moving()),
            !moved ==> final(self).spec_pos() == old(self).spec_pos(),
            moved ==> (forall|d: int|
                #[trigger] crate::position::is_sqrt_floor(
                    Position::travel_dist2(old(self).spec_pos().spec_target()),
                    d,
                ) ==> Position::updated_state(
                    old(self).spec_pos().spec_target(),
                    now,
                    d,
                    final(self).spec_pos(),
                )),
    {
        if self.destroyed {
            false
        } else {
            self.position.update(now)
        }
    }

    /// Spawns a bullet with identifier `id` at the tank's current position.
    pub fn fire(&self, id: u32) -> (b: Bullet)
        ensures
            b.spec_id() == id,
            b.spec_tank_id() == self.spec_id(),
            b.spec_speed() == self.spec_cfg().bullet_speed,
            b.spec_pos().spec_x() == self.spec_pos().spec_x(),
            b.spec_pos().spec_y() == self.spec_pos().spec_y(),
            !b.spec_pos().is_moving(),
            !b.spec_destroyed(),
    {
        Bullet::new(id, self.position.x(), self.position.y(), self.id, self.cfg.bullet_speed)
    }

    /// Whether `bullet` may destroy this tank: tanks are immune to their own
    /// bullets.
    pub fn can_be_destroyed(&self, bullet: &Bullet) -> (r: bool)
        ensures
            r == (self.spec_id() != bullet.spec_tank_id()),
    {
        self.id != bullet.tank_id()
    }

    /// Marks the tank destroyed.
    pub fn destroy(&mut self)
        ensures
            final(self).spec_id() == old(self).spec_id(),
            final(self).spec_cfg() == old(self).spec_cfg(),
            final(self).spec_pos() == old(self).spec_pos(),
            final(self).spec_view() == old(self).spec_view(),
            final(self).spec_destroyed(),
    {
        self.destroyed = true;
    }

    /// Whether the tank has been destroyed.
    pub fn is_destroyed(&self) -> (r: bool)
        ensures
            r == self.spec_destroyed(),
    {
        self.destroyed
    }

    /// Grants `other` to the visible set; the map's visibility pass is the
    /// only caller.
    pub(crate) fn view_insert(&mut self, other: u32) -> (added: bool)
        requires
            old(self).spec_view().wf(),
        ensures
            final(self).spec_id() == old(self).spec_id(),
            final(self).spec_cfg() == old(self).spec_cfg(),
            final(self).spec_pos() == old(self).spec_pos(),
            final(self).spec_destroyed() == old(self).spec_destroyed(),
            final(self).spec_view().wf(),
            final(self).spec_view().spec_range() == old(self).spec_view().spec_range(),
            added == !old(self).spec_view().sees(other),
            forall|x: u32|
                final(self).spec_view().sees(x) <==> (old(self).spec_view().sees(x) || x == other),
    {
        self.view.insert(other)
    }

    /// Withdraws `other` from the visible set; the map's visibility pass is
    /// the only caller.
    pub(crate) fn view_remove(&mut self, other: u32) -> (removed: bool)
        requires
            old(self).spec_view().wf(),
        ensures
            final(self).spec_id() == old(self).spec_id(),
            final(self).spec_cfg() == old(self).spec_cfg(),
            final(self).spec_pos() == old(self).spec_pos(),
            final(self).spec_destroyed() == old(self).spec_destroyed(),
            final(self).spec_view().wf(),
            final(self).spec_view().spec_range() == old(self).spec_view().spec_range(),
            removed == old(self).spec_view().sees(other),
            forall|x: u32|
                final(self).spec_view().sees(x) <==> (old(self).spec_view().sees(x) && x != other),
    {
        self.view.remove(other)
    }
}

} // verus!
