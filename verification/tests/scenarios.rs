//! End-to-end visibility scenarios on a small map.

use tankgrid::map::{MapCfg, VisEvent, WorldMap};
use tankgrid::tank::{Tank, TankCfg};
use tankgrid::unit::Unit;

fn tank_cfg(speed: u32, range: u32) -> TankCfg {
    TankCfg { speed, range, bullet_speed: 600 }
}

fn new_map(width: u32, height: u32) -> WorldMap {
    WorldMap::new(MapCfg { width, height }).expect("valid configuration")
}

fn add_tank(map: &mut WorldMap, id: u32, cfg: TankCfg, x: u32, y: u32) -> Vec<VisEvent> {
    map.add(Unit::Tank(Tank::new(id, cfg, x, y)))
}

#[test]
fn two_tanks_in_one_cell_see_each_other() {
    // 512 x 512 world: 2 x 2 cells of 256 world units.
    let mut map = new_map(512, 512);
    assert_eq!(map.grid_dims(), (2, 2));

    let first = add_tank(&mut map, 1, tank_cfg(5, 50), 10, 10);
    assert!(first.is_empty());

    let second = add_tank(&mut map, 2, tank_cfg(5, 50), 20, 20);
    assert_eq!(second.len(), 2);
    assert!(second.iter().all(|e| e.enter));

    assert_eq!(map.visible_of(1).unwrap(), vec![2]);
    assert_eq!(map.visible_of(2).unwrap(), vec![1]);
    // Both stand in cell (0, 0).
    let cell = map.cell_ids(0, 0);
    assert!(cell.contains(&1) && cell.contains(&2));
}

#[test]
fn approaching_tank_enters_sight_exactly_when_in_range() {
    let mut map = new_map(512, 512);
    add_tank(&mut map, 1, tank_cfg(0, 50), 10, 10);
    // The traveler starts far outside every view range.
    add_tank(&mut map, 2, tank_cfg(350, 50), 1000, 1000);
    assert!(map.visible_of(1).unwrap().is_empty());

    map.move_unit_to(2, 5, 5, 0);
    // Straight-line distance is isqrt(995^2 + 995^2) = 1407 world units at
    // speed 350: the traveler reaches (10, 10) exactly at the fourth tick.
    for now in 1..=3u64 {
        let evs = map.tick(now);
        assert!(evs.is_empty(), "no sight change expected at tick {now}");
        assert!(map.visible_of(1).unwrap().is_empty());
        assert!(map.visible_of(2).unwrap().is_empty());
    }
    let evs = map.tick(4);
    assert_eq!(map.position_of(2), Some((10, 10)));
    assert_eq!(evs.len(), 2);
    assert!(evs.contains(&VisEvent { enter: true, viewer: 1, seen: 2 }));
    assert!(evs.contains(&VisEvent { enter: true, viewer: 2, seen: 1 }));
    assert_eq!(map.visible_of(1).unwrap(), vec![2]);
    assert_eq!(map.visible_of(2).unwrap(), vec![1]);

    // Arrival at (5, 5) keeps both in range: no further events.
    let evs = map.tick(5);
    assert!(evs.is_empty());
    assert_eq!(map.position_of(2), Some((5, 5)));
}

#[test]
fn destroyed_tank_never_appears_in_any_view() {
    let mut map = new_map(512, 512);
    add_tank(&mut map, 1, tank_cfg(0, 50), 10, 10);
    add_tank(&mut map, 2, tank_cfg(350, 50), 1000, 1000);
    map.move_unit_to(2, 5, 5, 0);
    map.tick(1);
    map.tick(2);
    assert!(map.visible_of(1).unwrap().is_empty());

    // Destroyed while still out of range: nobody saw it, nobody will.
    let evs = map.destroy(2);
    assert!(evs.is_empty());
    assert!(!map.contains(2));
    assert!(map.visible_of(1).unwrap().is_empty());
    let (rows, cols) = map.grid_dims();
    for r in 0..rows {
        for c in 0..cols {
            assert!(!map.cell_ids(r, c).contains(&2));
        }
    }
    let evs = map.tick(3);
    assert!(evs.is_empty());
    assert!(map.visible_of(1).unwrap().is_empty());
}

#[test]
fn destroying_a_watched_tank_emits_leave_events() {
    let mut map = new_map(512, 512);
    add_tank(&mut map, 1, tank_cfg(5, 50), 10, 10);
    add_tank(&mut map, 2, tank_cfg(5, 50), 20, 20);
    assert_eq!(map.visible_of(1).unwrap(), vec![2]);

    let evs = map.destroy(2);
    assert_eq!(evs, vec![VisEvent { enter: false, viewer: 1, seen: 2 }]);
    assert!(map.visible_of(1).unwrap().is_empty());
    assert!(!map.contains(2));
}

#[test]
fn visibility_is_judged_by_each_viewer_own_range() {
    let mut map = new_map(512, 512);
    // 50 world units apart: only the long-range tank sees the other.
    add_tank(&mut map, 1, tank_cfg(5, 10), 10, 10);
    let evs = add_tank(&mut map, 2, tank_cfg(5, 100), 60, 10);
    assert_eq!(evs, vec![VisEvent { enter: true, viewer: 2, seen: 1 }]);
    assert!(map.visible_of(1).unwrap().is_empty());
    assert_eq!(map.visible_of(2).unwrap(), vec![1]);
}

#[test]
fn reconciling_twice_yields_no_second_events() {
    let mut map = new_map(512, 512);
    add_tank(&mut map, 1, tank_cfg(0, 50), 10, 10);
    add_tank(&mut map, 2, tank_cfg(100, 50), 400, 10);
    map.move_unit_to(2, 10, 10, 0);
    let (moved, evs) = map.update_unit(2, 4);
    assert!(moved);
    assert_eq!(evs.len(), 2);
    // The position did not change since the last reconciliation: nothing to
    // report.
    let second = map.unit_moved(2);
    assert!(second.is_empty());
    let third = map.unit_moved(2);
    assert!(third.is_empty());
}
