//! Unit kinds and map construction.

use tankgrid::map::{MapCfg, MapError, WorldMap};
use tankgrid::tank::{Tank, TankCfg};
use tankgrid::unit::Unit;

fn tank_cfg() -> TankCfg {
    TankCfg { speed: 5, range: 100, bullet_speed: 600 }
}

#[test]
fn zero_dimensions_are_rejected() {
    assert!(matches!(
        WorldMap::new(MapCfg { width: 0, height: 512 }),
        Err(MapError::InvalidConfiguration)
    ));
    assert!(matches!(
        WorldMap::new(MapCfg { width: 512, height: 0 }),
        Err(MapError::InvalidConfiguration)
    ));
}

#[test]
fn the_grid_covers_the_world() {
    let map = WorldMap::new(MapCfg { width: 512, height: 512 }).unwrap();
    assert_eq!(map.size(), (512, 512));
    assert_eq!(map.grid_dims(), (2, 2));
    let map = WorldMap::new(MapCfg { width: 513, height: 1 }).unwrap();
    assert_eq!(map.grid_dims(), (1, 3));
    let map = WorldMap::new(MapCfg { width: 1, height: 1 }).unwrap();
    assert_eq!(map.grid_dims(), (1, 1));
}

#[test]
fn a_unit_lands_in_the_cell_of_its_position() {
    let mut map = WorldMap::new(MapCfg { width: 1024, height: 1024 }).unwrap();
    map.add(Unit::Tank(Tank::new(7, tank_cfg(), 300, 100)));
    // Row from y, column from x: (100 / 256, 300 / 256) = (0, 1).
    assert_eq!(map.cell_ids(0, 1), vec![7]);
    assert!(map.cell_ids(0, 0).is_empty());
    assert_eq!(map.len(), 1);
    assert!(map.contains(7));
    assert_eq!(map.position_of(7), Some((300, 100)));
}

#[test]
fn a_moved_unit_changes_cell() {
    let mut map = WorldMap::new(MapCfg { width: 1024, height: 1024 }).unwrap();
    map.add(Unit::Tank(Tank::new(7, TankCfg { speed: 300, range: 10, bullet_speed: 1 }, 0, 0)));
    map.move_unit_to(7, 600, 0, 0);
    map.tick(1);
    assert_eq!(map.position_of(7), Some((300, 0)));
    assert_eq!(map.cell_ids(0, 1), vec![7]);
    map.tick(2);
    assert_eq!(map.position_of(7), Some((600, 0)));
    assert_eq!(map.cell_ids(0, 2), vec![7]);
    assert!(map.cell_ids(0, 1).is_empty());
}

#[test]
fn positions_off_the_map_clamp_to_the_border_cell() {
    let mut map = WorldMap::new(MapCfg { width: 512, height: 512 }).unwrap();
    map.add(Unit::Tank(Tank::new(3, tank_cfg(), 5000, 5000)));
    assert_eq!(map.cell_ids(1, 1), vec![3]);
}

#[test]
fn a_tank_fires_a_bullet_from_its_position() {
    let tank = Tank::new(4, tank_cfg(), 30, 40);
    let bullet = tank.fire(9);
    assert_eq!(bullet.id(), 9);
    assert_eq!(bullet.tank_id(), 4);
    assert_eq!(bullet.position(), (30, 40));
    assert!(!bullet.is_destroyed());
    // A tank is immune to its own bullets.
    assert!(!tank.can_be_destroyed(&bullet));
    let other = Tank::new(5, tank_cfg(), 0, 0);
    assert!(other.can_be_destroyed(&bullet));
}

#[test]
fn a_destroyed_tank_stops_moving() {
    let mut tank = Tank::new(4, tank_cfg(), 0, 0);
    assert_eq!(tank.name(), "crazy tank");
    tank.move_to(100, 0, 0);
    assert!(tank.update(1));
    tank.destroy();
    assert!(tank.is_destroyed());
    assert!(!tank.update(2));
}

#[test]
fn bullets_are_placeable_units_without_a_view() {
    let mut map = WorldMap::new(MapCfg { width: 512, height: 512 }).unwrap();
    map.add(Unit::Tank(Tank::new(1, tank_cfg(), 10, 10)));
    let tank = Tank::new(9, tank_cfg(), 12, 10);
    let evs = map.add(Unit::Bullet(tank.fire(2)));
    // The tank sees the bullet; the bullet sees nothing.
    assert_eq!(evs.len(), 1);
    assert!(evs[0].enter && evs[0].viewer == 1 && evs[0].seen == 2);
    assert_eq!(map.visible_of(1).unwrap(), vec![2]);
    assert_eq!(map.visible_of(2), None);
}
