//! The core correctness law, exercised at runtime: after every tick, each
//! unit's visible set equals exactly the set of other placed units whose
//! distance to its current position is within its view range — recomputed
//! here from scratch, against the map's incremental bookkeeping.

use tankgrid::map::{MapCfg, WorldMap};
use tankgrid::tank::{Tank, TankCfg};
use tankgrid::unit::Unit;

/// A small deterministic generator, so the walk is reproducible.
struct Lcg(u64);

impl Lcg {
    fn next_below(&mut self, bound: u32) -> u32 {
        self.0 = self.0.wrapping_mul(6364136223846793005).wrapping_add(1442695040888963407);
        ((self.0 >> 33) % bound as u64) as u32
    }
}

fn in_range(a: (u32, u32), b: (u32, u32), r: u32) -> bool {
    let dx = a.0 as i128 - b.0 as i128;
    let dy = a.1 as i128 - b.1 as i128;
    dx * dx + dy * dy <= (r as i128) * (r as i128)
}

fn brute_visible(map: &WorldMap, ids: &[u32], me: u32, my_range: u32) -> Vec<u32> {
    let my_pos = map.position_of(me).unwrap();
    let mut seen: Vec<u32> = ids
        .iter()
        .copied()
        .filter(|&other| {
            other != me && map.contains(other) && in_range(my_pos, map.position_of(other).unwrap(), my_range)
        })
        .collect();
    seen.sort_unstable();
    seen
}

#[test]
fn visible_sets_match_a_full_rescan_after_every_tick() {
    let mut map = WorldMap::new(MapCfg { width: 2048, height: 2048 }).unwrap();
    let ranges: [u32; 5] = [60, 200, 500, 90, 350];
    let ids: Vec<u32> = (1..=5).collect();
    let mut rng = Lcg(12345);
    for (i, &id) in ids.iter().enumerate() {
        let cfg = TankCfg { speed: 150, range: ranges[i], bullet_speed: 600 };
        let x = rng.next_below(2048);
        let y = rng.next_below(2048);
        map.add(Unit::Tank(Tank::new(id, cfg, x, y)));
    }
    for (i, &id) in ids.iter().enumerate() {
        let mut got = map.visible_of(id).unwrap();
        got.sort_unstable();
        assert_eq!(got, brute_visible(&map, &ids, id, ranges[i]), "after add of all units");
    }

    for now in 1..=40u64 {
        if now == 15 {
            // A unit disappears mid-walk; nothing may reference it afterwards.
            map.destroy(3);
            assert!(!map.contains(3));
        }
        for &id in &ids {
            if !map.contains(id) {
                continue;
            }
            let (moving, _) = map.update_unit(id, now);
            if !moving {
                let x = rng.next_below(2048);
                let y = rng.next_below(2048);
                map.move_unit_to(id, x, y, now);
            }
        }
        for (i, &id) in ids.iter().enumerate() {
            if !map.contains(id) {
                continue;
            }
            let mut got = map.visible_of(id).unwrap();
            got.sort_unstable();
            assert_eq!(got, brute_visible(&map, &ids, id, ranges[i]), "at tick {now}");
        }
    }
}
