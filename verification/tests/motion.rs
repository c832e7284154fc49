//! The motion model: integer interpolation, arrival, and the square root.

use tankgrid::position::{isqrt, Position};

#[test]
fn a_fresh_position_is_static() {
    let mut p = Position::new(7, 9);
    assert_eq!((p.x(), p.y()), (7, 9));
    assert!(!p.update(100));
    assert_eq!((p.x(), p.y()), (7, 9));
}

#[test]
fn travel_interpolates_and_snaps() {
    // From (0, 0) to (30, 40): 50 world units at speed 5, ten time units.
    let mut p = Position::new(0, 0);
    p.move_to(30, 40, 5, 0);
    assert!(p.update(5));
    assert_eq!((p.x(), p.y()), (15, 20));
    assert!(p.update(9));
    assert_eq!((p.x(), p.y()), (27, 36));
    assert!(p.update(10));
    assert_eq!((p.x(), p.y()), (30, 40));
    // Arrived: the order is cleared.
    assert!(!p.update(11));
}

#[test]
fn queries_before_the_start_instant_do_not_advance() {
    let mut p = Position::new(10, 10);
    p.move_to(110, 10, 4, 50);
    assert!(p.update(20));
    assert_eq!((p.x(), p.y()), (10, 10));
}

#[test]
fn zero_speed_never_arrives() {
    let mut p = Position::new(3, 4);
    p.move_to(100, 100, 0, 0);
    for now in 1..20u64 {
        assert!(p.update(now));
        assert_eq!((p.x(), p.y()), (3, 4));
    }
}

#[test]
fn zero_distance_snaps_on_first_update() {
    let mut p = Position::new(5, 6);
    p.move_to(5, 6, 9, 0);
    assert!(p.update(0));
    assert_eq!((p.x(), p.y()), (5, 6));
    assert!(!p.update(1));
}

#[test]
fn retargeting_starts_from_the_current_point() {
    let mut p = Position::new(0, 0);
    p.move_to(100, 0, 10, 0);
    assert!(p.update(4));
    assert_eq!((p.x(), p.y()), (40, 0));
    p.move_to(40, 80, 10, 4);
    assert!(p.update(8));
    assert_eq!((p.x(), p.y()), (40, 40));
}

#[test]
fn isqrt_is_the_floored_square_root() {
    assert_eq!(isqrt(0), 0);
    assert_eq!(isqrt(1), 1);
    assert_eq!(isqrt(15), 3);
    assert_eq!(isqrt(16), 4);
    assert_eq!(isqrt(1_980_050), 1407);
    assert_eq!(isqrt(u64::MAX as u128), u32::MAX as u64);
    let big: u128 = (1u128 << 64) - 1;
    assert_eq!(isqrt(big * big), u64::MAX);
}
