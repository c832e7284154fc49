//! Configuration value validation and decimal parsing.

use tankgrid::config::{parse_u32, Str};
use tankgrid::tank::TankCfg;

fn section() -> TankCfg {
    TankCfg { speed: 5, range: 100, bullet_speed: 600 }
}

#[test]
fn a_raw_value_is_kept_verbatim() {
    let cfg = section();
    let s = Str::new(&cfg, "speed", "25");
    assert_eq!(s.get(), "25");
}

#[test]
fn non_empty_passes_a_non_empty_value_through() {
    let cfg = section();
    let s = Str::new(&cfg, "name", "crazy").not_empty();
    assert_eq!(s.get(), "crazy");
}

#[test]
fn a_decimal_value_converts() {
    let cfg = section();
    assert_eq!(Str::new(&cfg, "speed", "123").to().get(), Some(123));
    assert_eq!(Str::new(&cfg, "speed", "0").to().get(), Some(0));
    assert_eq!(Str::new(&cfg, "speed", "4294967295").to().get(), Some(u32::MAX));
}

#[test]
fn a_malformed_or_oversized_value_does_not_convert() {
    let cfg = section();
    assert_eq!(Str::new(&cfg, "speed", "").to().get(), None);
    assert_eq!(Str::new(&cfg, "speed", "12a").to().get(), None);
    assert_eq!(Str::new(&cfg, "speed", "-5").to().get(), None);
    assert_eq!(Str::new(&cfg, "speed", "4294967296").to().get(), None);
    assert_eq!(Str::new(&cfg, "speed", "99999999999999999999").to().get(), None);
}

#[test]
fn parse_u32_agrees_with_the_wrapper() {
    assert_eq!(parse_u32("256"), Some(256));
    assert_eq!(parse_u32("007"), Some(7));
    assert_eq!(parse_u32(" 7"), None);
}
