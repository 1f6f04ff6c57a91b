//! Fixed-point arithmetic and tank health.

use tank_war_core::fixed::floor_div;
use tank_war_core::tank::Health;
use tank_war_core::{G_MILLIS, MAX_PLAYERS_COUNT};

#[test]
fn test_floor_div_rounds_towards_negative_infinity() {
    assert_eq!(floor_div(7, 2), 3);
    assert_eq!(floor_div(-7, 2), -4);
    assert_eq!(floor_div(6, 2), 3);
    assert_eq!(floor_div(-6, 2), -3);
    assert_eq!(floor_div(0, 5), 0);
    assert_eq!(floor_div(-1, 1_000_000), -1);
    assert_eq!(floor_div(999_999, 1_000_000), 0);
}

#[test]
fn test_health_damage_saturates() {
    let mut health = Health { value: 100, invincible: false };
    assert_eq!(health.damage(30), 70);
    assert_eq!(health.value, 70);
    assert_eq!(health.damage(80), 0);
    assert_eq!(health.value, 0);
    assert_eq!(health.damage(1), 0);
}

#[test]
fn test_health_ignores_damage_while_invincible() {
    let mut health = Health { value: 100, invincible: true };
    assert_eq!(health.damage(50), 100);
    assert_eq!(health.value, 100);
    health.invincible = false;
    assert_eq!(health.damage(50), 50);
}

#[test]
fn test_game_constants() {
    assert_eq!(G_MILLIS, 9_807);
    assert_eq!(MAX_PLAYERS_COUNT, 5);
}
