//! Trajectory integrator behaviour: straight walks, gravity, rebound.

use tank_war_core::ballistics::{Ballistics, Vec2};

#[test]
fn test_positions_iter_horizontal() {
    // 100 pixels per second along x, no acceleration, time scale one.
    let pos = Vec2 { x: 0, y: 0 };
    let acceleration = Vec2 { x: 0, y: 0 };
    let velocity = Vec2 { x: 100_000, y: 0 };
    let ballistics = Ballistics::new(pos, velocity, acceleration).time_scale(1000);

    // 10 seconds of flight yield pixels (1, 0) .. (1000, 0).
    let mut pos_iterator = ballistics.positions_iter(10_000_000, None);
    for x in 1..=1000 {
        assert_eq!(pos_iterator.next(), Some((x, 0)));
    }
    assert_eq!(pos_iterator.next(), None);
    let ballistics = pos_iterator.finish();
    assert_eq!(ballistics.last_updated(), 10_000_000);
    assert_eq!(ballistics.cur_pos(), Vec2 { x: 1_000_000, y: 0 });

    // A further walk to 20 seconds continues with (1001, 0) .. (2000, 0).
    let mut pos_iterator = ballistics.positions_iter(20_000_000, None);
    for x in 1001..=2000 {
        assert_eq!(pos_iterator.next(), Some((x, 0)));
    }
    assert_eq!(pos_iterator.next(), None);
    let ballistics = pos_iterator.finish();
    assert_eq!(ballistics.last_updated(), 20_000_000);
    assert_eq!(ballistics.cur_pos(), Vec2 { x: 2_000_000, y: 0 });
}

#[test]
fn test_positions_iter_vertical() {
    let pos = Vec2 { x: 0, y: 0 };
    let acceleration = Vec2 { x: 0, y: 0 };
    let velocity = Vec2 { x: 0, y: 100_000 };
    let ballistics = Ballistics::new(pos, velocity, acceleration).time_scale(1000);

    let mut pos_iterator = ballistics.positions_iter(10_000_000, None);
    for y in 1..=999 {
        assert_eq!(pos_iterator.next(), Some((0, y)));
    }
    assert_eq!(pos_iterator.next(), Some((0, 1000)));
    assert_eq!(pos_iterator.next(), None);
    let ballistics = pos_iterator.finish();
    assert_eq!(ballistics.last_updated(), 10_000_000);
    assert_eq!(ballistics.cur_pos(), Vec2 { x: 0, y: 1_000_000 });
}

#[test]
fn test_gravity_follows_closed_form() {
    // One second of free fall from rest: pos = (v + a*t)*t, vel = v + 2*a*t.
    let ballistics = Ballistics::new(
        Vec2 { x: 0, y: 0 },
        Vec2 { x: 0, y: 0 },
        Vec2 { x: 0, y: -9_807 },
    );
    let mut iter = ballistics.positions_iter(1_000_000, None);
    let mut last = None;
    while let Some(p) = iter.next() {
        last = Some(p);
    }
    assert_eq!(last, Some((0, -10)));
    let ballistics = iter.finish();
    assert_eq!(ballistics.cur_pos(), Vec2 { x: 0, y: -9_807 });
    let (p, v) = ballistics.pos_and_velocity();
    assert_eq!(p, Vec2 { x: 0, y: -9_807 });
    assert_eq!(v, Vec2 { x: 0, y: -19_614 });
}

#[test]
fn test_rebound_reverses_and_scales_velocity() {
    // 100 px/s towards a wall at x = 2, keeping half the speed on rebound.
    let ballistics = Ballistics::new(
        Vec2 { x: 0, y: 0 },
        Vec2 { x: 100_000, y: 0 },
        Vec2 { x: 0, y: 0 },
    )
        .time_scale(1000)
        .rebound_efficiency(500);
    let mut iter = ballistics.positions_iter(25_000, Some((2, 1000)));
    // Pixel 1 is reached; the transition to pixel 2 hits the wall, the
    // trajectory re-anchors at the pre-transition position with half the
    // speed reversed, and the remaining time is replayed from zero.
    assert_eq!(iter.next(), Some((1, 0)));
    assert_eq!(iter.next(), Some((0, 0)));
    assert_eq!(iter.next(), None);
    let ballistics = iter.finish();
    // 10 ms of the 25 ms were consumed before the rebound; the remaining
    // 15 ms ran at -50 px/s from the re-anchored position (1000, 0).
    assert_eq!(ballistics.last_updated(), 15_000);
    assert_eq!(ballistics.cur_pos(), Vec2 { x: 250, y: 0 });
    let (_, v) = ballistics.pos_and_velocity();
    assert_eq!(v, Vec2 { x: -50_000, y: 0 });
}

#[test]
fn test_rebound_keeps_full_speed_by_default() {
    let ballistics = Ballistics::new(
        Vec2 { x: 0, y: 0 },
        Vec2 { x: 100_000, y: 0 },
        Vec2 { x: 0, y: 0 },
    )
        .time_scale(1000);
    let mut iter = ballistics.positions_iter(40_000, Some((2, 1000)));
    // Ping-pong between the walls at full speed: 1, rebound at 2, back to
    // 0, rebound at -1, and so on until the time budget is spent.
    assert_eq!(iter.next(), Some((1, 0)));
    assert_eq!(iter.next(), Some((0, 0)));
    let mut count = 2;
    while let Some(p) = iter.next() {
        assert!(p.0 >= 0 && p.0 < 2, "pixel {:?} escaped the borders", p);
        count += 1;
    }
    assert!(count >= 4);
    let ballistics = iter.finish();
    let (_, v) = ballistics.pos_and_velocity();
    assert_eq!(v.x.abs(), 100_000);
}

#[test]
fn test_zero_velocity_walk_yields_nothing() {
    let ballistics = Ballistics::new(
        Vec2 { x: 5_500, y: 7_499 },
        Vec2 { x: 0, y: 0 },
        Vec2 { x: 0, y: 0 },
    );
    let mut iter = ballistics.positions_iter(3_000_000, None);
    assert_eq!(iter.next(), None);
    let ballistics = iter.finish();
    assert_eq!(ballistics.cur_pos(), Vec2 { x: 5_500, y: 7_499 });
    assert_eq!(ballistics.last_updated(), 3_000_000);
}

#[test]
fn test_time_scale_dilates_simulated_time() {
    // Time scale 3: 1 real second simulates 3 seconds of flight.
    let ballistics = Ballistics::new(
        Vec2 { x: 0, y: 0 },
        Vec2 { x: 100_000, y: 0 },
        Vec2 { x: 0, y: 0 },
    )
        .time_scale(3000);
    let mut iter = ballistics.positions_iter(1_000_000, None);
    let mut last = None;
    while let Some(p) = iter.next() {
        last = Some(p);
    }
    assert_eq!(last, Some((300, 0)));
    let ballistics = iter.finish();
    assert_eq!(ballistics.cur_pos(), Vec2 { x: 300_000, y: 0 });
}
