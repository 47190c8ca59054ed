use gravity::appearance::{draw_trails, trail_alpha, Screen};
use gravity::binary32::Binary32;
use gravity::bodies::Body;
use gravity::trails::{
    add_trail_points, remove_expired_trails, TrailClock, TrailPoint, Trails, TRAIL_MAX_AGE,
};
use std::collections::VecDeque;

fn lib(value: f32) -> Binary32 {
    Binary32::from_bits(value.to_bits())
}

fn native(value: Binary32) -> f32 {
    f32::from_bits(value.to_bits())
}

fn body(x: f32, mass: f32) -> Body {
    Body {
        x: lib(x),
        y: lib(2.0 * x),
        velocity_x: lib(0.0),
        velocity_y: lib(0.0),
        mass: lib(mass),
        brightness: lib(0.9),
    }
}

fn point(time: f32) -> TrailPoint {
    TrailPoint {
        x: lib(1.0),
        y: lib(2.0),
        radius: lib(1.5),
        brightness: lib(1.25),
        creation_time: lib(time),
    }
}

#[test]
fn every_particle_leaves_a_point() {
    let mut trails = VecDeque::new();
    trails.push_back(point(0.5));
    add_trail_points(&mut trails, &[body(1.0, 4.0), body(3.0, 9.0)], lib(0.75));
    assert_eq!(trails.len(), 3);
    assert_eq!(trails[0], point(0.5));
    assert_eq!(native(trails[1].radius), 0.45 * 4.0_f32.sqrt());
    assert_eq!(native(trails[2].x), 3.0);
    assert_eq!(native(trails[2].y), 6.0);
    assert_eq!(native(trails[2].brightness), 0.9);
    assert_eq!(native(trails[2].creation_time), 0.75);
}

#[test]
fn points_expire_at_the_maximum_age() {
    assert_eq!(f32::from_bits(TRAIL_MAX_AGE), 40.0);
    let times = [0.0, 1.0, 1.5, 20.0, 30.0];
    let all: VecDeque<TrailPoint> = times.iter().map(|&t| point(t)).collect();
    for (now, left) in [(39.9, 5), (40.0, 4), (41.0, 3), (41.4, 3), (60.0, 1), (100.0, 0)] {
        let mut trails = all.clone();
        remove_expired_trails(&mut trails, lib(now));
        assert_eq!(trails.len(), left, "at {now}");
        for (kept, point) in trails.iter().rev().zip(all.iter().rev()) {
            assert_eq!(kept, point);
            assert!(now - native(kept.creation_time) < 40.0);
        }
    }
}

#[test]
fn samples_are_taken_at_a_steady_rate() {
    let mut clock = TrailClock::new();
    let (mut saved, mut now) = (0.0_f32, 0.0_f32);
    for frame in [0.016_f32, 0.017, 0.1, 0.002, 0.0, 0.033, 0.1, 0.1, 0.05] {
        now += frame;
        saved += frame;
        let mut samples = 0;
        while saved >= 1.0 / 45.0 {
            saved -= 1.0 / 45.0;
            samples += 1;
        }
        assert_eq!(clock.tick(lib(frame)), samples);
        assert_eq!(native(clock.time()), now);
    }
}

#[test]
fn frames_expire_old_points_and_add_new_ones() {
    let mut trails = Trails::new();
    trails.pass(&[body(1.0, 4.0)], lib(0.1));
    assert_eq!(trails.points.len(), 4);
    trails.pass(&[body(2.0, 4.0), body(3.0, 4.0)], lib(0.05));
    assert_eq!(trails.points.len(), 4 + 2 * 2);
    for _ in 0..410 {
        trails.pass(&[], lib(0.1));
    }
    assert!(trails.points.is_empty());
    trails.pass(&[body(1.0, 4.0)], lib(0.1));
    trails.clear();
    assert!(trails.points.is_empty());
    assert_eq!(native(trails.clock.time()), 0.0);
}

#[test]
fn dots_are_drawn_where_the_points_were() {
    let screen = Screen { width: lib(800.0), height: lib(600.0), zoom: lib(0.5) };
    let trails: VecDeque<TrailPoint> = VecDeque::from(vec![point(1.0)]);
    let dots = draw_trails(&trails, screen, lib(6.0));
    assert_eq!(dots.len(), 1);
    let dot = dots[0];
    assert_eq!(native(dot.x), 400.0 + 1.0 * 0.5);
    assert_eq!(native(dot.y), 300.0 + 2.0 * 0.5);
    assert_eq!(native(dot.radius), (1.5_f32 * 0.5 * 2.0).clamp(1.0, 2.0) * 0.5);
    assert_eq!(native(dot.r), 1.0 * 0.60);
    assert_eq!(native(dot.g), 1.0 * 0.75);
    assert_eq!(native(dot.b), 1.0);
    assert_eq!(native(dot.half_lives), 0.5);
    assert_eq!(native(trail_alpha(lib(0.5))), 0.35 * 0.5);
}

#[test]
fn points_off_the_screen_are_not_drawn() {
    let screen = Screen { width: lib(800.0), height: lib(600.0), zoom: lib(1.0) };
    for (x, y, drawn) in [
        (0.0, 0.0, true),
        (-400.9, 0.0, true),
        (-401.1, 0.0, false),
        (401.1, 0.0, false),
        (0.0, -301.1, false),
        (0.0, 300.9, true),
        (0.0, 301.1, false),
    ] {
        let point = TrailPoint { x: lib(x), y: lib(y), ..point(0.0) };
        let dots = draw_trails(&VecDeque::from(vec![point]), screen, lib(0.0));
        assert_eq!(dots.len(), drawn as usize, "at {x}, {y}");
    }
}
