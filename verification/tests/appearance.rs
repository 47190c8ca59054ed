use gravity::appearance::{
    dominant_body_transition, draw_dominant_bodies, draw_particles, draw_snapshot, mix_color, Circle,
    Color, Screen,
};
use gravity::binary32::Binary32;
use gravity::bodies::Body;
use gravity::interface::{simulation_state, trail_state};
use gravity::types::Particle;

fn lib(value: f32) -> Binary32 {
    Binary32::from_bits(value.to_bits())
}

fn native(value: Binary32) -> f32 {
    f32::from_bits(value.to_bits())
}

fn transition(fraction: f32) -> f32 {
    let progress = ((fraction - 0.25) / (0.45_f32 - 0.25)).clamp(0.0, 1.0);
    progress * progress * (3.0 - 2.0 * progress)
}

fn screen() -> Screen {
    Screen { width: lib(800.0), height: lib(600.0), zoom: lib(0.5) }
}

fn body(x: f32, mass: f32) -> Body {
    Body {
        x: lib(x),
        y: lib(-x),
        velocity_x: lib(0.0),
        velocity_y: lib(0.0),
        mass: lib(mass),
        brightness: lib(0.8),
    }
}

fn circle(circle: &Circle) -> (f32, f32, f32, [f32; 4]) {
    let color = circle.color;
    (
        native(circle.x),
        native(circle.y),
        native(circle.radius),
        [native(color.r), native(color.g), native(color.b), native(color.a)],
    )
}

fn expected_body(x: f32, mass: f32, total: f32) -> Vec<(f32, f32, f32, [f32; 4])> {
    let (px, py) = (400.0 + x * 0.5, 300.0 + -x * 0.5);
    let radius = (0.45 * mass.sqrt() * 0.5).clamp(0.7, 50.0);
    let turned = transition(mass / total);
    let reach = radius * (1.0 + 1.7 * turned);
    if px < -reach || px > 800.0 + reach || py < -reach || py > 600.0 + reach {
        return Vec::new();
    }
    let bright = (mass / 20.0).sqrt().clamp(0.0, 1.0);
    let normal = [
        (0.8 * 0.65 + bright * 0.25_f32).min(1.0),
        (0.8 * 0.75 + bright * 0.20_f32).min(1.0),
        0.8_f32.min(1.0),
        0.95,
    ];
    let central = [1.0, 0.72, 0.15, 1.0];
    let mut color = [0.0; 4];
    for i in 0..4 {
        color[i] = normal[i] + (central[i] - normal[i]) * turned.clamp(0.0, 1.0);
    }
    let mut all = Vec::new();
    if turned > 0.0 {
        all.push((px, py, radius * 2.7, [1.0, 0.45, 0.05, 0.035 * turned]));
        all.push((px, py, radius * 1.8, [1.0, 0.55, 0.08, 0.08 * turned]));
    }
    all.push((px, py, radius, color));
    if turned > 0.0 {
        all.push((
            px - radius * 0.25,
            py - radius * 0.25,
            radius * 0.55,
            [1.0, 0.92, 0.55, 0.8 * turned],
        ));
    }
    all
}

#[test]
fn transitions_run_between_the_thresholds() {
    for i in 0..=100 {
        let fraction = i as f32 / 100.0;
        let turned = native(dominant_body_transition(lib(fraction)));
        assert_eq!(turned, transition(fraction));
        if fraction <= 0.25 {
            assert_eq!(turned, 0.0);
        }
        if fraction >= 0.45 {
            assert_eq!(turned, 1.0);
        }
    }
    assert_eq!(native(dominant_body_transition(lib(-1.0e30))), 0.0);
    assert_eq!(native(dominant_body_transition(lib(1.0e30))), 1.0);
}

#[test]
fn transitions_are_fractions() {
    let around = |fraction: f32| (fraction.to_bits() - 200..=fraction.to_bits() + 200).map(f32::from_bits);
    for fraction in around(0.25).chain(around(0.35)).chain(around(0.45)) {
        let turned = native(dominant_body_transition(lib(fraction)));
        assert_eq!(turned, transition(fraction));
        assert!((0.0..=1.0).contains(&turned));
    }
    assert_eq!(native(dominant_body_transition(lib(f32::INFINITY))), 1.0);
    assert_eq!(native(dominant_body_transition(lib(f32::NEG_INFINITY))), 0.0);
    assert!(native(dominant_body_transition(lib(f32::NAN))).is_nan());
}

#[test]
fn colors_are_mixed_in_parts() {
    let from = Color { r: lib(0.0), g: lib(0.5), b: lib(1.0), a: lib(0.25) };
    let to = Color { r: lib(1.0), g: lib(0.25), b: lib(0.0), a: lib(0.75) };
    let mixed = mix_color(from, to, lib(0.5));
    assert_eq!(native(mixed.r), 0.5);
    assert_eq!(native(mixed.g), 0.375);
    assert_eq!(native(mixed.b), 0.5);
    assert_eq!(native(mixed.a), 0.5);
    assert_eq!(mix_color(from, to, lib(-3.0)), from);
    assert_eq!(mix_color(from, to, lib(7.0)), to);
}

#[test]
fn light_bodies_are_single_disks() {
    let bodies: Vec<Body> = (0..10).map(|i| body(10.0 * i as f32, 5.0 + i as f32)).collect();
    let circles = draw_particles(&bodies, screen());
    let expected: Vec<_> =
        (0..10).flat_map(|i| expected_body(10.0 * i as f32, 5.0 + i as f32, 95.0)).collect();
    assert_eq!(circles.iter().map(circle).collect::<Vec<_>>(), expected);
    assert_eq!(circles.len(), 10);
    assert!(draw_dominant_bodies(&bodies, screen()).is_empty());
}

#[test]
fn heavy_bodies_glow() {
    let bodies = vec![body(0.0, 60.0), body(50.0, 30.0), body(90.0, 10.0)];
    let circles = draw_particles(&bodies, screen());
    let mut expected = expected_body(0.0, 60.0, 100.0);
    assert_eq!(expected.len(), 4);
    expected.extend(expected_body(50.0, 30.0, 100.0));
    assert_eq!(expected.len(), 8);
    let turning = expected.clone();
    expected.extend(expected_body(90.0, 10.0, 100.0));
    assert_eq!(circles.iter().map(circle).collect::<Vec<_>>(), expected);
    let dominant = draw_dominant_bodies(&bodies, screen());
    assert_eq!(dominant.iter().map(circle).collect::<Vec<_>>(), turning);
}

#[test]
fn bodies_off_the_screen_are_not_drawn() {
    for x in [-820.0_f32, -801.0, 0.0, 598.0, 602.0, 900.0] {
        let bodies = vec![body(x, 5.0), body(0.0, 95.0)];
        let circles = draw_particles(&bodies, screen());
        let mut expected = expected_body(x, 5.0, 100.0);
        expected.extend(expected_body(0.0, 95.0, 100.0));
        assert_eq!(circles.iter().map(circle).collect::<Vec<_>>(), expected);
    }
    assert!(draw_particles(&[], screen()).is_empty());
}

#[test]
fn snapshots_are_drawn_as_dots() {
    let particle = |x: f32, mass: f32, alive: u32| Particle {
        x: lib(x),
        y: lib(0.0),
        vx: lib(0.0),
        vy: lib(0.0),
        mass: lib(mass),
        brightness: lib(0.6),
        alive,
        padding: 0,
    };
    let particles = vec![
        particle(0.0, 400.0, 1),
        particle(10.0, 4.0, 0),
        particle(839.0, 4.0, 1),
        particle(841.0, 4.0, 1),
        particle(-841.0, 4.0, 1),
    ];
    let dots = draw_snapshot(&particles, screen());
    assert_eq!(dots.len(), 6);
    assert_eq!(
        circle(&dots[0]),
        (400.0, 300.0, 400.0_f32.sqrt() * 0.45 * 0.5, [0.6, 0.6 * 0.8, 1.0, 1.0])
    );
    assert_eq!(circle(&dots[1]).2, 1.0);

    let radius = 0.45 * 400.0_f32.sqrt() * 0.5;
    assert_eq!(circle(&dots[2]), (400.0, 300.0, radius * 2.7, [1.0, 0.45, 0.05, 0.035]));
    assert_eq!(circle(&dots[3]), (400.0, 300.0, radius * 1.8, [1.0, 0.55, 0.08, 0.08]));
    assert_eq!(circle(&dots[4]).2, radius);
    assert_eq!(circle(&dots[5]).2, radius * 0.55);

    let equals: Vec<Particle> = (0..5).map(|i| particle(i as f32 * 20.0, 4.0, 1)).collect();
    assert_eq!(draw_snapshot(&equals, screen()).len(), 5);
}

#[test]
fn states_have_their_words() {
    assert_eq!(simulation_state(true), "PAUSED");
    assert_eq!(simulation_state(false), "RUNNING");
    assert_eq!(trail_state(true), "VISIBLE");
    assert_eq!(trail_state(false), "HIDDEN");
}
