use gravity::binary32::Binary32;
use gravity::bodies::Body;
use gravity::collision;
use gravity::reference;
use gravity::simd;
use gravity::types::{Particle, SimParams};
use gravity::wasm;

fn lib(value: f32) -> Binary32 {
    Binary32::from_bits(value.to_bits())
}

fn wide(value: Binary32) -> f64 {
    f64::from(f32::from_bits(value.to_bits()))
}

const DT: f32 = 1.0 / 120.0;

fn cloud(count: usize, spread: f32, seed: u32) -> Vec<Body> {
    let mut state = seed;
    let mut next = || {
        state = state.wrapping_mul(1_664_525).wrapping_add(1_013_904_223);
        (state >> 8) as f32 / 16_777_216.0
    };
    (0..count)
        .map(|_| Body {
            x: lib((next() - 0.5) * spread),
            y: lib((next() - 0.5) * spread),
            velocity_x: lib(next() * 40.0 - 20.0),
            velocity_y: lib(next() * 40.0 - 20.0),
            mass: lib(0.3 + next() * 20.0),
            brightness: lib(next()),
        })
        .collect()
}

fn particle(body: &Body) -> Particle {
    Particle {
        x: body.x,
        y: body.y,
        vx: body.velocity_x,
        vy: body.velocity_y,
        mass: body.mass,
        brightness: body.brightness,
        alive: 1,
        padding: 0,
    }
}

fn body(particle: &Particle) -> Body {
    Body {
        x: particle.x,
        y: particle.y,
        velocity_x: particle.vx,
        velocity_y: particle.vy,
        mass: particle.mass,
        brightness: particle.brightness,
    }
}

fn lanes(bodies: &[Body]) -> simd::Particles {
    let mut all = simd::Particles::with_capacity(bodies.len());
    for body in bodies {
        all.push(*body);
    }
    all
}

/// Mass, momentum and the weighted sums of the places.
fn sums(bodies: &[Body]) -> [f64; 5] {
    let mut sums = [0.0; 5];
    for body in bodies {
        let mass = wide(body.mass);
        sums[0] += mass;
        sums[1] += mass * wide(body.velocity_x);
        sums[2] += mass * wide(body.velocity_y);
        sums[3] += mass * wide(body.x);
        sums[4] += mass * wide(body.y);
    }
    sums
}

fn close(got: f64, expected: f64, scale: f64) {
    assert!((got - expected).abs() <= 1e-5 * scale, "{got} != {expected}");
}

/// A step keeps mass and momentum and carries the centre along.
fn kept(before: &[Body], after: &[Body]) {
    let (old, new) = (sums(before), sums(after));
    let scale: f64 = before.iter().map(|b| wide(b.mass) * 400.0).sum();
    close(new[0], old[0], old[0]);
    close(new[1], old[1], scale);
    close(new[2], old[2], scale);
    close(new[3], old[3] + f64::from(DT) * old[1], scale);
    close(new[4], old[4] + f64::from(DT) * old[2], scale);
}

#[test]
fn device_steps_keep_mass_momentum_and_the_path_of_the_centre() {
    for (count, spread) in [(2, 300.0), (20, 60.0), (33, 400.0)] {
        let before = cloud(count, spread, 11);
        let mut particles: Vec<Particle> = before.iter().map(particle).collect();
        let params = SimParams {
            count: count as u32,
            dt: lib(DT),
            gravity: lib(15.0),
            softening_squared: lib(9.0),
        };
        reference::step(&mut particles, params);
        let after: Vec<Body> = particles.iter().map(body).collect();
        kept(&before, &after);
    }
}

#[test]
fn scalar_steps_keep_mass_momentum_and_the_path_of_the_centre() {
    for (count, spread) in [(2, 300.0), (20, 60.0), (33, 400.0)] {
        let before = cloud(count, spread, 12);
        let mut after = before.clone();
        let mut accelerations = Vec::new();
        wasm::update_system(&mut after, &mut accelerations, lib(DT));
        kept(&before, &after);
    }
}

#[test]
fn lane_steps_keep_mass_momentum_and_the_path_of_the_centre() {
    for (count, spread) in [(2, 300.0), (20, 60.0), (33, 400.0)] {
        let before = cloud(count, spread, 13);
        let mut after = lanes(&before);
        let (mut ax, mut ay) = (Vec::new(), Vec::new());
        simd::update_system_simd(&mut after, &mut ax, &mut ay, lib(DT));
        kept(&before, &after.to_bodies());
    }
}

#[test]
fn both_clouds_accelerate_alike() {
    let all = cloud(40, 300.0, 14);
    let mut scalar = Vec::new();
    wasm::calculate_accelerations(&all, &mut scalar);
    let (mut ax, mut ay) = (Vec::new(), Vec::new());
    simd::calculate_accelerations_avx2(&lanes(&all), &mut ax, &mut ay);
    assert_eq!(scalar.len(), all.len());
    for i in 0..all.len() {
        close(wide(scalar[i].0), wide(ax[i]), 1.0);
        close(wide(scalar[i].1), wide(ay[i]), 1.0);
    }
}

#[test]
fn device_particles_merge_as_bodies_do() {
    let all = cloud(40, 40.0, 15);
    let mut particles: Vec<Particle> = all.iter().map(particle).collect();
    collision::merge_colliding_particles(&mut particles);
    let mut lanes = lanes(&all);
    simd::merge_colliding_particles_avx2(&mut lanes);
    let bodies = lanes.to_bodies();
    assert!(bodies.len() < all.len());
    assert_eq!(particles.len(), bodies.len());
    for (particle, body) in particles.iter().zip(&bodies) {
        assert_eq!(particle.mass, body.mass);
        close(wide(particle.x), wide(body.x), 40.0);
        close(wide(particle.y), wide(body.y), 40.0);
        close(wide(particle.vx), wide(body.velocity_x), 40.0);
        close(wide(particle.vy), wide(body.velocity_y), 40.0);
        close(wide(particle.brightness), wide(body.brightness), 1.0);
    }
}

#[test]
fn large_masses_are_kept_up_to_rounding() {
    let heavy = |x: f32, mass: f32| Body { x: lib(x), mass: lib(mass), ..cloud(1, 1.0, 3)[0] };
    let mut pair = vec![heavy(0.0, 16_777_216.0), heavy(1.0, 1.0)];
    wasm::merge_colliding_particles(&mut pair);
    assert_eq!(pair.len(), 1);
    assert_eq!(wide(pair[0].mass), 16_777_216.0);
}

#[test]
fn particles_in_one_place_do_not_pull_without_bound() {
    let here = cloud(1, 100.0, 16)[0];
    let particles = vec![particle(&here), particle(&here)];
    let params = SimParams {
        count: 2,
        dt: lib(DT),
        gravity: lib(15.0),
        softening_squared: lib(1e-18),
    };
    for (ax, ay) in reference::calculate_accelerations(&particles, params) {
        assert_eq!(wide(ax), 0.0);
        assert_eq!(wide(ay), 0.0);
    }
    let mut accelerations = Vec::new();
    wasm::calculate_accelerations(&[here, here], &mut accelerations);
    assert!(accelerations.iter().all(|a| wide(a.0) == 0.0 && wide(a.1) == 0.0));
}

#[test]
fn a_step_back_returns() {
    let before: Vec<Particle> = cloud(12, 4_000.0, 17).iter().map(particle).collect();
    let params = SimParams {
        count: before.len() as u32,
        dt: lib(DT),
        gravity: lib(15.0),
        softening_squared: lib(9.0),
    };
    let mut after = before.clone();
    reference::step(&mut after, params);
    assert_ne!(before, after);
    reference::step(&mut after, SimParams { dt: lib(-DT), ..params });
    assert_eq!(before.len(), after.len());
    for (old, new) in before.iter().zip(&after) {
        assert_eq!(old.mass, new.mass);
        assert_eq!(old.brightness, new.brightness);
        close(wide(new.x), wide(old.x), 4_000.0);
        close(wide(new.y), wide(old.y), 4_000.0);
        close(wide(new.vx), wide(old.vx), 40.0);
        close(wide(new.vy), wide(old.vy), 40.0);
    }
}

#[test]
fn a_step_back_can_merge_what_is_all_but_touching() {
    let at = |x: f32, vx: f32| Particle {
        x: lib(x),
        vx: lib(vx),
        mass: lib(4.0),
        alive: 1,
        ..Particle::zeroed()
    };
    let params = SimParams {
        count: 2,
        dt: lib(1.0),
        gravity: lib(0.0),
        softening_squared: lib(9.0),
    };
    let mut particles = vec![at(0.0, 0.0), at(1.800_000_1, 16.0)];
    assert_eq!(collision::find_collision(&particles, 0), None);
    reference::step(&mut particles, params);
    assert_eq!(particles.len(), 2);
    reference::step(&mut particles, SimParams { dt: lib(-1.0), ..params });
    assert_eq!(particles.len(), 1);
}

#[test]
fn finite_particles_stay_finite_short_of_overflow() {
    let mut particles: Vec<Particle> = cloud(30, 20.0, 18).iter().map(particle).collect();
    let params = SimParams {
        count: 30,
        dt: lib(DT),
        gravity: lib(15.0),
        softening_squared: lib(9.0),
    };
    reference::step(&mut particles, params);
    let finite = |p: &Particle| {
        [p.x, p.y, p.vx, p.vy, p.mass, p.brightness].iter().all(|value| value.is_finite())
    };
    assert!(particles.iter().all(finite));
    let far = |x: f32| Particle { x: lib(x), ..particles[0] };
    let mut apart = vec![far(-3.0e38), far(3.0e38)];
    reference::step(&mut apart, SimParams { count: 2, ..params });
    assert!(!apart.iter().all(finite));
}
