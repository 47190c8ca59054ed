use gravity::binary32::Binary32;
use gravity::reference::{calculate_accelerations, step};
use gravity::types::{Particle, SimParams};

fn lib(value: f32) -> Binary32 {
    Binary32::from_bits(value.to_bits())
}

fn native(value: Binary32) -> f32 {
    f32::from_bits(value.to_bits())
}

fn params(count: u32) -> SimParams {
    SimParams {
        count,
        dt: lib(0.01),
        gravity: lib(15.0),
        softening_squared: lib(9.0),
    }
}

fn particle(x: f32, y: f32, vx: f32, vy: f32, mass: f32) -> Particle {
    Particle {
        x: lib(x),
        y: lib(y),
        vx: lib(vx),
        vy: lib(vy),
        mass: lib(mass),
        brightness: lib(0.8),
        alive: 1,
        padding: 0,
    }
}

fn close(left: Binary32, right: f32, tolerance: f32) {
    let left = native(left);
    assert!((left - right).abs() <= tolerance, "{left} != {right}");
}

#[test]
fn one_particle_moves_without_acceleration() {
    let mut particles = vec![particle(1.0, -2.0, 3.0, 4.0, 5.0)];
    step(&mut particles, params(1));
    close(particles[0].x, 1.03, 1e-6);
    close(particles[0].y, -1.96, 1e-6);
    close(particles[0].vx, 3.0, 1e-6);
    close(particles[0].vy, 4.0, 1e-6);
}

#[test]
fn empty_input_is_safe() {
    let mut particles = Vec::new();
    step(&mut particles, params(0));
    assert!(particles.is_empty());
}

#[test]
fn two_body_step_has_finite_values() {
    let mut particles = vec![
        particle(-10.0, 0.0, 0.0, 1.0, 5.0),
        particle(10.0, 0.0, 0.0, -1.0, 7.0),
    ];
    step(&mut particles, params(2));
    assert_eq!(particles.len(), 2);
    for particle in particles {
        assert!(particle.x.is_finite());
        assert!(particle.y.is_finite());
        assert!(particle.vx.is_finite());
        assert!(particle.vy.is_finite());
    }
}

#[test]
fn collision_is_resolved_before_final_kick() {
    let mut particles = vec![
        particle(0.0, 0.0, 0.0, 0.0, 4.0),
        particle(0.1, 0.0, 0.0, 0.0, 4.0),
    ];
    step(&mut particles, params(2));
    assert_eq!(particles.len(), 1);
    close(particles[0].mass, 8.0, 1e-6);
    assert!(particles[0].vx.is_finite());
}

#[derive(Clone, Copy)]
struct Plain {
    x: f32,
    y: f32,
    vx: f32,
    vy: f32,
    mass: f32,
    alive: bool,
}

fn plain_accelerations(particles: &[Plain], count: usize) -> Vec<(f32, f32)> {
    let count = particles.len().min(count);
    (0..count)
        .map(|i| {
            let current = particles[i];
            let (mut ax, mut ay) = (0.0_f32, 0.0_f32);
            if !current.alive {
                return (ax, ay);
            }
            for j in 0..count {
                let other = particles[j];
                if i == j || !other.alive {
                    continue;
                }
                let dx = other.x - current.x;
                let dy = other.y - current.y;
                let squared: f32 = dx * dx + dy * dy;
                let inverse = squared.mul_add(1.0, 9.0).sqrt().recip();
                let factor = 15.0 * other.mass * inverse * inverse * inverse;
                ax += dx * factor;
                ay += dy * factor;
            }
            (ax, ay)
        })
        .collect()
}

fn scattered(count: usize, seed: u32) -> Vec<Plain> {
    let mut state = seed;
    let mut next = || {
        state = state.wrapping_mul(1_664_525).wrapping_add(1_013_904_223);
        (state >> 8) as f32 / 16_777_216.0
    };
    (0..count)
        .map(|_| Plain {
            x: next() * 2000.0 - 1000.0,
            y: next() * 2000.0 - 1000.0,
            vx: next() * 40.0 - 20.0,
            vy: next() * 40.0 - 20.0,
            mass: 5.0 + 15.0 * next(),
            alive: next() > 0.1,
        })
        .collect()
}

fn converted(particles: &[Plain]) -> Vec<Particle> {
    particles
        .iter()
        .map(|p| Particle {
            alive: p.alive as u32,
            ..particle(p.x, p.y, p.vx, p.vy, p.mass)
        })
        .collect()
}

#[test]
fn accelerations_agree_with_the_hardware() {
    for count in [0, 1, 2, 7, 20] {
        let particles = scattered(count, 7 + count as u32);
        for limit in [0, 3, count, 100] {
            let expected = plain_accelerations(&particles, limit);
            let got = calculate_accelerations(&converted(&particles), params(limit as u32));
            assert_eq!(got.len(), expected.len());
            for (got, expected) in got.iter().zip(&expected) {
                assert_eq!(got.0.to_bits(), expected.0.to_bits());
                assert_eq!(got.1.to_bits(), expected.1.to_bits());
            }
        }
    }
}

#[test]
fn steps_of_scattered_particles_agree_with_the_hardware() {
    let mut plain = scattered(12, 99);
    let mut particles = converted(&plain);
    for _ in 0..5 {
        step(&mut particles, params(12));
        for round in 0..2 {
            let accelerations = plain_accelerations(&plain, 12);
            for (p, (ax, ay)) in plain.iter_mut().zip(accelerations) {
                if !p.alive {
                    continue;
                }
                let half_dt = 0.5 * 0.01_f32;
                p.vx += ax * half_dt;
                p.vy += ay * half_dt;
                if round == 0 {
                    p.x += p.vx * 0.01;
                    p.y += p.vy * 0.01;
                }
            }
        }
        assert_eq!(particles.len(), plain.len());
        for (got, expected) in particles.iter().zip(&plain) {
            assert_eq!(got.x.to_bits(), expected.x.to_bits());
            assert_eq!(got.y.to_bits(), expected.y.to_bits());
            assert_eq!(got.vx.to_bits(), expected.vx.to_bits());
            assert_eq!(got.vy.to_bits(), expected.vy.to_bits());
        }
    }
}

#[test]
fn particles_that_do_not_take_part_are_only_kicked_at_the_end() {
    let mut particles = vec![
        particle(-100.0, 0.0, 1.0, 0.0, 5.0),
        particle(100.0, 0.0, 2.0, 0.0, 7.0),
    ];
    step(&mut particles, params(1));
    assert_eq!(native(particles[1].x), 100.0);
    assert!(native(particles[1].vx) < 2.0);
}

#[test]
fn steps_conserve_mass_where_the_bits_suffice() {
    let mut particles: Vec<Particle> = (0..30)
        .map(|i| particle(1.5 * (i % 6) as f32, 1.5 * (i / 6) as f32, 0.0, 0.0, 6.0 + 0.25 * i as f32))
        .collect();
    let total: f32 = particles.iter().map(|p| native(p.mass)).sum();
    for _ in 0..3 {
        let count = particles.len();
        step(&mut particles, params(count as u32));
        assert!(particles.len() <= count && !particles.is_empty());
        assert!(particles.iter().all(|p| p.alive == 1));
        assert_eq!(particles.iter().map(|p| native(p.mass)).sum::<f32>(), total);
    }
    assert!(particles.len() < 30);
}
