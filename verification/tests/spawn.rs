use gravity::binary32::Binary32;
use gravity::simd;
use gravity::spawn::{
    center_reference_frame, clockwise_count, create_particles, initial_clockwise,
    initial_clockwise_fraction, initial_tangential_speed, make_particle, normalized_radius,
    sample_spawn_distance, spawn_particle, spawn_particles, Sample,
    CENTER_CONCENTRATION_EXPONENT, CENTER_CONCENTRATION_STRENGTH, CLOCKWISE_ROTATION_WEIGHT,
    COUNTERCLOCKWISE_ROTATION_WEIGHT, DEVICE_CLOCKWISE_ROTATION_WEIGHT,
    DEVICE_COUNTERCLOCKWISE_ROTATION_WEIGHT, DEVICE_TANGENTIAL_SPEED_RADIUS_EXPONENT,
    INITIAL_RADIAL_SPEED_MAX, INITIAL_TANGENTIAL_SPEED_MAX, INITIAL_TANGENTIAL_SPEED_MIN,
    INITIAL_TANGENTIAL_SPEED_RADIUS_EXPONENT, MAX_PARTICLE_MASS, MIN_PARTICLE_BRIGHTNESS,
    MIN_PARTICLE_MASS, SPAWN_RADIUS,
};
use gravity::types::Particle;
use gravity::wasm;

fn lib(value: f32) -> Binary32 {
    Binary32::from_bits(value.to_bits())
}

fn native(value: Binary32) -> f32 {
    f32::from_bits(value.to_bits())
}

fn sample(angle: f32, distance: f32, mass: f32) -> Sample {
    Sample {
        cosine: lib(angle.cos()),
        sine: lib(angle.sin()),
        distance: lib(distance),
        tangential_speed: lib(10.0),
        radial_speed: lib(0.005),
        mass: lib(mass),
        brightness: lib(0.75),
    }
}

fn samples(count: usize) -> Vec<Sample> {
    (0..count)
        .map(|i| sample(0.7 * i as f32, 30.0 * i as f32 + 5.0, 5.0 + (i % 7) as f32))
        .collect()
}

#[test]
fn settings_are_the_documented_numbers() {
    assert_eq!(f32::from_bits(SPAWN_RADIUS), 1200.0);
    assert_eq!(f32::from_bits(CENTER_CONCENTRATION_STRENGTH), 0.75);
    assert_eq!(f32::from_bits(CENTER_CONCENTRATION_EXPONENT), 1.40);
    assert_eq!(f32::from_bits(DEVICE_CLOCKWISE_ROTATION_WEIGHT), 0.8);
    assert_eq!(f32::from_bits(DEVICE_COUNTERCLOCKWISE_ROTATION_WEIGHT), 0.2);
    assert_eq!(f32::from_bits(CLOCKWISE_ROTATION_WEIGHT), 1.0);
    assert_eq!(f32::from_bits(COUNTERCLOCKWISE_ROTATION_WEIGHT), 0.0);
    assert_eq!(f32::from_bits(INITIAL_TANGENTIAL_SPEED_MIN), 6.0);
    assert_eq!(f32::from_bits(INITIAL_TANGENTIAL_SPEED_MAX), 20.0);
    assert_eq!(f32::from_bits(DEVICE_TANGENTIAL_SPEED_RADIUS_EXPONENT), 1.0);
    assert_eq!(f32::from_bits(INITIAL_TANGENTIAL_SPEED_RADIUS_EXPONENT), 0.5);
    assert_eq!(f32::from_bits(INITIAL_RADIAL_SPEED_MAX), 0.01);
    assert_eq!(f32::from_bits(MIN_PARTICLE_MASS), 5.0);
    assert_eq!(f32::from_bits(MAX_PARTICLE_MASS), 20.0);
    assert_eq!(f32::from_bits(MIN_PARTICLE_BRIGHTNESS), 0.55);
}

#[test]
fn distances_agree_with_the_hardware_and_stay_inside_the_disk() {
    for i in 0..=1000 {
        let fraction = i as f32 / 1000.0;
        let biased = fraction.powf(1.40);
        let uniform = fraction.sqrt();
        let expected = (uniform + (biased - uniform) * 0.75) * 1200.0;
        let got = native(sample_spawn_distance(lib(fraction), lib(biased)));
        assert_eq!(got, expected);
        assert!((0.0..=1200.0).contains(&got));
    }
    assert_eq!(native(sample_spawn_distance(lib(1.0), lib(1.0))), 1200.0);
}

#[test]
fn radii_are_normalized_and_limited() {
    assert_eq!(native(normalized_radius(lib(600.0))), 0.5);
    assert_eq!(native(normalized_radius(lib(1300.0))), 1.0);
    assert_eq!(native(normalized_radius(lib(-3.0))), 0.0);
}

#[test]
fn speeds_grow_from_the_centre_to_the_edge() {
    assert_eq!(native(initial_tangential_speed(lib(0.0))), 6.0);
    assert_eq!(native(initial_tangential_speed(lib(0.5))), 13.0);
    assert_eq!(native(initial_tangential_speed(lib(1.0))), 20.0);
    for i in 0..=100 {
        let factor = i as f32 / 100.0;
        let speed = native(initial_tangential_speed(lib(factor)));
        assert_eq!(speed, 6.0 + 14.0 * factor);
        assert!((6.0..=20.0).contains(&speed));
    }
}

#[test]
fn the_split_of_directions_is_exact() {
    let fraction = initial_clockwise_fraction(lib(0.8), lib(0.2));
    assert_eq!(clockwise_count(1000, fraction), 800);
    assert_eq!((0..10_000).filter(|&i| initial_clockwise(i, 10_000)).count(), 8000);
    assert!(initial_clockwise(7999, 10_000));
    assert!(!initial_clockwise(8000, 10_000));
    let all = initial_clockwise_fraction(
        Binary32::from_bits(CLOCKWISE_ROTATION_WEIGHT),
        Binary32::from_bits(COUNTERCLOCKWISE_ROTATION_WEIGHT),
    );
    assert_eq!(native(all), 1.0);
    assert_eq!(clockwise_count(5000, all), 5000);
}

#[test]
fn clockwise_is_downward_on_the_right_side() {
    let right = Sample { radial_speed: lib(0.0), ..sample(0.0, 100.0, 5.0) };
    let clockwise = spawn_particle(right, true);
    assert_eq!((native(clockwise.x), native(clockwise.y)), (100.0, 0.0));
    assert_eq!((native(clockwise.velocity_x), native(clockwise.velocity_y)), (0.0, 10.0));
    let counterclockwise = spawn_particle(right, false);
    assert_eq!(native(counterclockwise.velocity_y), -10.0);
}

#[test]
fn particles_agree_with_the_hardware() {
    for (i, sample) in samples(20).into_iter().enumerate() {
        let (rx, ry) = (native(sample.cosine), native(sample.sine));
        let distance = native(sample.distance);
        for clockwise in [true, false] {
            let (tx, ty) = if clockwise { (-ry, rx) } else { (ry, -rx) };
            let body = spawn_particle(sample, clockwise);
            assert_eq!(native(body.x), rx * distance);
            assert_eq!(native(body.y), ry * distance);
            assert_eq!(native(body.velocity_x), tx * 10.0 + rx * 0.005);
            assert_eq!(native(body.velocity_y), ty * 10.0 + ry * 0.005);
            assert_eq!(native(body.mass), 5.0 + (i % 7) as f32);
            assert_eq!(native(body.brightness), 0.75);
        }
    }
}

#[test]
fn the_first_particles_are_clockwise() {
    let drawn = samples(10);
    let bodies = spawn_particles(&drawn, 4);
    assert_eq!(bodies.len(), 10);
    for (i, body) in bodies.iter().enumerate() {
        assert_eq!(*body, spawn_particle(drawn[i], i < 4));
    }
}

#[test]
fn device_particles_live() {
    let particle = make_particle(samples(3)[2], 9, 10);
    let body = spawn_particle(samples(3)[2], false);
    assert_eq!(particle.alive, 1);
    assert_eq!(particle.padding, 0);
    assert_eq!(particle.x, body.x);
    assert_eq!(particle.vx, body.velocity_x);
    assert_eq!(particle.mass, body.mass);
    let clockwise = make_particle(samples(3)[2], 7, 10);
    assert_eq!(clockwise.vx, spawn_particle(samples(3)[2], true).velocity_x);
}

#[test]
fn clouds_start_around_their_centre() {
    let drawn = samples(40);
    let particles = create_particles(&drawn);
    assert_eq!(particles.len(), 40);
    assert!(particles.iter().all(|p| p.alive == 1));
    let mass: f32 = particles.iter().map(|p| native(p.mass)).sum();
    let center: f32 = particles.iter().map(|p| native(p.x) * native(p.mass)).sum::<f32>() / mass;
    let drift: f32 = particles.iter().map(|p| native(p.vx) * native(p.mass)).sum::<f32>() / mass;
    assert!(center.abs() < 1e-3);
    assert!(drift.abs() < 1e-4);
    let lanes = simd::create_particles(&drawn, lib(1.0));
    let pairs = wasm::create_particles(&drawn, lib(1.0));
    assert_eq!(lanes.to_bodies(), pairs);
    assert_eq!(pairs.len(), 40);
    let first = spawn_particle(drawn[0], true);
    let second = spawn_particle(drawn[1], true);
    let shift = native(first.x) - native(pairs[0].x);
    assert!((native(second.x) - native(pairs[1].x) - shift).abs() < 1e-3);
}

#[test]
fn weightless_device_particles_keep_their_frame() {
    let mut particles = vec![Particle { x: lib(3.0), ..Particle::zeroed() }];
    center_reference_frame(&mut particles);
    assert_eq!(native(particles[0].x), 3.0);
    let mut none: Vec<Particle> = Vec::new();
    center_reference_frame(&mut none);
    assert!(none.is_empty());
}

#[test]
fn drawn_particles_are_in_range() {
    let extremes = [0.0, 1.0e-30, 0.25, 0.5, 0.999_999_94];
    for (i, fraction) in extremes.into_iter().enumerate() {
        for turn in 0..50 {
            let angle = turn as f32 * 0.13;
            let drawn = Sample {
                cosine: lib(angle.cos()),
                sine: lib(angle.sin()),
                distance: sample_spawn_distance(lib(fraction), lib(fraction.powf(1.4))),
                tangential_speed: initial_tangential_speed(lib(extremes[4 - i])),
                radial_speed: lib(if turn % 2 == 0 { 0.01 } else { -0.01 }),
                mass: lib(5.0 + 15.0 * fraction),
                brightness: lib(0.55 + 0.45 * fraction),
            };
            for clockwise in [true, false] {
                let body = spawn_particle(drawn, clockwise);
                for place in [body.x, body.y] {
                    assert!(native(place).abs() <= 1200.0);
                }
                for speed in [body.velocity_x, body.velocity_y] {
                    assert!(native(speed).abs() <= 20.01);
                }
                assert!((5.0..=20.0).contains(&native(body.mass)));
                assert!((0.55..=1.0).contains(&native(body.brightness)));
            }
        }
    }
}

#[test]
fn centred_clouds_balance() {
    let wide = |value: Binary32| f64::from(native(value));
    let drawn = samples(40);
    let pairs = wasm::create_particles(&drawn, lib(1.0));
    let particles = create_particles(&drawn);
    let sums = pairs.iter().fold([0.0; 4], |sums, body| {
        let mass = wide(body.mass);
        [
            sums[0] + mass * wide(body.x),
            sums[1] + mass * wide(body.y),
            sums[2] + mass * wide(body.velocity_x),
            sums[3] + mass * wide(body.velocity_y),
        ]
    });
    let device_sums = particles.iter().fold([0.0; 4], |sums, particle| {
        let mass = wide(particle.mass);
        [
            sums[0] + mass * wide(particle.x),
            sums[1] + mass * wide(particle.y),
            sums[2] + mass * wide(particle.vx),
            sums[3] + mass * wide(particle.vy),
        ]
    });
    for sums in [sums, device_sums] {
        // The mass is about 300, the places reach to 1200 and the speeds to 10.
        assert!(sums[0].abs() < 0.1 && sums[1].abs() < 0.1);
        assert!(sums[2].abs() < 0.001 && sums[3].abs() < 0.001);
    }
    let off_centre = drawn.iter().enumerate().fold(0.0, |sum, (i, sample)| {
        let body = spawn_particle(*sample, i < 40);
        sum + wide(body.mass) * wide(body.x)
    });
    assert!(off_centre.abs() > 100.0);
}
