use gravity::binary32::Binary32;
use gravity::collision::{find_collision, merge_colliding_particles, merge_pair};
use gravity::types::Particle;

fn lib(value: f32) -> Binary32 {
    Binary32::from_bits(value.to_bits())
}

fn native(value: Binary32) -> f32 {
    f32::from_bits(value.to_bits())
}

fn particle_radius(mass: f32) -> f32 {
    native(gravity::collision::particle_radius(lib(mass)))
}

fn particle(x: f32, y: f32, mass: f32, vx: f32, brightness: f32) -> Particle {
    Particle {
        x: lib(x),
        y: lib(y),
        vx: lib(vx),
        vy: lib(0.0),
        mass: lib(mass),
        brightness: lib(brightness),
        alive: 1,
        padding: 0,
    }
}

fn close(left: Binary32, right: f32) {
    let left = native(left);
    assert!((left - right).abs() < 1e-5, "{left} != {right}");
}

#[test]
fn non_overlapping_particles_are_unchanged() {
    let mut particles = vec![
        particle(0.0, 0.0, 4.0, 2.0, 0.5),
        particle(10.0, 0.0, 4.0, -1.0, 0.8),
    ];
    let original = particles.clone();
    merge_colliding_particles(&mut particles);
    assert_eq!(particles, original);
}

#[test]
fn merge_conserves_weighted_properties() {
    let radius_sum = particle_radius(4.0) + particle_radius(9.0);
    let mut particles = vec![
        particle(0.0, 0.0, 4.0, 2.0, 0.5),
        particle(radius_sum, 0.0, 9.0, -1.0, 1.0),
    ];
    merge_colliding_particles(&mut particles);
    assert_eq!(particles.len(), 1);
    let merged = particles[0];
    close(merged.mass, 13.0);
    close(merged.x, 9.0 * radius_sum / 13.0);
    close(merged.vx, -1.0 / 13.0);
    close(merged.brightness, 11.0 / 13.0);
    assert_eq!(merged.alive, 1);
}

#[test]
fn merged_particle_is_rechecked_for_collision_chain() {
    let first_radius = particle_radius(4.0);
    let second_radius = particle_radius(4.0);
    let merged_radius = particle_radius(8.0);
    let second_x = first_radius + second_radius - 1e-3;
    let third_x = 2.0 * merged_radius - 0.1;
    let mut particles = vec![
        particle(0.0, 0.0, 4.0, 0.0, 1.0),
        particle(second_x, 0.0, 4.0, 0.0, 1.0),
        particle(third_x, 0.0, 4.0, 0.0, 1.0),
    ];
    merge_colliding_particles(&mut particles);
    assert_eq!(particles.len(), 1);
    close(particles[0].mass, 12.0);
}

#[test]
fn touching_radii_merge() {
    let distance = particle_radius(4.0) + particle_radius(4.0);
    let mut particles = vec![
        particle(0.0, 0.0, 4.0, 0.0, 1.0),
        particle(distance, 0.0, 4.0, 0.0, 1.0),
    ];
    merge_colliding_particles(&mut particles);
    assert_eq!(particles.len(), 1);
}

#[test]
fn radius_is_the_scaled_root_of_the_mass() {
    assert_eq!(particle_radius(4.0), 0.45 * 4.0_f32.sqrt());
    assert_eq!(particle_radius(7.3), 0.45 * 7.3_f32.sqrt());
}

#[test]
fn merging_nothing_is_safe() {
    let mut particles = Vec::new();
    merge_colliding_particles(&mut particles);
    assert!(particles.is_empty());
}

#[test]
fn dead_particles_are_not_taken_in() {
    let mut dead = particle(0.0, 0.0, 4.0, 0.0, 1.0);
    dead.alive = 0;
    let live = particle(0.0, 0.0, 4.0, 0.0, 1.0);
    let mut particles = vec![live, dead];
    assert_eq!(find_collision(&particles, 0), None);
    merge_colliding_particles(&mut particles);
    assert_eq!(particles, vec![live]);
}

#[test]
fn dead_particles_are_dropped() {
    let mut dead = particle(0.0, 0.0, 4.0, 0.0, 1.0);
    dead.alive = 0;
    let near = particle(0.0, 0.0, 4.0, 0.0, 1.0);
    let far = particle(50.0, 0.0, 4.0, 0.0, 1.0);

    let mut alone = vec![dead];
    merge_colliding_particles(&mut alone);
    assert!(alone.is_empty());

    let mut in_front = vec![dead, near, dead, far, dead];
    merge_colliding_particles(&mut in_front);
    assert_eq!(in_front, vec![near, far]);
}

#[test]
fn the_first_contact_is_found() {
    let particles = vec![
        particle(0.0, 0.0, 4.0, 0.0, 1.0),
        particle(50.0, 0.0, 4.0, 0.0, 1.0),
        particle(0.5, 0.0, 4.0, 0.0, 1.0),
        particle(0.0, 0.5, 4.0, 0.0, 1.0),
    ];
    assert_eq!(find_collision(&particles, 0), Some(2));
    assert_eq!(find_collision(&particles, 1), None);
    assert_eq!(find_collision(&particles, 2), Some(3));
    assert_eq!(find_collision(&particles, 3), None);
}

#[test]
fn the_last_particle_takes_the_place_of_the_one_taken_in() {
    let mut particles = vec![
        particle(0.0, 0.0, 4.0, 0.0, 1.0),
        particle(0.5, 0.0, 12.0, 0.0, 1.0),
        particle(50.0, 0.0, 1.0, 0.0, 1.0),
        particle(90.0, 0.0, 2.0, 0.0, 1.0),
    ];
    merge_pair(&mut particles, 0, 1);
    assert_eq!(particles.len(), 3);
    assert_eq!(native(particles[0].x), 0.375);
    assert_eq!(native(particles[0].mass), 16.0);
    assert_eq!(native(particles[1].x), 90.0);
    assert_eq!(native(particles[2].x), 50.0);
}

#[test]
fn masses_add_up_exactly_where_the_bits_suffice() {
    let mut particles: Vec<Particle> =
        (0..40).map(|i| particle(0.1 * i as f32, 0.0, 5.25 + 0.5 * i as f32, 0.0, 1.0)).collect();
    let total: f32 = particles.iter().map(|p| native(p.mass)).sum();
    merge_colliding_particles(&mut particles);
    assert!(particles.len() < 40);
    let after: f32 = particles.iter().map(|p| native(p.mass)).sum();
    assert_eq!(total, after);
    assert!(particles.iter().all(|p| p.alive == 1));
}

#[test]
fn contact_is_mutual() {
    for offset in [0.5_f32, 1.7, 1.8, 1.81, 2.5] {
        let a = particle(3.0, -1.0, 4.0, 0.0, 1.0);
        let b = particle(3.0 + offset, -1.0, 4.0, 0.0, 1.0);
        assert_eq!(
            find_collision(&[a, b], 0).is_some(),
            find_collision(&[b, a], 0).is_some()
        );
    }
}
