use gravity::binary32::Binary32;
use gravity::bodies::Body;
use gravity::simd::{
    calculate_accelerations_avx2, find_collision_avx2, horizontal_sum_f32x8,
    merge_colliding_particles_avx2, update_system_simd, Particles,
};
use gravity::wasm::{
    calculate_accelerations, center_of_mass, center_reference_frame, find_collision, largest_mass,
    merge_colliding_particles, total_mass, update_system,
};

fn lib(value: f32) -> Binary32 {
    Binary32::from_bits(value.to_bits())
}

fn native(value: Binary32) -> f32 {
    f32::from_bits(value.to_bits())
}

#[derive(Clone, Copy, Debug, PartialEq)]
struct Plain {
    x: f32,
    y: f32,
    vx: f32,
    vy: f32,
    mass: f32,
    brightness: f32,
}

fn body(p: &Plain) -> Body {
    Body {
        x: lib(p.x),
        y: lib(p.y),
        velocity_x: lib(p.vx),
        velocity_y: lib(p.vy),
        mass: lib(p.mass),
        brightness: lib(p.brightness),
    }
}

fn plain(b: &Body) -> Plain {
    Plain {
        x: native(b.x),
        y: native(b.y),
        vx: native(b.velocity_x),
        vy: native(b.velocity_y),
        mass: native(b.mass),
        brightness: native(b.brightness),
    }
}

fn bodies(particles: &[Plain]) -> Vec<Body> {
    particles.iter().map(body).collect()
}

fn lanes(particles: &[Plain]) -> Particles {
    let mut all = Particles::with_capacity(particles.len());
    for particle in particles {
        all.push(body(particle));
    }
    all
}

fn scattered(count: usize, spread: f32, seed: u32) -> Vec<Plain> {
    let mut state = seed;
    let mut next = || {
        state = state.wrapping_mul(1_664_525).wrapping_add(1_013_904_223);
        (state >> 8) as f32 / 16_777_216.0
    };
    (0..count)
        .map(|_| Plain {
            x: (next() - 0.5) * spread,
            y: (next() - 0.5) * spread,
            vx: next() * 40.0 - 20.0,
            vy: next() * 40.0 - 20.0,
            mass: 5.0 + 15.0 * next(),
            brightness: 0.55 + 0.45 * next(),
        })
        .collect()
}

fn same(got: &[Body], expected: &[Plain]) {
    assert_eq!(got.len(), expected.len());
    for (got, expected) in got.iter().zip(expected) {
        assert_eq!(plain(got), *expected);
    }
}

const G: f32 = 15.0;
const SOFTENING: f32 = 3.0;
const DT: f32 = 1.0 / 120.0;

fn pair_accelerations(p: &[Plain]) -> Vec<(f32, f32)> {
    let mut a = vec![(0.0_f32, 0.0_f32); p.len()];
    for i in 0..p.len() {
        for j in i + 1..p.len() {
            let dx = p[j].x - p[i].x;
            let dy = p[j].y - p[i].y;
            let inverse = 1.0 / (dx * dx + dy * dy + SOFTENING * SOFTENING).sqrt();
            let factor = G * (inverse * inverse * inverse);
            a[i].0 += dx * factor * p[j].mass;
            a[i].1 += dy * factor * p[j].mass;
            a[j].0 -= dx * factor * p[i].mass;
            a[j].1 -= dy * factor * p[i].mass;
        }
    }
    a
}

fn sum8(v: [f32; 8]) -> f32 {
    let s = [v[0] + v[4], v[1] + v[5], v[2] + v[6], v[3] + v[7]];
    (s[0] + s[2]) + (s[1] + s[3])
}

fn lane_accelerations(p: &[Plain]) -> (Vec<f32>, Vec<f32>) {
    let n = p.len();
    let mut ax = vec![0.0_f32; n];
    let mut ay = vec![0.0_f32; n];
    for i in 0..n {
        let (mut lx, mut ly) = ([0.0_f32; 8], [0.0_f32; 8]);
        let (mut sx, mut sy) = (0.0_f32, 0.0_f32);
        let mut j = i + 1;
        while j + 8 <= n {
            for lane in 0..8 {
                let other = p[j + lane];
                let dx = other.x - p[i].x;
                let dy = other.y - p[i].y;
                let squared = dx * dx + (dy * dy + SOFTENING * SOFTENING);
                let inverse = 1.0 / squared.sqrt();
                let common = G * ((inverse * inverse) * inverse);
                let second = common * other.mass;
                lx[lane] += dx * second;
                ly[lane] += dy * second;
                let first = common * p[i].mass;
                ax[j + lane] -= dx * first;
                ay[j + lane] -= dy * first;
            }
            j += 8;
        }
        while j < n {
            let dx = p[j].x - p[i].x;
            let dy = p[j].y - p[i].y;
            let inverse = 1.0 / (dx * dx + dy * dy + SOFTENING * SOFTENING).sqrt();
            let common = G * (inverse * inverse * inverse);
            sx += dx * common * p[j].mass;
            sy += dy * common * p[j].mass;
            ax[j] -= dx * common * p[i].mass;
            ay[j] -= dy * common * p[i].mass;
            j += 1;
        }
        ax[i] += sum8(lx) + sx;
        ay[i] += sum8(ly) + sy;
    }
    (ax, ay)
}

fn contact(p: &[Plain], i: usize) -> Option<usize> {
    (i + 1..p.len()).find(|&j| {
        let dx = p[j].x - p[i].x;
        let dy = p[j].y - p[i].y;
        let reach = 0.45 * p[i].mass.sqrt() + 0.45 * p[j].mass.sqrt();
        dx * dx + dy * dy <= reach * reach
    })
}

fn merge_all(p: &mut Vec<Plain>) {
    let mut i = 0;
    while i < p.len() {
        while let Some(j) = contact(p, i) {
            let (a, b) = (p[i], p[j]);
            let mass = a.mass + b.mass;
            p[i] = Plain {
                x: (a.x * a.mass + b.x * b.mass) / mass,
                y: (a.y * a.mass + b.y * b.mass) / mass,
                vx: (a.vx * a.mass + b.vx * b.mass) / mass,
                vy: (a.vy * a.mass + b.vy * b.mass) / mass,
                mass,
                brightness: (a.brightness * a.mass + b.brightness * b.mass) / mass,
            };
            p.swap_remove(j);
        }
        i += 1;
    }
}

fn update_pairs(p: &mut Vec<Plain>) {
    let a = pair_accelerations(p);
    for (p, a) in p.iter_mut().zip(a) {
        p.vx += a.0 * (DT * 0.5);
        p.vy += a.1 * (DT * 0.5);
        p.x += p.vx * DT;
        p.y += p.vy * DT;
    }
    merge_all(p);
    let a = pair_accelerations(p);
    for (p, a) in p.iter_mut().zip(a) {
        p.vx += a.0 * (DT * 0.5);
        p.vy += a.1 * (DT * 0.5);
    }
}

fn kick_lanes(p: &mut [Plain], ax: &[f32], ay: &[f32], moves: bool) {
    let whole = p.len() / 8 * 8;
    for (i, p) in p.iter_mut().enumerate() {
        if i < whole {
            p.vx += ax[i] * (DT * 0.5);
            p.vy += ay[i] * (DT * 0.5);
        } else {
            p.vx += ax[i] * DT * 0.5;
            p.vy += ay[i] * DT * 0.5;
        }
        if moves {
            p.x += p.vx * DT;
            p.y += p.vy * DT;
        }
    }
}

fn update_lanes(p: &mut Vec<Plain>) {
    let (ax, ay) = lane_accelerations(p);
    kick_lanes(p, &ax, &ay, true);
    merge_all(p);
    let (ax, ay) = lane_accelerations(p);
    kick_lanes(p, &ax, &ay, false);
}

#[test]
fn lanes_are_added_in_a_fixed_order() {
    let values = [1.0e8_f32, 1.5, -3.25, 0.1, -1.0e8, 7.0, 0.3, 1.0e-3];
    assert_eq!(native(horizontal_sum_f32x8(&values.map(lib))), sum8(values));
    let powers = [1.0_f32, 2.0, 4.0, 8.0, 16.0, 32.0, 64.0, 128.0];
    assert_eq!(native(horizontal_sum_f32x8(&powers.map(lib))), 255.0);
}

#[test]
fn lane_accelerations_agree_with_the_hardware() {
    for count in [0, 1, 2, 8, 9, 10, 17, 30] {
        let particles = scattered(count, 2000.0, 3 + count as u32);
        let (expected_x, expected_y) = lane_accelerations(&particles);
        let mut ax = vec![lib(5.0); 3];
        let mut ay = Vec::new();
        calculate_accelerations_avx2(&lanes(&particles), &mut ax, &mut ay);
        assert_eq!(ax.iter().map(|&a| native(a)).collect::<Vec<_>>(), expected_x);
        assert_eq!(ay.iter().map(|&a| native(a)).collect::<Vec<_>>(), expected_y);
    }
}

#[test]
fn pair_accelerations_agree_with_the_hardware() {
    for count in [0, 1, 2, 9, 20] {
        let particles = scattered(count, 2000.0, 5 + count as u32);
        let mut got = vec![(lib(1.0), lib(2.0)); 4];
        calculate_accelerations(&bodies(&particles), &mut got);
        let got: Vec<(f32, f32)> = got.iter().map(|a| (native(a.0), native(a.1))).collect();
        assert_eq!(got, pair_accelerations(&particles));
    }
}

#[test]
fn lane_steps_agree_with_the_hardware() {
    for (count, spread) in [(0, 100.0), (1, 100.0), (7, 300.0), (24, 60.0), (35, 400.0)] {
        let mut expected = scattered(count, spread, 11 + count as u32);
        let mut particles = lanes(&expected);
        let (mut ax, mut ay) = (Vec::new(), Vec::new());
        for _ in 0..4 {
            update_lanes(&mut expected);
            update_system_simd(&mut particles, &mut ax, &mut ay, lib(DT));
            same(&particles.to_bodies(), &expected);
            assert_eq!(ax.len(), expected.len());
        }
        assert!(count != 24 || expected.len() < count);
    }
}

#[test]
fn pair_steps_agree_with_the_hardware() {
    for (count, spread) in [(0, 100.0), (1, 100.0), (6, 300.0), (20, 50.0)] {
        let mut expected = scattered(count, spread, 21 + count as u32);
        let mut particles = bodies(&expected);
        let mut accelerations = Vec::new();
        for _ in 0..4 {
            update_pairs(&mut expected);
            update_system(&mut particles, &mut accelerations, lib(DT));
            same(&particles, &expected);
        }
        assert!(count < 20 || expected.len() < count);
    }
}

#[test]
fn contacts_are_found_in_and_behind_the_lanes() {
    for position in 1..20 {
        let mut particles = scattered(20, 1.0, 1);
        for (i, particle) in particles.iter_mut().enumerate() {
            particle.x = 1000.0 * i as f32;
        }
        particles[position].x = 0.5;
        particles[position].y = particles[0].y;
        let all = lanes(&particles);
        assert_eq!(find_collision_avx2(&all, 0), Some(position));
        assert_eq!(find_collision(&bodies(&particles), 0), Some(position));
        assert_eq!(find_collision_avx2(&all, position), None);
    }
}

#[test]
fn both_layouts_merge_alike() {
    let mut expected = scattered(40, 40.0, 77);
    let mut all = lanes(&expected);
    let mut pairs = bodies(&expected);
    merge_all(&mut expected);
    assert!(expected.len() < 40);
    merge_colliding_particles_avx2(&mut all);
    merge_colliding_particles(&mut pairs);
    same(&all.to_bodies(), &expected);
    same(&pairs, &expected);
}

#[test]
fn particles_are_pushed_and_removed() {
    let all = scattered(5, 10.0, 4);
    let mut particles = lanes(&all);
    assert_eq!(particles.len(), 5);
    assert!(!particles.is_empty());
    particles.swap_remove(1);
    assert_eq!(particles.len(), 4);
    assert_eq!(plain(&particles.get(1)), all[4]);
    particles.swap_remove(3);
    assert_eq!(plain(&particles.get(2)), all[2]);
    assert!(Particles::with_capacity(3).is_empty());
}

#[test]
fn masses_and_centres_agree_with_the_hardware() {
    let all = scattered(33, 500.0, 8);
    let total = all.iter().fold(0.0_f32, |sum, p| sum + p.mass);
    let largest = all.iter().map(|p| p.mass).fold(0.0_f32, f32::max);
    let center_x = all.iter().fold(0.0_f32, |sum, p| sum + p.x * p.mass) / total;
    let center_y = all.iter().fold(0.0_f32, |sum, p| sum + p.y * p.mass) / total;
    let particles = lanes(&all);
    assert_eq!(native(particles.total_mass()), total);
    assert_eq!(native(particles.largest_mass()), largest);
    let center = particles.center_of_mass();
    assert_eq!((native(center.0), native(center.1)), (center_x, center_y));
    let pairs = bodies(&all);
    assert_eq!(native(total_mass(&pairs)), total);
    assert_eq!(native(largest_mass(&pairs)), largest);
    let center = center_of_mass(&pairs);
    assert_eq!((native(center.0), native(center.1)), (center_x, center_y));
}

#[test]
fn nothing_has_no_mass_and_no_centre() {
    let none = Particles::with_capacity(0);
    assert_eq!(native(none.total_mass()), 0.0);
    assert_eq!(native(none.largest_mass()), 0.0);
    assert_eq!(none.center_of_mass(), (lib(0.0), lib(0.0)));
    assert_eq!(center_of_mass(&[]), (lib(0.0), lib(0.0)));
}

#[test]
fn the_reference_frame_follows_the_centre() {
    let all = scattered(12, 500.0, 9);
    let total = all.iter().fold(0.0_f32, |sum, p| sum + p.mass);
    let x = all.iter().fold(0.0_f32, |sum, p| sum + p.x * p.mass) / total;
    let y = all.iter().fold(0.0_f32, |sum, p| sum + p.y * p.mass) / total;
    let vx = all.iter().fold(0.0_f32, |sum, p| sum + p.vx * p.mass) / total;
    let vy = all.iter().fold(0.0_f32, |sum, p| sum + p.vy * p.mass) / total;
    let expected: Vec<Plain> = all
        .iter()
        .map(|p| Plain { x: p.x - x, y: p.y - y, vx: p.vx - vx, vy: p.vy - vy, ..*p })
        .collect();
    let mut particles = lanes(&all);
    particles.center_reference_frame();
    same(&particles.to_bodies(), &expected);
    let mut pairs = bodies(&all);
    center_reference_frame(&mut pairs);
    same(&pairs, &expected);
}

#[test]
fn weightless_particles_keep_their_frame() {
    let mut all = scattered(3, 500.0, 2);
    for particle in &mut all {
        particle.mass = 0.0;
    }
    let mut particles = lanes(&all);
    particles.center_reference_frame();
    same(&particles.to_bodies(), &all);
    for particle in &mut all {
        particle.mass = 1.0e-8;
    }
    let mut pairs = bodies(&all);
    center_reference_frame(&mut pairs);
    same(&pairs, &all);
}
