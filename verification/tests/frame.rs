use gravity::binary32::Binary32;
use gravity::bodies::Body;
use gravity::frame::{
    faster, initial_zoom, is_due, plan_steps, saved_up, slower, wheel_notch, zoomed, Controls, Key,
    FRAME_PHYSICS_MAX, FRAME_TIME_MAX, PHYSICS_DT, TIME_SCALE_MAX, TIME_SCALE_MIN,
    TRAIL_SAMPLE_INTERVAL, VIEW_MARGIN, ZOOM_BASE, ZOOM_MAX, ZOOM_MIN,
};
use gravity::simd;
use gravity::simulation::{Cloud, SimdCloud, Simulation, WasmCloud};
use gravity::wasm;

fn lib(value: f32) -> Binary32 {
    Binary32::from_bits(value.to_bits())
}

fn native(value: Binary32) -> f32 {
    f32::from_bits(value.to_bits())
}

#[test]
fn limits_are_the_documented_numbers() {
    assert_eq!(f32::from_bits(PHYSICS_DT), 1.0 / 120.0);
    assert_eq!(f32::from_bits(TIME_SCALE_MIN), 0.125);
    assert_eq!(f32::from_bits(TIME_SCALE_MAX), 4.0);
    assert_eq!(f32::from_bits(ZOOM_MIN), 0.05);
    assert_eq!(f32::from_bits(ZOOM_MAX), 5.0);
    assert_eq!(f32::from_bits(ZOOM_BASE), 1.03);
    assert_eq!(f32::from_bits(VIEW_MARGIN), 2.25);
    assert_eq!(f32::from_bits(FRAME_TIME_MAX), 0.1);
    assert_eq!(f32::from_bits(FRAME_PHYSICS_MAX), 0.05);
    assert_eq!(f32::from_bits(TRAIL_SAMPLE_INTERVAL), 1.0 / 45.0);
    assert_eq!(simd::PARTICLE_COUNT, 10_000);
    assert_eq!(wasm::PARTICLE_COUNT, 2_000);
}

#[test]
fn time_scales_double_and_halve_within_limits() {
    let mut scale = lib(1.0);
    for expected in [2.0, 4.0, 4.0] {
        scale = faster(scale);
        assert_eq!(native(scale), expected);
    }
    for expected in [2.0, 1.0, 0.5, 0.25, 0.125, 0.125] {
        scale = slower(scale);
        assert_eq!(native(scale), expected);
    }
    for scale in [0.125_f32, 0.3, 0.77, 1.0, 1.9, 2.0] {
        assert_eq!(native(slower(faster(lib(scale)))), scale);
    }
    for scale in [0.25_f32, 0.3, 1.0, 3.3, 4.0] {
        assert_eq!(native(faster(slower(lib(scale)))), scale);
    }
}

#[test]
fn zoom_stays_within_limits() {
    assert_eq!(native(zoomed(lib(1.0), lib(1.03))), 1.0 * 1.03_f32);
    assert_eq!(native(zoomed(lib(4.99), lib(1.03))), 5.0);
    assert_eq!(native(zoomed(lib(0.0501), lib(0.9))), 0.05);
    assert_eq!(native(wheel_notch(lib(3.0))), 1.0);
    assert_eq!(native(wheel_notch(lib(-2.0))), -1.0);
    assert_eq!(native(wheel_notch(lib(0.25))), 0.25);
    assert_eq!(native(initial_zoom(lib(1280.0), lib(800.0))), 800.0 / (1200.0 * 2.25));
}

#[test]
fn keys_change_the_controls() {
    let controls = Controls::new(lib(0.5));
    assert!(!controls.paused);
    assert!(!controls.trails_enabled);
    assert_eq!(native(controls.time_scale), 1.0);
    assert!(controls.pressed(Key::Space).paused);
    assert!(!controls.pressed(Key::Space).pressed(Key::Space).paused);
    assert!(controls.pressed(Key::T).trails_enabled);
    assert_eq!(native(controls.pressed(Key::Up).time_scale), 2.0);
    assert_eq!(native(controls.pressed(Key::Down).time_scale), 0.5);
    assert_eq!(native(controls.scrolled(lib(2.0)).zoom), 1.0);
}

fn plan(saved: f32, most: u32) -> (u32, f32) {
    let mut saved = saved;
    let mut done = 0;
    while saved >= 1.0 / 120.0 && done < most {
        saved -= 1.0 / 120.0;
        done += 1;
    }
    if done == most {
        saved = 0.0;
    }
    (done, saved)
}

#[test]
fn steps_are_planned_as_the_time_allows() {
    for saved in [0.0_f32, 0.001, 0.008, 1.0 / 120.0, 0.0167, 0.02, 0.05, 0.2, 3.0, f32::NAN] {
        for most in [1, 2, 4, 8] {
            let (steps, left) = plan_steps(lib(saved), most);
            let expected = plan(saved, most);
            assert_eq!(steps, expected.0);
            assert_eq!(native(left).to_bits(), expected.1.to_bits());
            assert!(steps <= most);
            assert!(!is_due(left));
        }
    }
}

#[test]
fn long_frames_count_for_a_limited_time() {
    assert_eq!(native(saved_up(lib(0.001), lib(0.02), lib(0.05), lib(2.0))), 0.001 + 0.02 * 2.0);
    assert_eq!(native(saved_up(lib(0.0), lib(0.08), lib(0.05), lib(4.0))), 0.05 * 4.0);
}

fn pair() -> Vec<Body> {
    [(-50.0, 1.0), (50.0, -1.0)]
        .iter()
        .map(|&(x, vy)| Body {
            x: lib(x),
            y: lib(0.0),
            velocity_x: lib(0.0),
            velocity_y: lib(vy),
            mass: lib(8.0),
            brightness: lib(0.7),
        })
        .collect()
}

fn lanes() -> SimdCloud {
    let mut particles = simd::Particles::with_capacity(2);
    for body in pair() {
        particles.push(body);
    }
    SimdCloud::new(particles)
}

#[test]
fn a_frame_takes_the_steps_that_are_due() {
    let mut simulation = Simulation::new(WasmCloud::new(pair()), lib(0.3));
    let mut expected = pair();
    let mut accelerations = Vec::new();
    simulation.advance(lib(0.02));
    for _ in 0..2 {
        wasm::update_system(&mut expected, &mut accelerations, lib(1.0 / 120.0));
    }
    assert_eq!(simulation.cloud.particles(), expected);
    let left = 0.02_f32 - 1.0 / 120.0 - 1.0 / 120.0;
    assert_eq!(native(simulation.accumulated_time), left);
    assert!(simulation.trails.points.is_empty());
    simulation.advance(lib(0.003));
    assert_eq!(simulation.trails.points.len(), 2);
}

#[test]
fn a_frame_takes_no_more_steps_than_allowed() {
    let mut simulation = Simulation::new(lanes(), lib(0.3));
    simulation.controls = simulation.controls.pressed(Key::Up).pressed(Key::Up);
    simulation.advance(lib(5.0));
    let mut expected = simd::Particles::with_capacity(2);
    for body in pair() {
        expected.push(body);
    }
    let (mut ax, mut ay) = (Vec::new(), Vec::new());
    for _ in 0..8 {
        simd::update_system_simd(&mut expected, &mut ax, &mut ay, lib(1.0 / 120.0));
    }
    assert_eq!(simulation.cloud.particles(), expected.to_bodies());
    assert_eq!(native(simulation.accumulated_time), 0.0);
    assert_eq!(simulation.trails.points.len(), 2 * 4);
    assert_eq!(native(simulation.trails.clock.time()), 0.1);
    assert_eq!(SimdCloud::max_physics_steps_per_frame(), 8);
    assert_eq!(WasmCloud::max_physics_steps_per_frame(), 4);
}

#[test]
fn nothing_happens_while_paused() {
    let mut simulation = Simulation::new(lanes(), lib(0.3));
    simulation.controls = simulation.controls.pressed(Key::Space);
    simulation.advance(lib(0.1));
    assert_eq!(simulation.cloud.particles(), pair());
    assert!(simulation.trails.points.is_empty());
    assert_eq!(native(simulation.accumulated_time), 0.0);
}

#[test]
fn a_reset_keeps_the_controls() {
    let mut simulation = Simulation::new(WasmCloud::new(pair()), lib(0.3));
    simulation.controls = simulation.controls.pressed(Key::T).pressed(Key::Up);
    simulation.advance(lib(0.1));
    simulation.reset(WasmCloud::new(Vec::new()));
    assert!(simulation.cloud.particles().is_empty());
    assert!(simulation.trails.points.is_empty());
    assert_eq!(native(simulation.trails.clock.time()), 0.0);
    assert_eq!(native(simulation.accumulated_time), 0.0);
    assert!(simulation.controls.trails_enabled);
    assert_eq!(native(simulation.controls.time_scale), 2.0);
}

#[test]
fn the_display_shows_masses_and_shares() {
    let cloud = lanes();
    let readout = cloud.readout(lib(0.8));
    assert_eq!(readout.particles, 2);
    assert_eq!(native(readout.total_mass), 16.0);
    assert_eq!(native(readout.largest_mass), 8.0);
    assert_eq!(native(readout.largest_mass_percent), 50.0);
    assert_eq!(readout.center_of_mass, (lib(0.0), lib(0.0)));
    assert_eq!(native(readout.clockwise_percent), 0.8 * 100.0);
    assert_eq!(native(readout.counterclockwise_percent), 100.0 - 0.8 * 100.0);
    assert_eq!(WasmCloud::new(pair()).readout(lib(0.8)), readout);
    let empty = WasmCloud::new(Vec::new()).readout(lib(1.0));
    assert_eq!(native(empty.largest_mass_percent), 0.0);
    assert_eq!(empty.center_of_mass, (lib(0.0), lib(0.0)));
}
