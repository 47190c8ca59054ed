use gravity::binary32::Binary32;
use gravity::bodies::live_bodies;
use gravity::cuda::{Action, CudaBackend, Event, Side, BLOCK_SIZE};
use gravity::error::CudaError;
use gravity::frame::Key;
use gravity::reference;
use gravity::session::{Failure, Session};
use gravity::trails::Trails;
use gravity::types::{Particle, SimParams};

fn lib(value: f32) -> Binary32 {
    Binary32::from_bits(value.to_bits())
}

fn native(value: Binary32) -> f32 {
    f32::from_bits(value.to_bits())
}

fn params(count: u32) -> SimParams {
    SimParams { count, dt: lib(0.01), gravity: lib(15.0), softening_squared: lib(9.0) }
}

fn particle(x: f32, vx: f32, mass: f32) -> Particle {
    Particle {
        x: lib(x),
        y: lib(1.0),
        vx: lib(vx),
        vy: lib(0.5),
        mass: lib(mass),
        brightness: lib(0.8),
        alive: 1,
        padding: 0,
    }
}

fn cloud() -> Vec<Particle> {
    vec![
        particle(-40.0, 1.0, 5.0),
        particle(0.0, 0.0, 9.0),
        particle(0.3, 0.0, 4.0),
        particle(70.0, -2.0, 12.0),
    ]
}

/// A device whose kernels compute as the host does.
struct Device {
    a: Vec<Particle>,
    b: Vec<Particle>,
    launches: u32,
    fail_at: Option<u32>,
}

impl Device {
    fn new(particles: &[Particle]) -> Device {
        Device { a: particles.to_vec(), b: particles.to_vec(), launches: 0, fail_at: None }
    }

    fn buffer(&mut self, side: Side) -> &mut Vec<Particle> {
        match side {
            Side::A => &mut self.a,
            Side::B => &mut self.b,
        }
    }

    fn kick(particles: &mut [Particle], params: SimParams, moves: bool) {
        let count = params.count as usize;
        let accelerations = reference::calculate_accelerations(&particles[..count], params);
        let half_dt = lib(0.5) * params.dt;
        for (p, (ax, ay)) in particles.iter_mut().zip(accelerations) {
            p.vx = p.vx + ax * half_dt;
            p.vy = p.vy + ay * half_dt;
            if moves {
                p.x = p.x + p.vx * params.dt;
                p.y = p.y + p.vy * params.dt;
            }
        }
    }

    fn perform(&mut self, action: Action) -> Event {
        self.launches += 1;
        if self.fail_at == Some(self.launches) {
            return Event::Failed;
        }
        match action {
            Action::Drift { source, destination, grid, block, params } => {
                assert_ne!(source, destination);
                assert_eq!(block, BLOCK_SIZE);
                assert_eq!(grid, params.count.div_ceil(128));
                let mut particles = self.buffer(source)[..params.count as usize].to_vec();
                Device::kick(&mut particles, params, true);
                self.buffer(destination)[..particles.len()].copy_from_slice(&particles);
                Event::Completed
            }
            Action::ReadBack { from, count } => {
                Event::Particles(self.buffer(from)[..count].to_vec())
            }
            Action::Upload { to, particles } => {
                assert_eq!(particles.len(), self.buffer(to).len());
                *self.buffer(to) = particles;
                Event::Completed
            }
            Action::Finish { on, params, .. } => {
                Device::kick(self.buffer(on), params, false);
                Event::Completed
            }
            Action::Restore { particles, accelerations } => {
                assert!(accelerations.iter().all(|a| a.to_bits() == 0));
                assert_eq!(accelerations.len(), particles.len());
                self.a = particles.clone();
                self.b = particles;
                Event::Completed
            }
            Action::Rest => unreachable!(),
        }
    }
}

fn drive(backend: &mut CudaBackend, device: &mut Device, action: Action) {
    let mut action = action;
    while !matches!(action, Action::Rest) {
        let event = device.perform(action);
        action = backend.advance(event);
    }
}

fn snapshot(backend: &CudaBackend, device: &mut Device) -> Vec<Particle> {
    match device.perform(backend.snapshot()) {
        Event::Particles(particles) => particles,
        _ => unreachable!(),
    }
}

#[test]
fn device_steps_follow_the_host() {
    let mut expected = cloud();
    let mut backend = CudaBackend::new(&expected);
    let mut device = Device::new(&expected);
    for _ in 0..5 {
        let count = backend.active_count() as u32;
        let action = backend.step(params(count)).unwrap();
        drive(&mut backend, &mut device, action);
        reference::step(&mut expected, params(count));
        assert_eq!(backend.active_count(), expected.len());
        assert_eq!(snapshot(&backend, &mut device), expected);
    }
    assert_eq!(expected.len(), 3);
    assert_eq!(device.a.len(), 4);
}

#[test]
fn other_counts_are_refused() {
    let mut backend = CudaBackend::new(&cloud());
    assert_eq!(
        backend.step(params(3)).err(),
        Some(CudaError::CountMismatch { active: 4, requested: 3 })
    );
    assert_eq!(
        backend.reset(&cloud()[..2]).err(),
        Some(CudaError::CountMismatch { active: 4, requested: 2 })
    );
    assert_eq!(backend.active_count(), 4);
}

#[test]
fn a_backend_without_particles_rests() {
    let mut backend = CudaBackend::new(&[]);
    assert_eq!(backend.active_count(), 0);
    assert!(matches!(backend.step(params(0)), Ok(Action::Rest)));
}

#[test]
fn a_reset_restores_all_particles() {
    let mut backend = CudaBackend::new(&cloud());
    let mut device = Device::new(&cloud());
    let action = backend.step(params(4)).unwrap();
    drive(&mut backend, &mut device, action);
    assert_eq!(backend.active_count(), 3);
    let action = backend.reset(&cloud()).unwrap();
    drive(&mut backend, &mut device, action);
    assert_eq!(backend.active_count(), 4);
    assert_eq!(snapshot(&backend, &mut device), cloud());
    assert_eq!(device.b, cloud());
}

#[test]
fn a_failed_step_leaves_the_backend_ready() {
    for fail_at in 1..=4 {
        let mut backend = CudaBackend::new(&cloud());
        let mut device = Device::new(&cloud());
        device.fail_at = Some(fail_at);
        let action = backend.step(params(4)).unwrap();
        drive(&mut backend, &mut device, action);
        let count = backend.active_count();
        assert_eq!(count, if fail_at > 2 { 3 } else { 4 });
        let action = backend.step(params(count as u32)).unwrap();
        drive(&mut backend, &mut device, action);
        assert_eq!(backend.active_count(), if fail_at == 3 { 2 } else { 3 });
    }
}

fn run(session: &mut Session, device: &mut Device, action: Action) {
    let mut action = action;
    while !matches!(action, Action::Rest) {
        let event = device.perform(action);
        action = session.resume(event);
    }
}

fn step_params(count: usize) -> SimParams {
    SimParams {
        count: count as u32,
        dt: lib(1.0 / 120.0),
        gravity: lib(15.0),
        softening_squared: lib(9.0),
    }
}

#[test]
fn a_session_takes_the_steps_that_are_due() {
    let mut session = Session::new(cloud());
    let mut device = Device::new(&cloud());
    assert_eq!(native(session.controls().zoom), 0.35);
    let action = session.start_frame(lib(0.02));
    run(&mut session, &mut device, action);
    let mut expected = cloud();
    for _ in 0..2 {
        let count = expected.len();
        reference::step(&mut expected, step_params(count));
    }
    assert_eq!(session.snapshot(), &expected[..]);
    assert_eq!(session.failure(), None);
}

#[test]
fn a_frame_takes_eight_steps_at_the_most() {
    let mut session = Session::new(cloud());
    let mut device = Device::new(&cloud());
    session.press(Key::Up);
    session.press(Key::Up);
    let action = session.start_frame(lib(1.0));
    run(&mut session, &mut device, action);
    let mut expected = cloud();
    for _ in 0..8 {
        let count = expected.len();
        reference::step(&mut expected, step_params(count));
    }
    assert_eq!(session.snapshot(), &expected[..]);
    let action = session.start_frame(lib(0.0001));
    run(&mut session, &mut device, action);
    assert_eq!(session.snapshot(), &expected[..]);
}

#[test]
fn failures_pause_and_keep_the_last_snapshot() {
    for fail_at in 1..=4 {
        let mut session = Session::new(cloud());
        let mut device = Device::new(&cloud());
        device.fail_at = Some(fail_at);
        let action = session.start_frame(lib(0.009));
        run(&mut session, &mut device, action);
        assert!(session.controls().paused);
        assert_eq!(session.failure(), Some(Failure::Step));
        assert_eq!(session.snapshot(), &cloud()[..]);
        let action = session.start_frame(lib(0.009));
        assert!(matches!(action, Action::Rest));
        assert_eq!(session.snapshot(), &cloud()[..]);
        device.fail_at = None;
        session.press(Key::Space);
        let action = session.start_frame(lib(0.009));
        run(&mut session, &mut device, action);
        assert_eq!(session.failure(), None);
        assert!(!session.controls().paused);
        assert!(session.snapshot().len() < cloud().len());
    }
    let mut session = Session::new(cloud());
    let mut device = Device::new(&cloud());
    device.fail_at = Some(5);
    let action = session.start_frame(lib(0.009));
    run(&mut session, &mut device, action);
    assert!(session.controls().paused);
    assert_eq!(session.failure(), Some(Failure::ReadBack));
    assert_eq!(session.snapshot(), &cloud()[..]);
    device.fail_at = None;
    let action = session.start_frame(lib(0.009));
    run(&mut session, &mut device, action);
    assert!(session.controls().paused);
    assert_eq!(session.failure(), None);
    assert_eq!(session.snapshot().len(), 3);
}

#[test]
fn a_paused_session_only_reads() {
    let mut session = Session::new(cloud());
    let mut device = Device::new(&cloud());
    session.press(Key::Space);
    let action = session.start_frame(lib(0.1));
    assert!(matches!(action, Action::ReadBack { from: Side::A, count: 4 }));
    run(&mut session, &mut device, action);
    assert_eq!(device.launches, 1);
    assert_eq!(session.snapshot(), &cloud()[..]);
}

#[test]
fn sessions_start_over() {
    let mut session = Session::new(cloud());
    let mut device = Device::new(&cloud());
    let action = session.start_frame(lib(0.02));
    run(&mut session, &mut device, action);
    assert_eq!(session.snapshot().len(), 3);
    let action = session.reset(&cloud());
    run(&mut session, &mut device, action);
    let action = session.start_frame(lib(0.0));
    run(&mut session, &mut device, action);
    assert_eq!(session.snapshot(), &cloud()[..]);
    let action = session.reset(&cloud()[..1]);
    assert!(matches!(action, Action::Rest));
    assert_eq!(session.failure(), Some(Failure::Reset));
    assert!(session.controls().paused);
    device.launches = 0;
    device.fail_at = Some(1);
    let action = session.reset(&cloud());
    run(&mut session, &mut device, action);
    assert_eq!(session.failure(), Some(Failure::Reset));
    device.fail_at = None;
    let action = session.reset(&cloud());
    run(&mut session, &mut device, action);
    assert_eq!(session.failure(), None);
}

#[test]
fn the_wheel_zooms_a_session() {
    let mut session = Session::new(cloud());
    session.scroll(lib(2.0));
    assert_eq!(native(session.controls().zoom), 0.7);
    session.scroll(lib(100.0));
    assert_eq!(native(session.controls().zoom), 5.0);
}

#[test]
fn only_live_particles_have_bodies() {
    let mut particles = cloud();
    particles[1].alive = 0;
    let bodies = live_bodies(&particles);
    assert_eq!(bodies.len(), 3);
    assert_eq!(native(bodies[0].x), -40.0);
    assert_eq!(native(bodies[1].x), native(particles[2].x));
    assert_eq!(native(bodies[2].velocity_x), -2.0);
}

#[test]
fn trails_follow_the_frames_that_run() {
    let mut session = Session::new(cloud());
    let mut trails = Trails::new();
    session.trace_frame(&mut trails, false, lib(0.05));
    assert_eq!(trails.points.len(), 0);
    session.trace_frame(&mut trails, true, lib(0.05));
    assert_eq!(trails.points.len(), 2 * cloud().len());
    let action = session.reset(&cloud()[..1]);
    assert!(matches!(action, Action::Rest));
    session.trace_reset(&mut trails);
    assert_eq!(trails.points.len(), 2 * cloud().len());
    let mut device = Device::new(&cloud());
    let action = session.reset(&cloud());
    run(&mut session, &mut device, action);
    session.trace_reset(&mut trails);
    assert_eq!(trails.points.len(), 0);
}
