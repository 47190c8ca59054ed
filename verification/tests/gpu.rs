use gravity::binary32::Binary32;
use gravity::bytes::words_of;
use gravity::frame::Key;
use gravity::gpu::{
    ceil_div, create_particles, read_records, record_bytes, sim_control_bytes, sim_params_bytes,
    tangential_speed,
};
use gravity::gpu_layout::{
    choose_format, collision_layout, fragment_entry, make_collision_bind_group,
    make_render_bind_group, make_sim_bind_group, render_layout, sim_layout, storage_entry,
    uniform_entry, vertex_entry, BindingKind, Buffer, Kernel, Visibility,
};
use gravity::gpu_state::{
    plan_passes, respond, Draw, Pass, PassKind, Response, State, Statistics, Surface,
};
use gravity::spawn::{spawn_particle, Sample};

fn lib(value: f32) -> Binary32 {
    Binary32::from_bits(value.to_bits())
}

fn native(value: Binary32) -> f32 {
    f32::from_bits(value.to_bits())
}

fn bytes_of(words: &[u32]) -> Vec<u8> {
    words.iter().flat_map(|word| word.to_ne_bytes()).collect()
}

fn record(x: f32, mass: f32, alive: f32) -> [u32; 8] {
    [x, -x, 1.0, 2.0, mass, 0.75, alive, 0.0].map(f32::to_bits)
}

#[test]
fn groups_cover_the_items() {
    assert_eq!(ceil_div(0, 64), 0);
    assert_eq!(ceil_div(1, 64), 1);
    assert_eq!(ceil_div(64, 64), 1);
    assert_eq!(ceil_div(65, 64), 2);
    assert_eq!(ceil_div(10_000, 64), 157);
    assert_eq!(ceil_div(32_768, 64), 512);
    assert_eq!(ceil_div(u32::MAX as usize, 1), u32::MAX);
    assert_eq!(ceil_div(u32::MAX as usize, 2), 1 << 31);
    assert_eq!(ceil_div((1 << 32) + 5, 3), 2);
}

#[test]
fn words_are_cast_to_bytes() {
    let words = [0x0102_0304, 0, u32::MAX, 0x8000_0001];
    assert_eq!(record_bytes(&words), bytes_of(&words));
    assert_eq!(record_bytes(&[]), Vec::<u8>::new());
}

#[test]
fn bytes_are_read_back_as_words() {
    let words = [0x0102_0304, 0, u32::MAX, 0x8000_0001];
    let bytes = bytes_of(&words);
    assert_eq!(words_of(&bytes), words);
    assert_eq!(words_of(&bytes[1..]).len(), 3);
    assert_eq!(words_of(&bytes[..7]), words[..1]);
    assert_eq!(words_of(&record_bytes(&words)), words);
}

#[test]
fn parameters_have_their_layout() {
    let params = words_of(&sim_params_bytes(10_000));
    let floats = [1.0 / 120.0, 15.0, 9.0, 0.45_f32].map(f32::to_bits);
    assert_eq!(params[..2], [10_000, 0]);
    assert_eq!(params[2..6], floats);
    assert_eq!(params[6..], [0; 6]);
    assert_eq!(sim_params_bytes(1).len(), 48);
    assert_eq!(words_of(&sim_control_bytes(7)), [7, 7, 0, 0, 0, 0, 0, 0]);
}

fn sample(i: usize) -> Sample {
    let angle = 0.9 * i as f32;
    let distance = 100.0 + 40.0 * i as f32;
    Sample {
        cosine: lib(angle.cos()),
        sine: lib(angle.sin()),
        distance: lib(distance),
        tangential_speed: tangential_speed(lib(distance)),
        radial_speed: lib(0.002),
        mass: lib(6.0 + i as f32),
        brightness: lib(0.6),
    }
}

#[test]
fn speeds_grow_with_the_root_of_the_distance() {
    for distance in [0.0_f32, 300.0, 700.0, 1200.0] {
        let expected = 6.0 + 14.0 * (distance / 1200.0).sqrt();
        assert_eq!(native(tangential_speed(lib(distance))), expected);
    }
}

#[test]
fn clouds_are_written_as_records() {
    let samples: Vec<Sample> = (0..12).map(sample).collect();
    let (words, total) = create_particles(&samples);
    let bodies: Vec<_> = samples.iter().map(|&s| spawn_particle(s, true)).collect();
    let mass = bodies.iter().fold(0.0_f32, |sum, b| sum + native(b.mass));
    assert_eq!(native(total), mass);
    assert_eq!(words.len(), 8 * 12);
    let mean = |value: &dyn Fn(usize) -> f32| {
        (0..12).fold(0.0_f32, |sum, i| sum + value(i) * native(bodies[i].mass)) / mass
    };
    let cx = mean(&|i| native(bodies[i].x));
    let cy = mean(&|i| native(bodies[i].y));
    let mx = mean(&|i| native(bodies[i].velocity_x));
    let my = mean(&|i| native(bodies[i].velocity_y));
    for (i, words) in words.chunks_exact(8).enumerate() {
        let body = &bodies[i];
        let expected = [
            native(body.x) - cx,
            native(body.y) - cy,
            native(body.velocity_x) - mx,
            native(body.velocity_y) - my,
            native(body.mass),
            native(body.brightness),
            1.0,
            0.0,
        ];
        assert_eq!(words, expected.map(f32::to_bits));
    }
    let records = read_records(&words);
    assert_eq!(records.len(), 12);
    assert_eq!(native(records[3].mass), 9.0);
    assert_eq!(native(records[3].alive), 1.0);
    assert_eq!(read_records(&words[..15]).len(), 1);
}

#[test]
fn layouts_and_groups_fit() {
    assert_eq!(uniform_entry(3).binding, 3);
    assert_eq!(uniform_entry(3).kind, BindingKind::Uniform);
    assert_eq!(storage_entry(2, true).kind, BindingKind::Storage { read_only: true });
    let groups = [
        (sim_layout(), make_sim_bind_group(true)),
        (collision_layout(), make_collision_bind_group(false)),
        (render_layout(), make_render_bind_group(true)),
    ];
    for (entries, buffers) in &groups {
        assert_eq!(entries.len(), buffers.len());
        for (i, (entry, buffer)) in entries.iter().zip(buffers).enumerate() {
            assert_eq!(entry.binding as usize, i);
            match entry.kind {
                BindingKind::Uniform => assert!(buffer.usage().uniform),
                BindingKind::Storage { .. } => assert!(buffer.usage().storage),
            }
        }
    }
    assert_eq!(groups[0].1[1..3], [Buffer::Particles(true), Buffer::Particles(false)]);
    assert_eq!(groups[1].1[2], Buffer::CollisionMeta);
    assert_eq!(groups[2].0[0].visibility, Visibility::Vertex);
    assert_eq!(groups[2].1[2], Buffer::Trails);
}

#[test]
fn buffers_have_their_sizes() {
    assert_eq!(Buffer::Particles(false).size(10_000), 320_000);
    assert_eq!(Buffer::Staging.size(10_000), 320_000);
    assert_eq!(Buffer::SimParams.size(10_000), 48);
    assert_eq!(Buffer::SimControl.size(10_000), 32);
    assert_eq!(Buffer::RenderParams.size(10_000), 32);
    assert_eq!(Buffer::CollisionMeta.size(10_000), 32768 * 4 + 10000 * 4 + 10000 * 4 + 4 * 4);
    assert_eq!(Buffer::Trails.size(10_000), 28_800_000);
    assert_eq!(Buffer::Particles(true).label(), "particles B");
    assert!(Buffer::Staging.usage().map_read);
    assert!(!Buffer::Staging.usage().storage);
}

#[test]
fn programs_have_their_names() {
    assert_eq!(Kernel::MergeCompact.label(), "collision merge");
    assert_eq!(Kernel::MergeCompact.entry_point(), "merge_compact");
    assert!(Kernel::MergeCompact.uses_grid());
    assert_eq!(Kernel::MergeSerial.entry_point(), "merge_serial");
    assert!(!Kernel::MergeSerial.uses_grid());
    assert_eq!(vertex_entry(true), "trail_vertex");
    assert_eq!(fragment_entry(true), "trail_fragment");
    assert_eq!(fragment_entry(false), "particle_fragment");
    assert_eq!(PassKind::SecondRound.label(), "collision grid round 2");
}

#[test]
fn srgb_formats_are_preferred() {
    assert_eq!(choose_format(&[false, true, true]), 1);
    assert_eq!(choose_format(&[true]), 0);
    assert_eq!(choose_format(&[false, false]), 0);
}

fn shape(passes: &[Pass]) -> Vec<(PassKind, bool, Vec<(Kernel, u32)>)> {
    passes
        .iter()
        .map(|pass| {
            let dispatches = pass.dispatches.iter().map(|d| (d.kernel, d.groups)).collect();
            (pass.kind, pass.source, dispatches)
        })
        .collect()
}

#[test]
fn large_clouds_merge_in_two_rounds() {
    let round = |kind, source| {
        (
            kind,
            source,
            vec![
                (Kernel::Clear, 512),
                (Kernel::BuildGrid, 157),
                (Kernel::Propose, 157),
                (Kernel::MergeCompact, 157),
                (Kernel::Finalize, 1),
            ],
        )
    };
    assert_eq!(
        shape(&plan_passes(10_000, false, 3)),
        vec![
            (PassKind::Integrate, false, vec![(Kernel::Integrate, 157)]),
            round(PassKind::FirstRound, true),
            round(PassKind::SecondRound, false),
            (PassKind::Finish, true, vec![(Kernel::Finish, 157)]),
        ]
    );
}

#[test]
fn small_clouds_merge_in_every_eighth_step() {
    for steps in 0..17 {
        let passes = shape(&plan_passes(2_000, true, steps));
        let merges = passes.iter().filter(|pass| pass.0 == PassKind::SerialMerge).count();
        assert_eq!(merges, (steps % 8 == 0) as usize);
        assert_eq!(passes[0], (PassKind::Integrate, true, vec![(Kernel::Integrate, 32)]));
        assert_eq!(
            passes[passes.len() - 1],
            (PassKind::Finish, false, vec![(Kernel::Finish, 32)])
        );
    }
    let passes = shape(&plan_passes(2_000, true, 8));
    assert_eq!(passes[1], (PassKind::SerialMerge, false, vec![(Kernel::MergeSerial, 1)]));
}

fn state() -> State {
    State::new(3, 1280, 800, lib(40.0))
}

#[test]
fn a_state_starts_with_visible_trails() {
    let state = state();
    assert!(state.controls.trails_enabled);
    assert!(!state.controls.paused);
    assert_eq!(native(state.controls.zoom), 800.0 / (1200.0 * 2.25));
    assert_eq!(State::new(3, 0, 0, lib(1.0)).width, 1);
    assert_eq!(state.statistics.live, 3);
    assert_eq!(state.statistics, Statistics::none(3));
}

#[test]
fn windows_without_area_are_ignored() {
    let mut state = state();
    assert!(!state.resize(0, 100));
    assert_eq!((state.width, state.height), (1280, 800));
    assert!(state.resize(640, 480));
    assert_eq!((state.width, state.height), (640, 480));
}

#[test]
fn frames_take_two_steps_at_the_most() {
    let mut state = state();
    let update = state.update(lib(0.01));
    assert_eq!(update.steps.len(), 1);
    assert!(!update.sample);
    assert_eq!(native(state.accumulator), 0.01 - 1.0 / 120.0);
    assert_eq!(state.physics_steps, 1);
    let update = state.redraw(lib(7.0));
    assert_eq!(update.steps.len(), 2);
    assert!(update.sample);
    assert_eq!(native(state.accumulator), 0.0);
    assert_eq!(state.physics_steps, 3);
    assert_eq!(native(state.trail_clock), 0.01 + 0.1);
    assert_eq!(native(state.trail_accumulator), (0.01_f32 + 0.1) % (1.0 / 45.0));
    assert_eq!(shape(&update.steps[0]), shape(&plan_passes(3, false, 1)));
}

#[test]
fn paused_states_only_count_frames() {
    let mut state = state();
    state.press(Key::Space);
    let update = state.update(lib(0.1));
    assert!(update.steps.is_empty());
    assert!(!update.sample);
    assert_eq!(native(state.trail_clock), 0.0);
    assert_eq!(state.fps_frames, 1);
}

#[test]
fn the_frame_rate_is_measured_over_half_a_second() {
    let mut state = state();
    for _ in 0..4 {
        state.update(lib(0.1));
        assert_eq!(native(state.fps), 0.0);
    }
    state.update(lib(0.15));
    let elapsed = 0.1_f32 + 0.1 + 0.1 + 0.1 + 0.15;
    assert_eq!(native(state.fps), 5.0 / elapsed);
    assert_eq!(state.fps_frames, 0);
    assert_eq!(native(state.fps_elapsed), 0.0);
}

#[test]
fn samples_become_trails_and_statistics() {
    let mut state = state();
    state.update(lib(0.05));
    assert_eq!(state.begin_sample(), Some(Buffer::Particles(false)));
    assert_eq!(state.begin_sample(), None);
    let words = [record(1.0, 4.0, 1.0), record(2.0, 9.0, 0.0), record(3.0, 16.0, 0.5)].concat();
    let upload = state.finish_sample(Some(&words)).unwrap();
    assert!(!state.sample_in_flight);
    assert_eq!(state.trails.len(), 2);
    assert_eq!(upload.len(), 16);
    let expected = [3.0, -3.0, 0.45 * 16.0_f32.sqrt(), 0.75, 0.05, 0.0, 0.0, 0.0];
    assert_eq!(upload[8..], expected.map(f32::to_bits));
    assert_eq!(state.statistics.live, 2);
    assert_eq!(native(state.statistics.largest_mass), 16.0);
    assert_eq!(native(state.statistics.largest_percent), 16.0 / 40.0 * 100.0);
    assert_eq!(native(state.statistics.largest_x), 3.0);
    assert_eq!(native(state.statistics.largest_y), -3.0);
    assert_eq!(native(state.statistics.count_rate), 0.0);
    assert_eq!(native(state.statistics.mass_rate), 0.0);
}

#[test]
fn rates_are_signed_changes_per_second() {
    let mut state = state();
    let first = [record(1.0, 4.0, 1.0), record(2.0, 9.0, 1.0), record(3.0, 16.0, 1.0)].concat();
    state.finish_sample(Some(&first));
    state.update(lib(0.05));
    let second = [record(1.0, 4.0, 1.0), record(2.0, 25.0, 1.0)].concat();
    state.finish_sample(Some(&second));
    assert_eq!(native(state.statistics.count_rate), -1.0 / 0.05);
    assert_eq!(native(state.statistics.mass_rate), 9.0 / 0.05);
    state.finish_sample(Some(&second));
    assert_eq!(native(state.statistics.count_rate), 0.0);
    state.reset(lib(40.0));
    assert_eq!(state.statistics, Statistics::none(3));
}

#[test]
fn statistics_are_sampled_without_trails() {
    let mut state = state();
    state.press(Key::T);
    let words = record(1.0, 4.0, 1.0);
    assert_eq!(state.finish_sample(Some(&words)), None);
    assert!(state.trails.is_empty());
    assert_eq!(state.statistics.live, 1);
}

#[test]
fn hidden_trails_stay_as_they_are() {
    let mut state = state();
    let words = record(1.0, 4.0, 1.0);
    state.finish_sample(Some(&words));
    assert_eq!(state.trails.len(), 1);
    state.press(Key::T);
    for _ in 0..410 {
        assert!(state.update(lib(0.1)).sample);
    }
    assert_eq!(state.finish_sample(Some(&words)), None);
    assert_eq!(state.trails.len(), 1);
    assert_eq!(native(state.trails[0].creation_time), 0.0);
}

#[test]
fn failed_samples_change_nothing() {
    let mut state = state();
    state.begin_sample();
    assert_eq!(state.finish_sample(None), None);
    assert!(!state.sample_in_flight);
    assert_eq!(state.statistics, Statistics::none(3));
    assert_eq!(state.begin_sample(), Some(Buffer::Particles(false)));
}

#[test]
fn trails_expire_and_are_limited() {
    let mut state = state();
    let words = [record(1.0, 4.0, 1.0), record(2.0, 9.0, 1.0), record(3.0, 16.0, 1.0)].concat();
    for _ in 0..100 {
        state.finish_sample(Some(&words));
    }
    assert_eq!(state.trails.len(), 3 * 90);
    for _ in 0..410 {
        state.update(lib(0.1));
    }
    state.finish_sample(Some(&words));
    assert_eq!(state.trails.len(), 3);
}

#[test]
fn trails_are_drawn_before_particles() {
    let mut state = state();
    let particles = Draw { trails: false, particles: false, instances: 3 };
    assert_eq!(state.draws(), vec![particles]);
    state.finish_sample(Some(&record(1.0, 4.0, 1.0)));
    let trails = Draw { trails: true, particles: false, instances: 1 };
    assert_eq!(state.draws(), vec![trails, particles]);
    state.press(Key::T);
    assert_eq!(state.draws(), vec![particles]);
    state.update(lib(0.03));
    let words = words_of(&state.render_params_bytes());
    let floats = [1280.0, 800.0, 800.0 / (1200.0 * 2.25), 40.0_f32].map(f32::to_bits);
    assert_eq!(words[..4], floats);
    assert_eq!(words[4..], [3, 1, 0.03_f32.to_bits(), 0]);
}

#[test]
fn surfaces_are_answered() {
    assert_eq!(respond(Surface::Ready), Response::Draw);
    assert_eq!(respond(Surface::Lost), Response::Configure);
    assert_eq!(respond(Surface::Outdated), Response::Configure);
    assert_eq!(respond(Surface::Timeout), Response::Skip);
    assert_eq!(respond(Surface::OutOfMemory), Response::GiveUp);
}

#[test]
fn keys_and_wheel_change_a_state() {
    let mut state = state();
    state.press(Key::Up);
    assert_eq!(native(state.controls.time_scale), 2.0);
    state.press(Key::Down);
    state.press(Key::Down);
    assert_eq!(native(state.controls.time_scale), 0.5);
    state.scroll(lib(1.03));
    assert_eq!(native(state.controls.zoom), (800.0 / (1200.0 * 2.25) * 1.03_f32).clamp(0.05, 5.0));
}
