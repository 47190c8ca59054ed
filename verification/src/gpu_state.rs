//! A simulation on a graphics device, as far as the host keeps track of it: which programs run on
//! which buffers, when particles are read back, what trails and statistics they give, and what is
//! drawn.

use std::collections::VecDeque;
use vstd::prelude::*;
use crate::binary32;
use crate::binary32::{Binary32, HALF, ONE, ZERO};
use crate::bytes;
use crate::bytes::cast_words;
use crate::collision::particle_radius;
use crate::frame;
use crate::frame::{
    initial_zoom, plan_steps, saved_up, Controls, Key, FRAME_TIME_MAX, TRAIL_SAMPLE_INTERVAL,
    ZOOM_MAX, ZOOM_MIN,
};
use crate::gpu;
use crate::gpu::{ceil_div, is_live, read_records, Record};
use crate::gpu_layout::{Buffer, Kernel, COLLISION_GRID_SIZE, MAX_PARTICLE_COUNT, TRAIL_MAX_SAMPLES};
use crate::interface::HUNDRED;
use crate::trails;
use crate::trails::{TrailPoint, TRAIL_MAX_AGE};

verus! {

/// The number of invocations of a workgroup.
pub const WORKGROUP_SIZE: u32 = 64;

/// How many steps a frame takes at the most, so that a stalled frame cannot queue up work without
/// bound.
pub const MAX_PHYSICS_STEPS_PER_FRAME: u32 = 2;

/// The longest time that the physics takes from one frame: 0.02.
pub const FRAME_PHYSICS_MAX: u32 = 0x3CA3_D70A;

/// The largest cloud that is merged one pair after the other.
pub const COLLISION_MAX_PARTICLES: usize = 2_000;

/// In which steps such a cloud is merged: every eighth.
pub const COLLISION_INTERVAL: u64 = 8;

/// What a compute pass is for.
#[derive(Clone, Copy, Debug, PartialEq, Eq, Structural)]
pub enum PassKind {
    Integrate,
    SerialMerge,
    FirstRound,
    SecondRound,
    Finish,
}

impl PassKind {
    /// The name of the pass.
    pub fn label(self) -> (label: &'static str)
        ensures
            label@ == match self {
                PassKind::Integrate => "integrate"@,
                PassKind::SerialMerge => "serial collision merge"@,
                PassKind::FirstRound => "collision grid round 1"@,
                PassKind::SecondRound => "collision grid round 2"@,
                PassKind::Finish => "finish"@,
            },
    {
        match self {
            PassKind::Integrate => "integrate",
            PassKind::SerialMerge => "serial collision merge",
            PassKind::FirstRound => "collision grid round 1",
            PassKind::SecondRound => "collision grid round 2",
            PassKind::Finish => "finish",
        }
    }
}

/// A program and the number of workgroups that run it.
#[derive(Clone, Copy, Debug, PartialEq, Eq, Structural)]
pub struct Dispatch {
    pub kernel: Kernel,
    pub groups: u32,
}

/// A compute pass: programs that run one after the other on the bind group that reads one of the
/// particle buffers.
pub struct Pass {
    pub kind: PassKind,
    pub source: bool,
    pub dispatches: Vec<Dispatch>,
}

/// What a [`Pass`] says.
pub struct PassPlan {
    pub kind: PassKind,
    pub source: bool,
    pub dispatches: Seq<Dispatch>,
}

impl View for Pass {
    type V = PassPlan;

    open spec fn view(&self) -> PassPlan {
        PassPlan { kind: self.kind, source: self.source, dispatches: self.dispatches@ }
    }
}

/// What some passes say.
pub open spec fn plans(passes: Seq<Pass>) -> Seq<PassPlan> {
    passes.map(|i: int, pass: Pass| pass@)
}

/// A pass of one program.
pub open spec fn single(kind: PassKind, source: bool, kernel: Kernel, groups: int) -> PassPlan {
    PassPlan { kind, source, dispatches: seq![Dispatch { kernel, groups: groups as u32 }] }
}

/// A round on the collision grid.
pub open spec fn grid_round(kind: PassKind, source: bool, count: usize) -> PassPlan {
    let all = gpu::groups(count, WORKGROUP_SIZE) as u32;
    PassPlan {
        kind,
        source,
        dispatches: seq![
            Dispatch {
                kernel: Kernel::Clear,
                groups: gpu::groups(COLLISION_GRID_SIZE, WORKGROUP_SIZE) as u32,
            },
            Dispatch { kernel: Kernel::BuildGrid, groups: all },
            Dispatch { kernel: Kernel::Propose, groups: all },
            Dispatch { kernel: Kernel::MergeCompact, groups: all },
            Dispatch { kernel: Kernel::Finalize, groups: 1 },
        ],
    }
}

/// The passes that merge particles in a step: two rounds on the collision grid; for a small
/// cloud, one pair after the other in every eighth step.
pub open spec fn merging_passes(count: usize, current: bool, steps: u64) -> Seq<PassPlan> {
    if count <= COLLISION_MAX_PARTICLES {
        if steps % COLLISION_INTERVAL == 0 {
            seq![single(PassKind::SerialMerge, !current, Kernel::MergeSerial, 1)]
        } else {
            Seq::empty()
        }
    } else {
        seq![
            grid_round(PassKind::FirstRound, !current, count),
            grid_round(PassKind::SecondRound, current, count),
        ]
    }
}

/// The passes of a step: drift, merge, final kick.
pub open spec fn step_passes(count: usize, current: bool, steps: u64) -> Seq<PassPlan> {
    let all = gpu::groups(count, WORKGROUP_SIZE);
    seq![single(PassKind::Integrate, current, Kernel::Integrate, all)] + merging_passes(
        count,
        current,
        steps,
    ) + seq![single(PassKind::Finish, !current, Kernel::Finish, all)]
}

/// The passes of a step of a large cloud read what the one before has written, from the particles
/// at the start to those at the end, which lie in the same buffer.
pub proof fn law_passes_hand_the_particles_on(count: usize, current: bool, steps: u64)
    requires
        count > COLLISION_MAX_PARTICLES,
    ensures
        ({
            let passes = step_passes(count, current, steps);
            &&& passes.len() == 4
            &&& passes[0].source == current
            &&& forall|i: int|
                0 <= i < 3 ==> (#[trigger] passes[i + 1]).source == !passes[i].source
            &&& !passes[3].source == current
        }),
{
    let passes = step_passes(count, current, steps);
    assert(passes[0].source == current);
    assert(passes[1].source == !current);
    assert(passes[2].source == current);
    assert(passes[3].source == !current);
}

/// A small cloud is merged in every eighth step and not in between, and the final kick reads what
/// the drift has written.
pub proof fn law_small_clouds_are_merged_in_every_eighth_step(
    count: usize,
    current: bool,
    steps: u64,
)
    requires
        count <= COLLISION_MAX_PARTICLES,
    ensures
        ({
            let passes = step_passes(count, current, steps);
            &&& passes.len() == if steps % 8 == 0 {
                3int
            } else {
                2
            }
            &&& passes[0].source == current
            &&& passes.last().source == !current
            &&& steps % 8 == 0 ==> passes[1].kind is SerialMerge && passes[1].source == !current
        }),
{
}

/// A pass of one program.
fn single_pass(kind: PassKind, source: bool, kernel: Kernel, groups: u32) -> (pass: Pass)
    ensures
        pass@ == single(kind, source, kernel, groups as int),
{
    let pass = Pass { kind, source, dispatches: vec![Dispatch { kernel, groups }] };
    assert(pass.dispatches@ == seq![Dispatch { kernel, groups }]);
    pass
}

/// A round on the collision grid.
fn grid_pass(kind: PassKind, source: bool, count: usize) -> (pass: Pass)
    ensures
        pass@ == grid_round(kind, source, count),
{
    let all = ceil_div(count, WORKGROUP_SIZE);
    Pass {
        kind,
        source,
        dispatches: vec![
            Dispatch {
                kernel: Kernel::Clear,
                groups: ceil_div(COLLISION_GRID_SIZE, WORKGROUP_SIZE),
            },
            Dispatch { kernel: Kernel::BuildGrid, groups: all },
            Dispatch { kernel: Kernel::Propose, groups: all },
            Dispatch { kernel: Kernel::MergeCompact, groups: all },
            Dispatch { kernel: Kernel::Finalize, groups: 1 },
        ],
    }
}

/// The passes of a step.
pub fn plan_passes(count: usize, current: bool, steps: u64) -> (passes: Vec<Pass>)
    ensures
        plans(passes@) == step_passes(count, current, steps),
{
    let all = ceil_div(count, WORKGROUP_SIZE);
    let mut passes: Vec<Pass> = Vec::new();
    passes.push(single_pass(PassKind::Integrate, current, Kernel::Integrate, all));
    if count <= COLLISION_MAX_PARTICLES {
        if steps % COLLISION_INTERVAL == 0 {
            passes.push(single_pass(PassKind::SerialMerge, !current, Kernel::MergeSerial, 1));
        }
    } else {
        passes.push(grid_pass(PassKind::FirstRound, !current, count));
        passes.push(grid_pass(PassKind::SecondRound, current, count));
    }
    passes.push(single_pass(PassKind::Finish, !current, Kernel::Finish, all));
    assert(plans(passes@) == step_passes(count, current, steps));
    passes
}

/// What the display says of the particles that were read back last.
#[derive(Clone, Copy, Debug, PartialEq)]
pub struct Statistics {
    pub live: usize,
    pub largest_mass: Binary32,
    /// The largest mass in percent of the mass that the simulation started with.
    pub largest_percent: Binary32,
    pub largest_x: Binary32,
    pub largest_y: Binary32,
    /// How the number of live particles and the largest mass change per second.
    pub count_rate: Binary32,
    pub mass_rate: Binary32,
    /// When the particles were read back.
    pub sampled_at: Option<Binary32>,
}

/// How many of the first particles live.
pub open spec fn live_among_first(records: Seq<Record>, upto: int) -> nat
    decreases upto,
{
    if upto <= 0 {
        0
    } else {
        live_among_first(records, upto - 1) + if is_live(records[upto - 1]) {
            1nat
        } else {
            0
        }
    }
}

/// The heaviest live particle among the first ones; the first of several.
pub open spec fn heaviest_among_first(records: Seq<Record>, upto: int) -> Option<Record>
    decreases upto,
{
    if upto <= 0 {
        None
    } else {
        let record = records[upto - 1];
        match heaviest_among_first(records, upto - 1) {
            None => if is_live(record) {
                Some(record)
            } else {
                None
            },
            Some(best) => if is_live(record) && best.mass.less(record.mass) {
                Some(record)
            } else {
                Some(best)
            },
        }
    }
}

/// The change of a number per second; zero where no time has passed since an earlier sample.
#[verifier::allow_in_spec]
pub fn rate(before: Binary32, after: Binary32, earlier: Option<Binary32>, now: Binary32) -> Binary32
    returns
        (match earlier {
            Some(time) => if Binary32::from_bits(ZERO).less(now - time) {
                (after - before) / (now - time)
            } else {
                Binary32::from_bits(ZERO)
            },
            None => Binary32::from_bits(ZERO),
        }),
{
    match earlier {
        Some(time) => {
            let passed = now - time;
            if Binary32::from_bits(ZERO).less(passed) {
                (after - before) / passed
            } else {
                Binary32::from_bits(ZERO)
            }
        },
        None => Binary32::from_bits(ZERO),
    }
}

impl Statistics {
    /// The statistics of a fresh cloud, before any particles were read back: all of them live.
    #[verifier::allow_in_spec]
    pub fn none(count: usize) -> Statistics
        returns
            (Statistics {
                live: count,
                largest_mass: Binary32::from_bits(ZERO),
                largest_percent: Binary32::from_bits(ZERO),
                largest_x: Binary32::from_bits(ZERO),
                largest_y: Binary32::from_bits(ZERO),
                count_rate: Binary32::from_bits(ZERO),
                mass_rate: Binary32::from_bits(ZERO),
                sampled_at: None,
            }),
    {
        Statistics {
            live: count,
            largest_mass: Binary32::from_bits(ZERO),
            largest_percent: Binary32::from_bits(ZERO),
            largest_x: Binary32::from_bits(ZERO),
            largest_y: Binary32::from_bits(ZERO),
            count_rate: Binary32::from_bits(ZERO),
            mass_rate: Binary32::from_bits(ZERO),
            sampled_at: None,
        }
    }

    /// The statistics after some particles were read back.
    pub open spec fn sampled(
        self,
        records: Seq<Record>,
        total_mass: Binary32,
        now: Binary32,
    ) -> Statistics {
        let live = live_among_first(records, records.len() as int);
        let zero = Binary32::from_bits(ZERO);
        let (mass, x, y) = match heaviest_among_first(records, records.len() as int) {
            Some(record) => (record.mass, record.x, record.y),
            None => (zero, zero, zero),
        };
        Statistics {
            live: live as usize,
            largest_mass: mass,
            largest_percent: mass / total_mass * Binary32::from_bits(HUNDRED),
            largest_x: x,
            largest_y: y,
            count_rate: rate(
                Binary32::counted(self.live as nat),
                Binary32::counted(live),
                self.sampled_at,
                now,
            ),
            mass_rate: rate(self.largest_mass, mass, self.sampled_at, now),
            sampled_at: Some(now),
        }
    }

    /// The statistics after some particles were read back.
    pub fn sample(&self, records: &[Record], total_mass: Binary32, now: Binary32) -> (after:
        Statistics)
        ensures
            after == self.sampled(records@, total_mass, now),
    {
        let zero = Binary32::from_bits(ZERO);
        let mut live: usize = 0;
        let mut heaviest: Option<Record> = None;
        let mut i: usize = 0;
        while i < records.len()
            invariant
                i <= records.len(),
                live <= i,
                live == live_among_first(records@, i as int),
                heaviest == heaviest_among_first(records@, i as int),
            decreases records.len() - i,
        {
            let record = records[i];
            if is_live(record) {
                live = live + 1;
                match heaviest {
                    None => {
                        heaviest = Some(record);
                    },
                    Some(best) => {
                        if best.mass.less(record.mass) {
                            heaviest = Some(record);
                        }
                    },
                }
            }
            i = i + 1;
        }
        let (mass, x, y) = match heaviest {
            Some(record) => (record.mass, record.x, record.y),
            None => (zero, zero, zero),
        };
        Statistics {
            live,
            largest_mass: mass,
            largest_percent: mass / total_mass * Binary32::from_bits(HUNDRED),
            largest_x: x,
            largest_y: y,
            count_rate: rate(
                Binary32::from_usize(self.live),
                Binary32::from_usize(live),
                self.sampled_at,
                now,
            ),
            mass_rate: rate(self.largest_mass, mass, self.sampled_at, now),
            sampled_at: Some(now),
        }
    }
}

/// Whether particles are sampled in a frame depends on the time since the last sample and on the
/// pause alone: they are where a sample is due, whether the trails are shown or hidden.
pub proof fn law_sampling_ignores_the_trails(
    before: State,
    elapsed: Binary32,
    after: State,
    update: Update,
)
    requires
        after.follows(before, elapsed, update),
    ensures
        update.sample <==> !before.controls.paused && Binary32::from_bits(
            TRAIL_SAMPLE_INTERVAL,
        ).at_most(before.trail_accumulator + elapsed),
{
}

/// Of a fresh cloud all particles live, and its rates and those of its first sample are zero.
pub proof fn law_rates_start_at_zero(
    count: usize,
    records: Seq<Record>,
    total_mass: Binary32,
    now: Binary32,
)
    ensures
        ({
            let start = Statistics::none(count);
            let first = start.sampled(records, total_mass, now);
            &&& start.live == count
            &&& start.count_rate == Binary32::from_bits(ZERO)
            &&& start.mass_rate == Binary32::from_bits(ZERO)
            &&& first.count_rate == Binary32::from_bits(ZERO)
            &&& first.mass_rate == Binary32::from_bits(ZERO)
        }),
{
}

/// The trail points that those of the first particles leave that live.
pub open spec fn points_of_first(records: Seq<Record>, now: Binary32, upto: int) -> Seq<TrailPoint>
    decreases upto,
{
    if upto <= 0 {
        Seq::empty()
    } else {
        let before = points_of_first(records, now, upto - 1);
        let record = records[upto - 1];
        if is_live(record) {
            before.push(
                TrailPoint {
                    x: record.x,
                    y: record.y,
                    radius: particle_radius(record.mass),
                    brightness: record.brightness,
                    creation_time: now,
                },
            )
        } else {
            before
        }
    }
}

/// Whether a trail point has expired.
#[verifier::allow_in_spec]
pub fn has_expired(point: TrailPoint, now: Binary32) -> bool
    returns
        Binary32::from_bits(TRAIL_MAX_AGE).at_most(now - point.creation_time),
{
    Binary32::from_bits(TRAIL_MAX_AGE).at_most(now - point.creation_time)
}

/// The trail points from the first one on that has not expired.
pub open spec fn unexpired(trails: Seq<TrailPoint>, now: Binary32) -> Seq<TrailPoint>
    decreases trails.len(),
{
    if trails.len() > 0 && has_expired(trails[0], now) {
        unexpired(trails.skip(1), now)
    } else {
        trails
    }
}

/// The latest trail points, as many as there is room for.
pub open spec fn latest(trails: Seq<TrailPoint>, capacity: int) -> Seq<TrailPoint> {
    if trails.len() > capacity {
        trails.skip(trails.len() - capacity)
    } else {
        trails
    }
}

/// Among points that were left one after the other, those that have not expired are the young
/// ones.
pub proof fn law_the_young_have_not_expired(points: Seq<TrailPoint>, now: Binary32)
    requires
        trails::in_order(points),
        now.is_finite(),
    ensures
        unexpired(points, now) == trails::unexpired(points, now),
        forall|i: int|
            0 <= i < unexpired(points, now).len() ==> trails::is_young(
                #[trigger] unexpired(points, now)[i],
                now,
            ),
    decreases points.len(),
{
    trails::law_no_expired_point_is_left(points, now);
    if points.len() > 0 {
        let time = points[0].creation_time;
        assert(!(now - time).is_nan()) by {
            reveal(Binary32::spec_sub);
            binary32::lemma_opposite(time);
            binary32::law_sums_with_a_finite_number_are_numbers(now, time.opposite());
        }
        if has_expired(points[0], now) {
            let rest = points.skip(1);
            assert forall|i: int| 0 <= i < rest.len() implies (
            #[trigger] rest[i]).creation_time.is_finite() by {
                assert(rest[i] == points[i + 1]);
            }
            assert forall|i: int, j: int| 0 <= i <= j < rest.len() implies (
            #[trigger] rest[i]).creation_time.at_most((#[trigger] rest[j]).creation_time) by {
                assert(rest[i] == points[i + 1]);
                assert(rest[j] == points[j + 1]);
            }
            law_the_young_have_not_expired(rest, now);
        }
    }
}

/// How a frame goes on after the device was asked for an image to draw on.
#[derive(Clone, Copy, Debug, PartialEq, Eq, Structural)]
pub enum Surface {
    /// There is one.
    Ready,
    /// The surface has to be set up anew.
    Lost,
    Outdated,
    /// There is none right now.
    Timeout,
    /// There never will be.
    OutOfMemory,
}

/// What to do about it.
#[derive(Clone, Copy, Debug, PartialEq, Eq, Structural)]
pub enum Response {
    Draw,
    Configure,
    Skip,
    GiveUp,
}

/// What to do after the device was asked for an image to draw on.
#[verifier::allow_in_spec]
pub fn respond(surface: Surface) -> Response
    returns
        (match surface {
            Surface::Ready => Response::Draw,
            Surface::Lost | Surface::Outdated => Response::Configure,
            Surface::Timeout => Response::Skip,
            Surface::OutOfMemory => Response::GiveUp,
        }),
{
    match surface {
        Surface::Ready => Response::Draw,
        Surface::Lost | Surface::Outdated => Response::Configure,
        Surface::Timeout => Response::Skip,
        Surface::OutOfMemory => Response::GiveUp,
    }
}

/// Something to draw: so many instances, with the bind group of one of the particle buffers.
#[derive(Clone, Copy, Debug, PartialEq, Eq, Structural)]
pub struct Draw {
    pub trails: bool,
    pub particles: bool,
    pub instances: u32,
}

/// What a frame makes the device do.
pub struct Update {
    /// The passes of each step.
    pub steps: Vec<Vec<Pass>>,
    /// Whether particles are to be read back.
    pub sample: bool,
}

/// What the host keeps track of.
pub struct State {
    /// The number of particles that a buffer holds.
    pub count: usize,
    pub width: u32,
    pub height: u32,
    /// Which buffer holds the current particles.
    pub current: bool,
    pub controls: Controls,
    pub accumulator: Binary32,
    pub total_mass: Binary32,
    pub trail_clock: Binary32,
    pub trail_accumulator: Binary32,
    pub trails: VecDeque<TrailPoint>,
    /// Whether particles are being read back.
    pub sample_in_flight: bool,
    pub physics_steps: u64,
    pub fps: Binary32,
    pub fps_elapsed: Binary32,
    pub fps_frames: u32,
    pub statistics: Statistics,
}

/// One, if a number is zero.
#[verifier::allow_in_spec]
pub fn at_least_one(number: u32) -> u32
    returns
        (if number == 0 {
            1
        } else {
            number
        }),
{
    if number == 0 {
        1
    } else {
        number
    }
}

/// The lesser of two numbers.
#[verifier::allow_in_spec]
pub fn lesser(a: u32, b: u32) -> u32
    returns
        (if a < b {
            a
        } else {
            b
        }),
{
    if a < b {
        a
    } else {
        b
    }
}

impl State {
    /// There are no more particles than fit, and no more trail points than there is room for.
    pub open spec fn well_formed(&self) -> bool {
        &&& self.count <= MAX_PARTICLE_COUNT
        &&& self.trails@.len() <= self.capacity()
    }

    /// How many trail points there is room for.
    pub open spec fn capacity(&self) -> int {
        self.count * TRAIL_MAX_SAMPLES
    }

    /// Size, controls and mass are as before.
    pub open spec fn keeps_settings(self, before: State) -> bool {
        &&& self.count == before.count
        &&& self.width == before.width
        &&& self.height == before.height
        &&& self.controls == before.controls
        &&& self.total_mass == before.total_mass
    }

    /// The state at the start, in a window of a size, with a cloud of a mass.
    pub fn new(count: usize, width: u32, height: u32, total_mass: Binary32) -> (state: State)
        requires
            count <= MAX_PARTICLE_COUNT,
        ensures
            state.well_formed(),
            state.count == count,
            state.width == at_least_one(width),
            state.height == at_least_one(height),
            state.current == false,
            state.controls == (Controls {
                paused: false,
                trails_enabled: true,
                time_scale: Binary32::from_bits(ONE),
                zoom: initial_zoom(
                    Binary32::counted(lesser(width, height) as nat),
                    Binary32::counted(lesser(width, height) as nat),
                ),
            }),
            state.accumulator == Binary32::from_bits(ZERO),
            state.total_mass == total_mass,
            state.trail_clock == Binary32::from_bits(ZERO),
            state.trail_accumulator == Binary32::from_bits(ZERO),
            state.trails@ == Seq::<TrailPoint>::empty(),
            state.sample_in_flight == false,
            state.physics_steps == 0,
            state.fps == Binary32::from_bits(ZERO),
            state.fps_elapsed == Binary32::from_bits(ZERO),
            state.fps_frames == 0,
            state.statistics == Statistics::none(count),
    {
        let zero = Binary32::from_bits(ZERO);
        let side = Binary32::from_usize(lesser(width, height) as usize);
        State {
            count,
            width: at_least_one(width),
            height: at_least_one(height),
            current: false,
            controls: Controls {
                paused: false,
                trails_enabled: true,
                time_scale: Binary32::from_bits(ONE),
                zoom: initial_zoom(side, side),
            },
            accumulator: zero,
            total_mass,
            trail_clock: zero,
            trail_accumulator: zero,
            trails: VecDeque::new(),
            sample_in_flight: false,
            physics_steps: 0,
            fps: zero,
            fps_elapsed: zero,
            fps_frames: 0,
            statistics: Statistics::none(count),
        }
    }

    /// Notes the window's new size and says whether the surface has to be set up anew: a window
    /// without an area changes nothing.
    pub fn resize(&mut self, width: u32, height: u32) -> (configure: bool)
        ensures
            configure == (width > 0 && height > 0),
            *final(self) == if configure {
                State { width, height, ..*old(self) }
            } else {
                *old(self)
            },
    {
        if width > 0 && height > 0 {
            self.width = width;
            self.height = height;
            true
        } else {
            false
        }
    }

    /// Starts over with a cloud of a mass. Window, controls and frame rate stay.
    pub fn reset(&mut self, total_mass: Binary32)
        requires
            old(self).well_formed(),
        ensures
            final(self).well_formed(),
            final(self).count == old(self).count,
            final(self).width == old(self).width,
            final(self).height == old(self).height,
            final(self).controls == old(self).controls,
            final(self).fps == old(self).fps,
            final(self).fps_elapsed == old(self).fps_elapsed,
            final(self).fps_frames == old(self).fps_frames,
            final(self).current == false,
            final(self).accumulator == Binary32::from_bits(ZERO),
            final(self).total_mass == total_mass,
            final(self).trail_clock == Binary32::from_bits(ZERO),
            final(self).trail_accumulator == Binary32::from_bits(ZERO),
            final(self).trails@ == Seq::<TrailPoint>::empty(),
            final(self).sample_in_flight == false,
            final(self).physics_steps == 0,
            final(self).statistics == Statistics::none(old(self).count),
    {
        self.total_mass = total_mass;
        self.current = false;
        self.accumulator = Binary32::from_bits(ZERO);
        self.trail_clock = Binary32::from_bits(ZERO);
        self.trail_accumulator = Binary32::from_bits(ZERO);
        self.physics_steps = 0;
        self.trails.clear();
        self.sample_in_flight = false;
        self.statistics = Statistics::none(self.count);
    }

    /// Reacts to a key.
    pub fn press(&mut self, key: Key)
        ensures
            *final(self) == (State {
                controls: match key {
                    Key::Space => Controls { paused: !old(self).controls.paused, ..old(self).controls },
                    Key::T => Controls {
                        trails_enabled: !old(self).controls.trails_enabled,
                        ..old(self).controls
                    },
                    Key::Up => Controls {
                        time_scale: frame::faster(old(self).controls.time_scale),
                        ..old(self).controls
                    },
                    Key::Down => Controls {
                        time_scale: frame::slower(old(self).controls.time_scale),
                        ..old(self).controls
                    },
                },
                ..*old(self)
            }),
    {
        self.controls = self.controls.pressed(key);
    }

    /// Reacts to the mouse wheel.
    pub fn scroll(&mut self, factor: Binary32)
        ensures
            *final(self) == (State {
                controls: Controls {
                    zoom: (old(self).controls.zoom * factor).clamp(
                        Binary32::from_bits(ZOOM_MIN),
                        Binary32::from_bits(ZOOM_MAX),
                    ),
                    ..old(self).controls
                },
                ..*old(self)
            }),
    {
        self.controls = self.controls.scrolled(factor);
    }

    /// Takes a step: hands back its passes. The current particles end up where they were.
    pub fn step(&mut self) -> (passes: Vec<Pass>)
        requires
            old(self).physics_steps < u64::MAX,
        ensures
            plans(passes@) == step_passes(
                old(self).count,
                old(self).current,
                old(self).physics_steps,
            ),
            *final(self) == (State {
                physics_steps: (old(self).physics_steps + 1) as u64,
                ..*old(self)
            }),
    {
        let passes = plan_passes(self.count, self.current, self.physics_steps);
        self.physics_steps = self.physics_steps + 1;
        passes
    }

    /// Whether particles may be read back, and from which buffer; not while they already are.
    pub fn begin_sample(&mut self) -> (source: Option<Buffer>)
        ensures
            source == if old(self).sample_in_flight {
                None
            } else {
                Some(Buffer::Particles(old(self).current))
            },
            *final(self) == (State { sample_in_flight: true, ..*old(self) }),
    {
        if self.sample_in_flight {
            return None;
        }
        self.sample_in_flight = true;
        Some(Buffer::Particles(self.current))
    }

    /// Takes in the words of the particles that were read back, or that they could not be read:
    /// updates the statistics and, if the trails are shown, the trails, and hands back the words
    /// of the trails for the device, if there are any. Hidden trails stay as they are.
    pub fn finish_sample(&mut self, words: Option<&[u32]>) -> (upload: Option<Vec<u32>>)
        requires
            old(self).well_formed(),
        ensures
            final(self).well_formed(),
            words is None ==> upload is None && *final(self) == (State {
                sample_in_flight: false,
                ..*old(self)
            }),
            words matches Some(words) ==> {
                let records = gpu::records_of(words@);
                let now = old(self).trail_clock;
                let longer = old(self).trails@ + points_of_first(
                    records,
                    now,
                    records.len() as int,
                );
                let kept = latest(unexpired(longer, now), old(self).capacity());
                &&& *final(self) == (State {
                    sample_in_flight: false,
                    statistics: old(self).statistics.sampled(records, old(self).total_mass, now),
                    trails: final(self).trails,
                    ..*old(self)
                })
                &&& if old(self).controls.trails_enabled {
                    &&& final(self).trails@ == kept
                    &&& match upload {
                        Some(words) => kept.len() > 0 && words@ == gpu::first_trail_records(
                            kept,
                            kept.len() as int,
                        ),
                        None => kept.len() == 0,
                    }
                } else {
                    &&& final(self).trails == old(self).trails
                    &&& upload is None
                }
            },
    {
        self.sample_in_flight = false;
        let words = match words {
            Some(words) => words,
            None => {
                return None;
            },
        };
        let records = read_records(words);
        let now = self.trail_clock;
        self.statistics = self.statistics.sample(records.as_slice(), self.total_mass, now);
        if !self.controls.trails_enabled {
            return None;
        }
        self.add_points(records.as_slice());
        self.drop_expired();
        self.drop_excess();
        let kept = &self.trails;
        if kept.len() == 0 {
            return None;
        }
        Some(trail_words(kept))
    }

    /// Lets the live particles leave trail points.
    fn add_points(&mut self, records: &[Record])
        ensures
            final(self).trails@ == old(self).trails@ + points_of_first(
                records@,
                old(self).trail_clock,
                records@.len() as int,
            ),
            *final(self) == (State { trails: final(self).trails, ..*old(self) }),
    {
        let now = self.trail_clock;
        let ghost before = *self;
        let mut i: usize = 0;
        assert(self.trails@ == before.trails@ + points_of_first(records@, now, 0));
        while i < records.len()
            invariant
                i <= records.len(),
                now == before.trail_clock,
                *self == (State { trails: self.trails, ..before }),
                self.trails@ == before.trails@ + points_of_first(records@, now, i as int),
            decreases records.len() - i,
        {
            let record = records[i];
            if is_live(record) {
                self.trails.push_back(
                    TrailPoint {
                        x: record.x,
                        y: record.y,
                        radius: particle_radius(record.mass),
                        brightness: record.brightness,
                        creation_time: now,
                    },
                );
            }
            i = i + 1;
            assert(self.trails@ == before.trails@ + points_of_first(records@, now, i as int));
        }
    }

    /// Drops trail points from the front as long as they have expired.
    fn drop_expired(&mut self)
        ensures
            final(self).trails@ == unexpired(old(self).trails@, old(self).trail_clock),
            *final(self) == (State { trails: final(self).trails, ..*old(self) }),
    {
        let now = self.trail_clock;
        let ghost before = *self;
        while self.trails.len() > 0 && has_expired(self.trails[0], now)
            invariant
                now == before.trail_clock,
                *self == (State { trails: self.trails, ..before }),
                unexpired(self.trails@, now) == unexpired(before.trails@, now),
            decreases self.trails.len(),
        {
            let ghost points = self.trails@;
            self.trails.pop_front();
            assert(self.trails@ == points.skip(1));
        }
    }

    /// Drops trail points from the front as long as there are more than there is room for.
    fn drop_excess(&mut self)
        requires
            old(self).count <= MAX_PARTICLE_COUNT,
        ensures
            final(self).trails@ == latest(old(self).trails@, old(self).capacity()),
            *final(self) == (State { trails: final(self).trails, ..*old(self) }),
    {
        let capacity = self.count * TRAIL_MAX_SAMPLES;
        let ghost before = *self;
        while self.trails.len() > capacity
            invariant
                capacity == before.capacity(),
                *self == (State { trails: self.trails, ..before }),
                latest(self.trails@, capacity as int) == latest(before.trails@, capacity as int),
            decreases self.trails.len(),
        {
            let ghost points = self.trails@;
            self.trails.pop_front();
            assert(self.trails@ == points.skip(1));
            assert(latest(self.trails@, capacity as int) == latest(points, capacity as int));
        }
    }

    /// What a frame of some time makes of the state, and what it makes the device do.
    pub open spec fn follows(self, before: State, elapsed: Binary32, update: Update) -> bool {
        &&& self.keeps_settings(before)
        &&& self.current == before.current
        &&& self.trails == before.trails
        &&& self.sample_in_flight == before.sample_in_flight
        &&& self.statistics == before.statistics
        &&& ({
            let frames = (before.fps_frames + 1) as nat;
            let time = before.fps_elapsed + elapsed;
            if Binary32::from_bits(HALF).at_most(time) {
                &&& self.fps == Binary32::counted(frames) / time
                &&& self.fps_frames == 0
                &&& self.fps_elapsed == Binary32::from_bits(ZERO)
            } else {
                &&& self.fps == before.fps
                &&& self.fps_frames == frames
                &&& self.fps_elapsed == time
            }
        })
        &&& before.controls.paused ==> {
            &&& self.trail_clock == before.trail_clock
            &&& self.trail_accumulator == before.trail_accumulator
            &&& self.accumulator == before.accumulator
            &&& self.physics_steps == before.physics_steps
            &&& update.steps.len() == 0
            &&& !update.sample
        }
        &&& !before.controls.paused ==> ({
            let saved = saved_up(
                before.accumulator,
                elapsed,
                Binary32::from_bits(FRAME_PHYSICS_MAX),
                before.controls.time_scale,
            );
            let steps = frame::steps_taken(saved, 0, MAX_PHYSICS_STEPS_PER_FRAME as nat);
            let waited = before.trail_accumulator + elapsed;
            let interval = Binary32::from_bits(TRAIL_SAMPLE_INTERVAL);
            &&& self.trail_clock == before.trail_clock + elapsed
            &&& self.accumulator == frame::time_left(
                saved,
                0,
                MAX_PHYSICS_STEPS_PER_FRAME as nat,
            )
            &&& self.physics_steps == before.physics_steps + steps
            &&& update.steps.len() == steps
            &&& forall|i: int|
                0 <= i < steps ==> plans((#[trigger] update.steps@[i])@) == step_passes(
                    before.count,
                    before.current,
                    (before.physics_steps + i) as u64,
                )
            &&& update.sample == interval.at_most(waited)
            &&& self.trail_accumulator == if update.sample {
                waited % interval
            } else {
                waited
            }
        })
    }

    /// Lets a frame pass: notes the frame rate and, unless paused, takes the steps that are due
    /// and says whether particles are to be read back.
    pub fn update(&mut self, elapsed: Binary32) -> (update: Update)
        requires
            old(self).well_formed(),
            old(self).fps_frames < u32::MAX,
            old(self).physics_steps <= u64::MAX - MAX_PHYSICS_STEPS_PER_FRAME,
        ensures
            final(self).well_formed(),
            final(self).follows(*old(self), elapsed, update),
    {
        self.fps_frames = self.fps_frames + 1;
        self.fps_elapsed = self.fps_elapsed + elapsed;
        if Binary32::from_bits(HALF).at_most(self.fps_elapsed) {
            self.fps = Binary32::from_usize(self.fps_frames as usize) / self.fps_elapsed;
            self.fps_frames = 0;
            self.fps_elapsed = Binary32::from_bits(ZERO);
        }
        let mut steps: Vec<Vec<Pass>> = Vec::new();
        if self.controls.paused {
            return Update { steps, sample: false };
        }
        self.trail_clock = self.trail_clock + elapsed;
        self.trail_accumulator = self.trail_accumulator + elapsed;
        let saved = saved_up(
            self.accumulator,
            elapsed,
            Binary32::from_bits(FRAME_PHYSICS_MAX),
            self.controls.time_scale,
        );
        let (due, left) = plan_steps(saved, MAX_PHYSICS_STEPS_PER_FRAME);
        self.accumulator = left;
        proof {
            frame::law_steps_are_bounded(saved, 0, MAX_PHYSICS_STEPS_PER_FRAME as nat);
        }
        let ghost before = *self;
        let mut taken: u32 = 0;
        while taken < due
            invariant
                taken <= due <= MAX_PHYSICS_STEPS_PER_FRAME,
                before.physics_steps <= u64::MAX - MAX_PHYSICS_STEPS_PER_FRAME,
                *self == (State {
                    physics_steps: (before.physics_steps + taken) as u64,
                    ..before
                }),
                steps.len() == taken,
                forall|i: int|
                    0 <= i < taken ==> plans((#[trigger] steps@[i])@) == step_passes(
                        before.count,
                        before.current,
                        (before.physics_steps + i) as u64,
                    ),
            decreases due - taken,
        {
            let passes = self.step();
            steps.push(passes);
            taken = taken + 1;
        }
        let interval = Binary32::from_bits(TRAIL_SAMPLE_INTERVAL);
        let sample = interval.at_most(self.trail_accumulator);
        if sample {
            self.trail_accumulator = self.trail_accumulator % interval;
        }
        Update { steps, sample }
    }

    /// Lets a frame pass that took the given time, of which no more than a tenth of a second
    /// counts.
    pub fn redraw(&mut self, elapsed: Binary32) -> (update: Update)
        requires
            old(self).well_formed(),
            old(self).fps_frames < u32::MAX,
            old(self).physics_steps <= u64::MAX - MAX_PHYSICS_STEPS_PER_FRAME,
        ensures
            final(self).well_formed(),
            final(self).follows(
                *old(self),
                elapsed.min(Binary32::from_bits(FRAME_TIME_MAX)),
                update,
            ),
    {
        self.update(elapsed.min(Binary32::from_bits(FRAME_TIME_MAX)))
    }

    /// The parameters for drawing, as words: width, height, zoom, total mass, number of
    /// particles, number of trail points, time of the trails, zero.
    pub open spec fn render_params(&self) -> Seq<u32> {
        seq![
            Binary32::counted(self.width as nat).bits,
            Binary32::counted(self.height as nat).bits,
            self.controls.zoom.bits,
            self.total_mass.bits,
            self.count as u32,
            self.trails@.len() as u32,
            self.trail_clock.bits,
            0,
        ]
    }

    /// The bytes of the parameters for drawing.
    pub fn render_params_bytes(&self) -> (bytes: Vec<u8>)
        ensures
            bytes::hold(bytes@, self.render_params()),
    {
        let words: Vec<u32> = vec![
            Binary32::from_usize(self.width as usize).to_bits(),
            Binary32::from_usize(self.height as usize).to_bits(),
            self.controls.zoom.to_bits(),
            self.total_mass.to_bits(),
            self.count as u32,
            self.trails.len() as u32,
            self.trail_clock.to_bits(),
            0,
        ];
        assert(words@ == self.render_params());
        cast_words(words.as_slice())
    }

    /// What is drawn: the trails, if they are shown and there are any, and then the particles.
    pub fn draws(&self) -> (draws: Vec<Draw>)
        ensures
            draws@ == (if self.controls.trails_enabled && self.trails@.len() > 0 {
                seq![
                    Draw {
                        trails: true,
                        particles: false,
                        instances: self.trails@.len() as u32,
                    },
                ]
            } else {
                Seq::<Draw>::empty()
            }).push(
                Draw { trails: false, particles: self.current, instances: self.count as u32 },
            ),
    {
        let mut draws: Vec<Draw> = Vec::new();
        if self.controls.trails_enabled && self.trails.len() > 0 {
            draws.push(
                Draw { trails: true, particles: false, instances: self.trails.len() as u32 },
            );
        }
        draws.push(Draw { trails: false, particles: self.current, instances: self.count as u32 });
        draws
    }
}

/// The words of all trail points.
fn trail_words(trails: &VecDeque<TrailPoint>) -> (words: Vec<u32>)
    ensures
        words@ == gpu::first_trail_records(trails@, trails@.len() as int),
{
    let mut words: Vec<u32> = Vec::new();
    let mut i: usize = 0;
    while i < trails.len()
        invariant
            i <= trails@.len(),
            words@ == gpu::first_trail_records(trails@, i as int),
        decreases trails@.len() - i,
    {
        let point = trails[i];
        let ghost before = words@;
        words.push(point.x.to_bits());
        words.push(point.y.to_bits());
        words.push(point.radius.to_bits());
        words.push(point.brightness.to_bits());
        words.push(point.creation_time.to_bits());
        words.push(0);
        words.push(0);
        words.push(0);
        assert(words@ == before + gpu::trail_record(point));
        i = i + 1;
    }
    words
}

} // verus!
