//! A simulation on a compute device, frame by frame.
//!
//! Like the backend, the session decides and the caller carries out: a frame is a few steps and a
//! snapshot. A failure pauses the simulation and is remembered for display. What a failed step or
//! reset left in the buffers is not read: the last snapshot that was read stays until a step is
//! taken again or a reset succeeds. A reading that failed is forgotten once one succeeds.

use vstd::prelude::*;
use crate::binary32::{Binary32, ONE, ZERO};
use crate::bodies;
use crate::bodies::{live_bodies, GRAVITATIONAL_CONSTANT};
use crate::cuda::{Action, BackendState, CudaBackend, Event, Order, Reply};
use crate::frame;
use crate::frame::{
    is_due, saved_up, Controls, Key, FRAME_PHYSICS_MAX, FRAME_TIME_MAX, PHYSICS_DT, ZOOM_MAX,
    ZOOM_MIN,
};
use crate::trails::Trails;
use crate::types::{Particle, SimParams};

verus! {

/// How many steps a frame takes at the most.
pub const MAX_PHYSICS_STEPS_PER_FRAME: u32 = 8;

/// The square of the softening length: 9.
pub const SOFTENING_SQUARED: u32 = 0x4110_0000;

/// The zoom that a session starts with: 0.35.
pub const INITIAL_ZOOM: u32 = 0x3EB3_3333;

/// What failed last.
#[derive(Clone, Copy, Debug, PartialEq, Eq, Structural)]
pub enum Failure {
    Step,
    Reset,
    ReadBack,
}

/// What the session waits for.
#[derive(Clone, Copy, Debug, PartialEq, Eq, Structural)]
pub enum Stage {
    Idle,
    Stepping,
    Reading,
    Restoring,
}

/// What the session knows.
pub struct SessionState {
    pub backend: BackendState,
    pub controls: Controls,
    /// The time saved up for steps.
    pub saved: Binary32,
    /// The steps that this frame has taken.
    pub completed: u32,
    pub stage: Stage,
    /// The particles that were read last.
    pub snapshot: Seq<Particle>,
    pub failure: Option<Failure>,
}

impl SessionState {
    /// The parameters of a step.
    pub open spec fn params(self) -> SimParams {
        SimParams {
            count: self.backend.active_count as u32,
            dt: Binary32::from_bits(PHYSICS_DT),
            gravity: Binary32::from_bits(GRAVITATIONAL_CONSTANT),
            softening_squared: Binary32::from_bits(SOFTENING_SQUARED),
        }
    }

    /// The state after a failure: paused, with the snapshot as it was.
    pub open spec fn failed(self, failure: Failure) -> SessionState {
        SessionState {
            controls: Controls { paused: true, ..self.controls },
            failure: Some(failure),
            ..self
        }
    }

    /// Whether a step or a reset that failed may have left the buffers half-written.
    pub open spec fn is_spoiled(self) -> bool {
        self.failure == Some(Failure::Step) || self.failure == Some(Failure::Reset)
    }

    /// What follows the steps of a frame: a snapshot is read, unless the buffers may be
    /// half-written.
    pub open spec fn reading(self) -> (SessionState, Order) {
        if self.is_spoiled() {
            (SessionState { stage: Stage::Idle, ..self }, Order::Rest)
        } else {
            (
                SessionState { stage: Stage::Reading, ..self },
                Order::ReadBack { from: self.backend.source, count: self.backend.active_count },
            )
        }
    }

    /// What follows a step that was taken, or the start of a frame: the next step, if one is due
    /// and allowed, and the snapshot otherwise. Taking as many steps as allowed forgets the time
    /// that is left.
    pub open spec fn proceeded(self) -> (SessionState, Order)
        decreases MAX_PHYSICS_STEPS_PER_FRAME - self.completed,
    {
        if self.completed < MAX_PHYSICS_STEPS_PER_FRAME && is_due(self.saved) {
            match self.backend.begun(self.params()) {
                Ok((backend, order)) => {
                    let next = SessionState { backend, stage: Stage::Stepping, ..self };
                    if order is Rest {
                        next.step_taken().proceeded()
                    } else {
                        (next, order)
                    }
                },
                Err(_) => self.failed(Failure::Step).reading(),
            }
        } else if self.completed == MAX_PHYSICS_STEPS_PER_FRAME {
            SessionState { saved: Binary32::from_bits(ZERO), ..self }.reading()
        } else {
            self.reading()
        }
    }

    /// The state after a step that was taken: no failure stands any more.
    pub open spec fn step_taken(self) -> SessionState {
        SessionState {
            saved: self.saved - Binary32::from_bits(PHYSICS_DT),
            completed: (self.completed + 1) as u32,
            failure: None,
            ..self
        }
    }

    /// What follows the start of a frame.
    pub open spec fn frame_started(self, frame_time: Binary32) -> (SessionState, Order) {
        if self.controls.paused {
            self.reading()
        } else {
            SessionState {
                saved: saved_up(
                    self.saved,
                    frame_time.min(Binary32::from_bits(FRAME_TIME_MAX)),
                    Binary32::from_bits(FRAME_PHYSICS_MAX),
                    self.controls.time_scale,
                ),
                completed: 0,
                ..self
            }.proceeded()
        }
    }

    /// What follows a request to start over with other particles.
    pub open spec fn restarted(self, particles: Seq<Particle>) -> (SessionState, Order) {
        match self.backend.restarted(particles) {
            Ok((backend, order)) => (
                SessionState { backend, stage: Stage::Restoring, ..self },
                order,
            ),
            Err(_) => (self.failed(Failure::Reset), Order::Rest),
        }
    }

    /// What follows what came of an action.
    pub open spec fn resumed(self, reply: Reply) -> (SessionState, Order) {
        let (backend, order) = self.backend.advanced(reply);
        let next = SessionState { backend, ..self };
        match self.stage {
            Stage::Stepping => if reply is Failed {
                next.failed(Failure::Step).reading()
            } else if order is Rest {
                next.step_taken().proceeded()
            } else {
                (next, order)
            },
            Stage::Reading => {
                let read = SessionState { stage: Stage::Idle, ..self };
                match reply {
                    Reply::Particles(particles) => (
                        SessionState {
                            snapshot: particles,
                            failure: if self.failure == Some(Failure::ReadBack) {
                                None
                            } else {
                                self.failure
                            },
                            ..read
                        },
                        Order::Rest,
                    ),
                    _ => (read.failed(Failure::ReadBack), Order::Rest),
                }
            },
            Stage::Restoring => {
                let ended = SessionState { stage: Stage::Idle, ..next };
                if reply is Failed {
                    (ended.failed(Failure::Reset), Order::Rest)
                } else {
                    (
                        SessionState { saved: Binary32::from_bits(ZERO), failure: None, ..ended },
                        Order::Rest,
                    )
                }
            },
            Stage::Idle => (self, Order::Rest),
        }
    }

    /// Whether a reply answers what was asked: live particles where they were to be read, and
    /// completion of everything else; anything may fail.
    pub open spec fn is_answered_by(self, reply: Reply) -> bool {
        let reads = self.stage is Reading || (self.stage is Stepping && self.backend.phase
            is Reading);
        match reply {
            Reply::Particles(particles) => reads && particles.len() == self.backend.active_count,
            Reply::Completed => !reads,
            Reply::Failed => true,
        }
    }
}

/// A session.
pub struct Session {
    backend: CudaBackend,
    controls: Controls,
    saved: Binary32,
    completed: u32,
    stage: Stage,
    snapshot: Vec<Particle>,
    failure: Option<Failure>,
}

impl View for Session {
    type V = SessionState;

    closed spec fn view(&self) -> SessionState {
        SessionState {
            backend: self.backend@,
            controls: self.controls,
            saved: self.saved,
            completed: self.completed,
            stage: self.stage,
            snapshot: self.snapshot@,
            failure: self.failure,
        }
    }
}

impl Session {
    /// A frame has taken no more steps than allowed, and fewer while one is being taken.
    pub open spec fn well_formed(&self) -> bool {
        &&& self@.completed <= MAX_PHYSICS_STEPS_PER_FRAME
        &&& self@.stage is Stepping ==> self@.completed < MAX_PHYSICS_STEPS_PER_FRAME
    }

    /// A session for a device both of whose particle buffers hold the given particles.
    pub fn new(particles: Vec<Particle>) -> (session: Session)
        ensures
            session.well_formed(),
            session@.backend == CudaBackend::state_of(particles@),
            session@.controls == (Controls {
                paused: false,
                trails_enabled: false,
                time_scale: Binary32::from_bits(ONE),
                zoom: Binary32::from_bits(INITIAL_ZOOM),
            }),
            session@.saved == Binary32::from_bits(ZERO),
            session@.completed == 0,
            session@.stage is Idle,
            session@.snapshot == particles@,
            session@.failure is None,
    {
        Session {
            backend: CudaBackend::new(particles.as_slice()),
            controls: Controls::new(Binary32::from_bits(INITIAL_ZOOM)),
            saved: Binary32::from_bits(ZERO),
            completed: 0,
            stage: Stage::Idle,
            snapshot: particles,
            failure: None,
        }
    }

    /// The controls.
    pub fn controls(&self) -> (controls: Controls)
        ensures
            controls == self@.controls,
    {
        self.controls
    }

    /// The particles that were read last.
    pub fn snapshot(&self) -> (particles: &[Particle])
        ensures
            particles@ == self@.snapshot,
    {
        self.snapshot.as_slice()
    }

    /// What failed last.
    pub fn failure(&self) -> (failure: Option<Failure>)
        ensures
            failure == self@.failure,
    {
        self.failure
    }

    /// Reacts to a key.
    pub fn press(&mut self, key: Key)
        ensures
            final(self)@ == (SessionState {
                controls: match key {
                    Key::Space => Controls { paused: !old(self)@.controls.paused, ..old(self)@.controls },
                    Key::T => Controls {
                        trails_enabled: !old(self)@.controls.trails_enabled,
                        ..old(self)@.controls
                    },
                    Key::Up => Controls {
                        time_scale: frame::faster(old(self)@.controls.time_scale),
                        ..old(self)@.controls
                    },
                    Key::Down => Controls {
                        time_scale: frame::slower(old(self)@.controls.time_scale),
                        ..old(self)@.controls
                    },
                },
                ..old(self)@
            }),
    {
        self.controls = self.controls.pressed(key);
    }

    /// Reacts to the mouse wheel.
    pub fn scroll(&mut self, factor: Binary32)
        ensures
            final(self)@ == (SessionState {
                controls: Controls {
                    zoom: (old(self)@.controls.zoom * factor).clamp(
                        Binary32::from_bits(ZOOM_MIN),
                        Binary32::from_bits(ZOOM_MAX),
                    ),
                    ..old(self)@.controls
                },
                ..old(self)@
            }),
    {
        self.controls = self.controls.scrolled(factor);
    }

    /// Starts a frame.
    pub fn start_frame(&mut self, frame_time: Binary32) -> (action: Action)
        requires
            old(self).well_formed(),
            old(self)@.stage is Idle,
        ensures
            final(self).well_formed(),
            (final(self)@, action@) == old(self)@.frame_started(frame_time),
    {
        if self.controls.paused {
            return self.read();
        }
        self.saved = saved_up(
            self.saved,
            frame_time.min(Binary32::from_bits(FRAME_TIME_MAX)),
            Binary32::from_bits(FRAME_PHYSICS_MAX),
            self.controls.time_scale,
        );
        self.completed = 0;
        self.proceed()
    }

    /// Starts over with other particles.
    pub fn reset(&mut self, particles: &[Particle]) -> (action: Action)
        requires
            old(self).well_formed(),
            old(self)@.stage is Idle,
        ensures
            final(self).well_formed(),
            (final(self)@, action@) == old(self)@.restarted(particles@),
    {
        match self.backend.reset(particles) {
            Ok(action) => {
                self.stage = Stage::Restoring;
                action
            },
            Err(_) => {
                self.controls.paused = true;
                self.failure = Some(Failure::Reset);
                Action::Rest
            },
        }
    }

    /// Takes in what came of an action.
    pub fn resume(&mut self, event: Event) -> (action: Action)
        requires
            old(self).well_formed(),
            old(self)@.is_answered_by(event@),
        ensures
            final(self).well_formed(),
            (final(self)@, action@) == old(self)@.resumed(event@),
    {
        match self.stage {
            Stage::Stepping => {
                let failed = matches!(event, Event::Failed);
                let action = self.backend.advance(event);
                if failed {
                    self.controls.paused = true;
                    self.failure = Some(Failure::Step);
                    return self.read();
                }
                if matches!(action, Action::Rest) {
                    self.saved = self.saved - Binary32::from_bits(PHYSICS_DT);
                    self.completed = self.completed + 1;
                    self.failure = None;
                    self.proceed()
                } else {
                    action
                }
            },
            Stage::Reading => {
                self.stage = Stage::Idle;
                match event {
                    Event::Particles(particles) => {
                        self.snapshot = particles;
                        if matches!(self.failure, Some(Failure::ReadBack)) {
                            self.failure = None;
                        }
                    },
                    _ => {
                        self.controls.paused = true;
                        self.failure = Some(Failure::ReadBack);
                    },
                }
                Action::Rest
            },
            Stage::Restoring => {
                let failed = matches!(event, Event::Failed);
                let _ = self.backend.advance(event);
                self.stage = Stage::Idle;
                if failed {
                    self.controls.paused = true;
                    self.failure = Some(Failure::Reset);
                } else {
                    self.saved = Binary32::from_bits(ZERO);
                    self.failure = None;
                }
                Action::Rest
            },
            Stage::Idle => Action::Rest,
        }
    }

    /// Lets the trails of the particles follow a frame: in a frame that ran, the live particles of
    /// the snapshot leave their points; in a paused one, and in one longer than any frame may be,
    /// the trails stay.
    pub fn trace_frame(&self, trails: &mut Trails, ran: bool, frame_time: Binary32)
        ensures
            if ran && frame_time.at_most(Binary32::from_bits(FRAME_TIME_MAX)) {
                final(trails).follows(
                    *old(trails),
                    bodies::first_live_bodies(self@.snapshot, self@.snapshot.len() as int),
                    frame_time,
                )
            } else {
                *final(trails) == *old(trails)
            },
    {
        if ran && frame_time.at_most(Binary32::from_bits(FRAME_TIME_MAX)) {
            let live = live_bodies(self.snapshot.as_slice());
            trails.pass(live.as_slice(), frame_time);
        }
    }

    /// Clears the trails after a reset that did not fail.
    pub fn trace_reset(&self, trails: &mut Trails)
        ensures
            if self@.failure is None {
                final(trails).is_fresh()
            } else {
                *final(trails) == *old(trails)
            },
    {
        if self.failure.is_none() {
            trails.clear();
        }
    }

    /// Reads the snapshot, unless the buffers may be half-written.
    fn read(&mut self) -> (action: Action)
        requires
            old(self)@.completed <= MAX_PHYSICS_STEPS_PER_FRAME,
        ensures
            final(self).well_formed(),
            (final(self)@, action@) == old(self)@.reading(),
    {
        if matches!(self.failure, Some(Failure::Step) | Some(Failure::Reset)) {
            self.stage = Stage::Idle;
            return Action::Rest;
        }
        self.stage = Stage::Reading;
        self.backend.snapshot()
    }

    /// Takes the next step, or reads the snapshot.
    fn proceed(&mut self) -> (action: Action)
        requires
            old(self)@.completed <= MAX_PHYSICS_STEPS_PER_FRAME,
        ensures
            final(self).well_formed(),
            (final(self)@, action@) == old(self)@.proceeded(),
    {
        while self.completed < MAX_PHYSICS_STEPS_PER_FRAME && is_due(self.saved)
            invariant
                self@.completed <= MAX_PHYSICS_STEPS_PER_FRAME,
                self@.proceeded() == old(self)@.proceeded(),
            decreases MAX_PHYSICS_STEPS_PER_FRAME - self@.completed,
        {
            let params = SimParams {
                count: self.backend.active_count() as u32,
                dt: Binary32::from_bits(PHYSICS_DT),
                gravity: Binary32::from_bits(GRAVITATIONAL_CONSTANT),
                softening_squared: Binary32::from_bits(SOFTENING_SQUARED),
            };
            match self.backend.step(params) {
                Ok(action) => {
                    self.stage = Stage::Stepping;
                    if !matches!(action, Action::Rest) {
                        return action;
                    }
                    self.saved = self.saved - Binary32::from_bits(PHYSICS_DT);
                    self.completed = self.completed + 1;
                    self.failure = None;
                },
                Err(_) => {
                    self.controls.paused = true;
                    self.failure = Some(Failure::Step);
                    return self.read();
                },
            }
        }
        if self.completed == MAX_PHYSICS_STEPS_PER_FRAME {
            self.saved = Binary32::from_bits(ZERO);
        }
        self.read()
    }
}

/// A failure pauses the simulation, is remembered, asks nothing more of the device, and leaves the
/// snapshot as it was.
pub proof fn law_failures_pause(state: SessionState)
    requires
        !(state.stage is Idle),
    ensures
        ({
            let (after, order) = state.resumed(Reply::Failed);
            &&& after.controls.paused
            &&& after.failure is Some
            &&& after.snapshot == state.snapshot
            &&& after.stage is Idle
            &&& order is Rest
        }),
{
}

/// The session after some paused frames, each of which asks nothing of the device.
pub open spec fn after_idle_frames(state: SessionState, frame_times: Seq<Binary32>) -> SessionState
    decreases frame_times.len(),
{
    if frame_times.len() == 0 {
        state
    } else {
        after_idle_frames(state, frame_times.drop_last()).frame_started(frame_times.last()).0
    }
}

/// While the failure of a step or of a reset stands, nothing is read: whatever frames pass until
/// the simulation is resumed or reset, the device has nothing to do and the last snapshot stays.
pub proof fn law_snapshot_stays_while_a_failure_stands(
    state: SessionState,
    frame_times: Seq<Binary32>,
    frame_time: Binary32,
)
    requires
        state.stage is Idle,
        state.controls.paused,
        state.is_spoiled(),
    ensures
        after_idle_frames(state, frame_times) == state,
        after_idle_frames(state, frame_times).frame_started(frame_time).1 is Rest,
    decreases frame_times.len(),
{
    if frame_times.len() > 0 {
        law_snapshot_stays_while_a_failure_stands(state, frame_times.drop_last(), frame_time);
    }
}

/// Once the particles are read, no failed reading stands any more.
pub proof fn law_readings_are_made_up_for(state: SessionState, particles: Seq<Particle>)
    requires
        state.stage is Reading,
    ensures
        ({
            let (after, order) = state.resumed(Reply::Particles(particles));
            &&& after.snapshot == particles
            &&& after.failure != Some(Failure::ReadBack)
            &&& state.failure != Some(Failure::ReadBack) ==> after.failure == state.failure
            &&& order is Rest
        }),
{
}

/// A paused session takes no step: a frame changes neither the backend nor the time saved up, and
/// reads at the most.
pub proof fn law_paused_sessions_take_no_step(state: SessionState, frame_time: Binary32)
    requires
        state.controls.paused,
    ensures
        ({
            let (after, order) = state.frame_started(frame_time);
            &&& after.backend == state.backend
            &&& after.saved == state.saved
            &&& if state.is_spoiled() {
                order is Rest
            } else {
                order is ReadBack
            }
        }),
{
}

/// A session that waits for nothing has nothing for the device to do, and the other way round: an
/// action other than rest is always awaited.
pub proof fn law_every_action_is_awaited(state: SessionState, reply: Reply)
    requires
        state.is_answered_by(reply),
        state.stage is Stepping ==> state.completed < MAX_PHYSICS_STEPS_PER_FRAME,
    ensures
        ({
            let (after, order) = state.resumed(reply);
            order is Rest <==> after.stage is Idle
        }),
{
    let (backend, order) = state.backend.advanced(reply);
    let next = SessionState { backend, ..state };
    if state.stage is Stepping && !(reply is Failed) && order is Rest {
        lemma_proceeding_awaits(next.step_taken());
    }
}

/// What is done after a step is awaited.
proof fn lemma_proceeding_awaits(state: SessionState)
    requires
        state.completed <= MAX_PHYSICS_STEPS_PER_FRAME,
    ensures
        ({
            let (after, order) = state.proceeded();
            order is Rest <==> after.stage is Idle
        }),
    decreases MAX_PHYSICS_STEPS_PER_FRAME - state.completed,
{
    if state.completed < MAX_PHYSICS_STEPS_PER_FRAME && is_due(state.saved) {
        match state.backend.begun(state.params()) {
            Ok((backend, order)) => {
                let next = SessionState { backend, stage: Stage::Stepping, ..state };
                if order is Rest {
                    lemma_proceeding_awaits(next.step_taken());
                }
            },
            Err(_) => {},
        }
    }
}

} // verus!
