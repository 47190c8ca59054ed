//! The host's side of a simulation whose particles live in two buffers of a compute device.
//!
//! The backend decides, and the caller carries out: every method hands back the next [`Action`]
//! to perform on the device, and [`CudaBackend::advance`] takes in what came of it. A step is a
//! drift kernel from the source buffer to the other one, a readback of the live particles, a
//! merge on the host, an upload of what is left, and a finishing kernel.

use vstd::prelude::*;
use crate::binary32::{Binary32, ZERO};
use crate::collision;
use crate::collision::merge_colliding_particles;
use crate::error::CudaError;
use crate::gpu;
use crate::gpu::ceil_div;
use crate::merging;
use crate::reference;
use crate::types::{Particle, SimParams};

verus! {

/// The number of particles of a cloud.
pub const PARTICLE_COUNT: usize = 10_000;

/// The number of threads of one kernel block.
pub const BLOCK_SIZE: u32 = 128;

/// One of the two particle buffers on the device.
#[derive(Clone, Copy, Debug, PartialEq, Eq, Structural)]
pub enum Side {
    A,
    B,
}

impl Side {
    /// The other buffer.
    #[verifier::allow_in_spec]
    pub fn other(self) -> Side
        returns
            (match self {
                Side::A => Side::B,
                Side::B => Side::A,
            }),
    {
        match self {
            Side::A => Side::B,
            Side::B => Side::A,
        }
    }
}

/// What the device is to do next.
pub enum Action {
    /// Nothing: the request is dealt with.
    Rest,
    /// Run the drift kernel and wait for it.
    Drift { source: Side, destination: Side, grid: u32, block: u32, params: SimParams },
    /// Hand over the first particles of a buffer.
    ReadBack { from: Side, count: usize },
    /// Overwrite a buffer and wait.
    Upload { to: Side, particles: Vec<Particle> },
    /// Run the finishing kernel and wait for it.
    Finish { on: Side, grid: u32, block: u32, params: SimParams },
    /// Wait, overwrite both particle buffers and both acceleration buffers, and wait.
    Restore { particles: Vec<Particle>, accelerations: Vec<Binary32> },
}

/// What came of an action.
pub enum Event {
    /// It was carried out.
    Completed,
    /// These particles were read.
    Particles(Vec<Particle>),
    /// The device failed.
    Failed,
}

/// What an [`Action`] says.
pub enum Order {
    Rest,
    Drift { source: Side, destination: Side, grid: u32, block: u32, params: SimParams },
    ReadBack { from: Side, count: usize },
    Upload { to: Side, particles: Seq<Particle> },
    Finish { on: Side, grid: u32, block: u32, params: SimParams },
    Restore { particles: Seq<Particle>, accelerations: Seq<Binary32> },
}

impl View for Action {
    type V = Order;

    open spec fn view(&self) -> Order {
        match *self {
            Action::Rest => Order::Rest,
            Action::Drift { source, destination, grid, block, params } => Order::Drift {
                source,
                destination,
                grid,
                block,
                params,
            },
            Action::ReadBack { from, count } => Order::ReadBack { from, count },
            Action::Upload { to, particles } => Order::Upload { to, particles: particles@ },
            Action::Finish { on, grid, block, params } => Order::Finish { on, grid, block, params },
            Action::Restore { particles, accelerations } => Order::Restore {
                particles: particles@,
                accelerations: accelerations@,
            },
        }
    }
}

/// What an [`Event`] says.
pub enum Reply {
    Completed,
    Particles(Seq<Particle>),
    Failed,
}

impl View for Event {
    type V = Reply;

    open spec fn view(&self) -> Reply {
        match *self {
            Event::Completed => Reply::Completed,
            Event::Particles(particles) => Reply::Particles(particles@),
            Event::Failed => Reply::Failed,
        }
    }
}

/// Which action the backend waits for.
#[derive(Clone, Copy, Debug, PartialEq)]
pub enum Phase {
    Idle,
    Drifting(SimParams),
    Reading(SimParams),
    Uploading(SimParams),
    Finishing,
    Restoring,
}

/// What the backend knows of the device.
#[derive(Clone, Copy, Debug, PartialEq)]
pub struct BackendState {
    /// The number of particles that each buffer holds.
    pub capacity: usize,
    /// The number of live particles, which come first in the source buffer.
    pub active_count: usize,
    /// The buffer with the current particles.
    pub source: Side,
    pub phase: Phase,
}

/// The particles, followed by zeroed records up to the given number.
pub open spec fn padded(particles: Seq<Particle>, capacity: nat) -> Seq<Particle> {
    Seq::new(
        capacity,
        |i: int|
            if i < particles.len() {
                particles[i]
            } else {
                Particle::zeroed()
            },
    )
}

impl BackendState {
    /// The number of blocks that cover the live particles.
    pub open spec fn grid(self) -> u32 {
        gpu::groups(self.active_count, BLOCK_SIZE) as u32
    }

    /// What follows a request for a step.
    pub open spec fn begun(self, params: SimParams) -> Result<(BackendState, Order), CudaError> {
        if params.count != self.active_count {
            Err(
                CudaError::CountMismatch {
                    active: self.active_count,
                    requested: params.count as usize,
                },
            )
        } else if self.active_count == 0 {
            Ok((BackendState { phase: Phase::Idle, ..self }, Order::Rest))
        } else {
            Ok(
                (
                    BackendState { phase: Phase::Drifting(params), ..self },
                    Order::Drift {
                        source: self.source,
                        destination: self.source.other(),
                        grid: self.grid(),
                        block: BLOCK_SIZE,
                        params,
                    },
                ),
            )
        }
    }

    /// What follows a request to start over with other particles.
    pub open spec fn restarted(self, particles: Seq<Particle>) -> Result<
        (BackendState, Order),
        CudaError,
    > {
        if particles.len() != self.capacity {
            Err(
                CudaError::CountMismatch {
                    active: self.capacity,
                    requested: particles.len() as usize,
                },
            )
        } else {
            Ok(
                (
                    BackendState { phase: Phase::Restoring, ..self },
                    Order::Restore {
                        particles,
                        accelerations: Seq::new(
                            self.capacity as nat,
                            |i: int| Binary32::from_bits(ZERO),
                        ),
                    },
                ),
            )
        }
    }

    /// What follows what came of the action that the backend waited for. A failure, or a reply
    /// to some other action, ends the request; what the device had done before stands.
    pub open spec fn advanced(self, reply: Reply) -> (BackendState, Order) {
        let ended = (BackendState { phase: Phase::Idle, ..self }, Order::Rest);
        match (self.phase, reply) {
            (Phase::Drifting(params), Reply::Completed) => {
                let source = self.source.other();
                (
                    BackendState { source, phase: Phase::Reading(params), ..self },
                    Order::ReadBack { from: source, count: self.active_count },
                )
            },
            (Phase::Reading(params), Reply::Particles(particles)) => {
                let merged = merging::merged_from(collision::live_of(particles), 0);
                (
                    BackendState {
                        active_count: merged.len() as usize,
                        phase: Phase::Uploading(params),
                        ..self
                    },
                    Order::Upload {
                        to: self.source,
                        particles: padded(merged, self.capacity as nat),
                    },
                )
            },
            (Phase::Uploading(params), Reply::Completed) => if self.active_count == 0 {
                ended
            } else {
                (
                    BackendState { phase: Phase::Finishing, ..self },
                    Order::Finish {
                        on: self.source,
                        grid: self.grid(),
                        block: BLOCK_SIZE,
                        params: SimParams { count: self.active_count as u32, ..params },
                    },
                )
            },
            (Phase::Restoring, Reply::Completed) => (
                BackendState {
                    active_count: self.capacity,
                    source: Side::A,
                    phase: Phase::Idle,
                    ..self
                },
                Order::Rest,
            ),
            _ => ended,
        }
    }
}

/// The host's side of the simulation.
pub struct CudaBackend {
    state: BackendState,
}

impl View for CudaBackend {
    type V = BackendState;

    closed spec fn view(&self) -> BackendState {
        self.state
    }
}

impl CudaBackend {
    /// There are no more live particles than a buffer holds.
    #[verifier::type_invariant]
    spec fn live_particles_fit(self) -> bool {
        self.state.active_count <= self.state.capacity
    }

    /// What a backend knows of a device both of whose particle buffers hold the given particles.
    pub open spec fn state_of(particles: Seq<Particle>) -> BackendState {
        BackendState {
            capacity: particles.len() as usize,
            active_count: particles.len() as usize,
            source: Side::A,
            phase: Phase::Idle,
        }
    }

    /// A backend for a device both of whose particle buffers hold the given particles.
    pub fn new(particles: &[Particle]) -> (backend: CudaBackend)
        ensures
            backend@ == CudaBackend::state_of(particles@),
    {
        CudaBackend {
            state: BackendState {
                capacity: particles.len(),
                active_count: particles.len(),
                source: Side::A,
                phase: Phase::Idle,
            },
        }
    }

    /// The number of live particles.
    pub fn active_count(&self) -> (count: usize)
        ensures
            count == self@.active_count,
            count <= self@.capacity,
    {
        proof {
            use_type_invariant(self);
        }
        self.state.active_count
    }

    /// Starts over with other particles.
    pub fn reset(&mut self, particles: &[Particle]) -> (answer: Result<Action, CudaError>)
        ensures
            match answer {
                Ok(action) => old(self)@.restarted(particles@) == Ok::<_, CudaError>(
                    (final(self)@, action@),
                ),
                Err(error) => {
                    &&& old(self)@.restarted(particles@) == Err::<(BackendState, Order), _>(error)
                    &&& final(self)@ == old(self)@
                },
            },
    {
        proof {
            use_type_invariant(&*self);
        }
        let capacity = self.state.capacity;
        if particles.len() != capacity {
            return Err(CudaError::CountMismatch { active: capacity, requested: particles.len() });
        }
        self.state = BackendState { phase: Phase::Restoring, ..self.state };
        let zero = Binary32::from_bits(ZERO);
        let mut copies: Vec<Particle> = Vec::new();
        let mut accelerations: Vec<Binary32> = Vec::new();
        let mut i: usize = 0;
        while i < capacity
            invariant
                i <= capacity == particles.len(),
                zero == Binary32::from_bits(ZERO),
                copies@ == particles@.take(i as int),
                accelerations@ == Seq::new(i as nat, |k: int| zero),
            decreases capacity - i,
        {
            copies.push(particles[i]);
            accelerations.push(zero);
            i = i + 1;
        }
        let action = Action::Restore { particles: copies, accelerations };
        proof {
            assert(copies@ == particles@);
            assert(accelerations@ == Seq::new(
                capacity as nat,
                |i: int| Binary32::from_bits(ZERO),
            ));
        }
        Ok(action)
    }

    /// Begins one step.
    pub fn step(&mut self, params: SimParams) -> (answer: Result<Action, CudaError>)
        ensures
            match answer {
                Ok(action) => old(self)@.begun(params) == Ok::<_, CudaError>(
                    (final(self)@, action@),
                ),
                Err(error) => {
                    &&& old(self)@.begun(params) == Err::<(BackendState, Order), _>(error)
                    &&& final(self)@ == old(self)@
                },
            },
    {
        proof {
            use_type_invariant(&*self);
        }
        let state = self.state;
        let requested_count = params.count as usize;
        if requested_count != state.active_count {
            return Err(
                CudaError::CountMismatch { active: state.active_count, requested: requested_count },
            );
        }
        if state.active_count == 0 {
            self.state = BackendState { phase: Phase::Idle, ..state };
            return Ok(Action::Rest);
        }
        self.state = BackendState { phase: Phase::Drifting(params), ..state };
        Ok(
            Action::Drift {
                source: state.source,
                destination: state.source.other(),
                grid: ceil_div(state.active_count, BLOCK_SIZE),
                block: BLOCK_SIZE,
                params,
            },
        )
    }

    /// The action that hands over the live particles.
    pub fn snapshot(&self) -> (action: Action)
        ensures
            action@ == (Order::ReadBack { from: self@.source, count: self@.active_count }),
    {
        Action::ReadBack { from: self.state.source, count: self.state.active_count }
    }

    /// Takes in what came of the action that the backend waits for. Particles that are read are
    /// the live ones.
    pub fn advance(&mut self, event: Event) -> (action: Action)
        requires
            event matches Event::Particles(particles) ==> particles.len() == old(self)@.active_count,
        ensures
            (final(self)@, action@) == old(self)@.advanced(event@),
    {
        proof {
            use_type_invariant(&*self);
        }
        let state = self.state;
        let ended = BackendState { phase: Phase::Idle, ..state };
        match (state.phase, event) {
            (Phase::Drifting(params), Event::Completed) => {
                let source = state.source.other();
                self.state = BackendState { source, phase: Phase::Reading(params), ..state };
                Action::ReadBack { from: source, count: state.active_count }
            },
            (Phase::Reading(params), Event::Particles(particles)) => {
                let mut compacted = particles;
                merge_colliding_particles(&mut compacted);
                proof {
                    collision::lemma_live_particles_live(particles@);
                    merging::law_merging_leaves_some(collision::live_of(particles@), 0);
                }
                let live = compacted.len();
                let ghost merged = compacted@;
                while compacted.len() < state.capacity
                    invariant
                        merged.len() <= compacted.len() <= state.capacity,
                        compacted@ == padded(merged, compacted.len() as nat),
                    decreases state.capacity - compacted.len(),
                {
                    compacted.push(Particle::zeroed());
                }
                self.state = BackendState {
                    active_count: live,
                    phase: Phase::Uploading(params),
                    ..state
                };
                Action::Upload { to: state.source, particles: compacted }
            },
            (Phase::Uploading(params), Event::Completed) => {
                if state.active_count == 0 {
                    self.state = ended;
                    Action::Rest
                } else {
                    self.state = BackendState { phase: Phase::Finishing, ..state };
                    Action::Finish {
                        on: state.source,
                        grid: ceil_div(state.active_count, BLOCK_SIZE),
                        block: BLOCK_SIZE,
                        params: SimParams { count: state.active_count as u32, ..params },
                    }
                }
            },
            (Phase::Restoring, Event::Completed) => {
                self.state = BackendState {
                    active_count: state.capacity,
                    source: Side::A,
                    phase: Phase::Idle,
                    ..state
                };
                Action::Rest
            },
            _ => {
                self.state = ended;
                Action::Rest
            },
        }
    }
}

/// The particle buffers of a device.
pub struct Memory {
    pub a: Seq<Particle>,
    pub b: Seq<Particle>,
}

impl Memory {
    /// What one buffer holds.
    pub open spec fn of(self, side: Side) -> Seq<Particle> {
        match side {
            Side::A => self.a,
            Side::B => self.b,
        }
    }

    /// The buffers with one overwritten.
    pub open spec fn with(self, side: Side, particles: Seq<Particle>) -> Memory {
        match side {
            Side::A => Memory { a: particles, ..self },
            Side::B => Memory { b: particles, ..self },
        }
    }

    /// The buffers after an action on a device whose kernels compute as the host's step does.
    pub open spec fn after(self, order: Order) -> Memory {
        match order {
            Order::Drift { source, destination, grid, block, params } => {
                let count = params.count as int;
                self.with(
                    destination,
                    reference::drifted(self.of(source).take(count), params) + self.of(
                        destination,
                    ).skip(count),
                )
            },
            Order::Upload { to, particles } => self.with(to, particles),
            Order::Finish { on, grid, block, params } => {
                let count = params.count as int;
                self.with(
                    on,
                    reference::finished(self.of(on).take(count), params) + self.of(on).skip(count),
                )
            },
            Order::Restore { particles, accelerations } => Memory { a: particles, b: particles },
            _ => self,
        }
    }

    /// The reply of such a device to an action.
    pub open spec fn reply(self, order: Order) -> Reply {
        match order {
            Order::ReadBack { from, count } => Reply::Particles(self.of(from).take(count as int)),
            _ => Reply::Completed,
        }
    }
}

/// The backend and the device after an action and all that follows from it, `bound` actions at
/// the most.
pub open spec fn carried_out(
    state: BackendState,
    memory: Memory,
    order: Order,
    bound: nat,
) -> (BackendState, Memory)
    decreases bound,
{
    if order is Rest || bound == 0 {
        (state, memory)
    } else {
        let (next, following) = state.advanced(memory.reply(order));
        carried_out(next, memory.after(order), following, (bound - 1) as nat)
    }
}

/// A step of a device whose kernels compute as the host does takes the live particles to where
/// the host's step takes them, and the backend knows how many are left and where they lie.
pub proof fn law_device_step_is_host_step(state: BackendState, memory: Memory, params: SimParams)
    requires
        state.active_count <= state.capacity,
        memory.a.len() == state.capacity,
        memory.b.len() == state.capacity,
        params.count == state.active_count,
    ensures
        ({
            let live = memory.of(state.source).take(state.active_count as int);
            let (begun, order) = state.begun(params)->Ok_0;
            let (last, left) = carried_out(begun, memory, order, 4);
            &&& state.begun(params) is Ok
            &&& last.phase is Idle
            &&& last.capacity == state.capacity
            &&& last.active_count <= state.active_count
            &&& left.of(last.source).len() == state.capacity
            &&& left.of(last.source).take(last.active_count as int) == reference::stepped(
                live,
                params,
            )
        }),
{
    let live = memory.of(state.source).take(state.active_count as int);
    let (s0, o0) = state.begun(params)->Ok_0;
    let drifted = reference::drifted(live, params);
    let merged = merging::merged_from(collision::live_of(drifted), 0);
    collision::lemma_live_particles_live(drifted);
    merging::law_merging_leaves_some(collision::live_of(drifted), 0);
    if state.active_count == 0 {
        assert(drifted == live);
        assert(merged == live);
        assert(reference::stepped(live, params) == live);
    } else {
        reveal_with_fuel(carried_out, 5);
        let m1 = memory.after(o0);
        let (s1, o1) = s0.advanced(memory.reply(o0));
        assert(m1.of(s1.source).take(s1.active_count as int) == drifted);
        let (s2, o2) = s1.advanced(m1.reply(o1));
        let m3 = m1.after(o2);
        let (s3, o3) = s2.advanced(m1.reply(o2));
        assert(m3.of(s2.source) == padded(merged, state.capacity as nat));
        assert(m3.of(s2.source).take(s2.active_count as int) == merged);
        if s2.active_count != 0 {
            let rest = SimParams { count: merged.len() as u32, ..params };
            let m4 = m3.after(o3);
            assert(m4.of(s2.source).take(s2.active_count as int) == reference::finished(merged, rest));
        }
    }
}

/// A reset of a device that does not fail leaves the given particles, all of them, in both
/// buffers.
pub proof fn law_reset_restores_all_particles(
    state: BackendState,
    memory: Memory,
    particles: Seq<Particle>,
)
    requires
        particles.len() == state.capacity,
    ensures
        ({
            let (begun, order) = state.restarted(particles)->Ok_0;
            let (last, left) = carried_out(begun, memory, order, 1);
            &&& state.restarted(particles) is Ok
            &&& last == BackendState {
                active_count: state.capacity,
                source: Side::A,
                phase: Phase::Idle,
                ..state
            }
            &&& left.a == particles
            &&& left.b == particles
        }),
{
    reveal_with_fuel(carried_out, 2);
}

/// A failure leaves the backend ready for the next request, with what the device had done before.
pub proof fn law_failures_end_the_request(state: BackendState)
    ensures
        state.advanced(Reply::Failed) == (
            BackendState { phase: Phase::Idle, ..state },
            Order::Rest,
        ),
{
}

} // verus!
