//! What a whole frame of a session does on a device whose kernels compute as the host does: it takes
//! the particles as many steps along as are due, and shows what has become of them.

use vstd::prelude::*;
use crate::binary32::{Binary32, ZERO};
use crate::bodies::GRAVITATIONAL_CONSTANT;
use crate::collision;
use crate::cuda;
use crate::cuda::{BackendState, Memory, Order, Reply};
use crate::error::CudaError;
use crate::frame;
use crate::frame::PHYSICS_DT;
use crate::gpu;
use crate::merging;
use crate::reference;
use crate::reference_newton;
use crate::session::{Failure, SessionState, Stage, SOFTENING_SQUARED};
use crate::session_time;
use crate::timekeeping;
use crate::types::{Particle, SimParams};

verus! {

/// The session and the device after an action and all that follows from it, `bound` actions at the
/// most.
pub open spec fn run(state: SessionState, memory: Memory, order: Order, bound: nat) -> (
    SessionState,
    Memory,
)
    decreases bound,
{
    if order is Rest || bound == 0 {
        (state, memory)
    } else {
        let (next, following) = state.resumed(memory.reply(order));
        run(next, memory.after(order), following, (bound - 1) as nat)
    }
}

/// The parameters of a step of so many particles.
pub open spec fn step_of(count: nat) -> SimParams {
    SimParams {
        count: count as u32,
        dt: Binary32::from_bits(PHYSICS_DT),
        gravity: Binary32::from_bits(GRAVITATIONAL_CONSTANT),
        softening_squared: Binary32::from_bits(SOFTENING_SQUARED),
    }
}

/// The particles after so many steps on the host, in each of which all that are left take part.
pub open spec fn after_steps(particles: Seq<Particle>, steps: nat) -> Seq<Particle>
    decreases steps,
{
    if steps == 0 {
        particles
    } else {
        let before = after_steps(particles, (steps - 1) as nat);
        reference::stepped(before, step_of(before.len()))
    }
}

/// Taking the first step first is taking one step more.
proof fn lemma_first_step(particles: Seq<Particle>, steps: nat)
    ensures
        after_steps(reference::stepped(particles, step_of(particles.len())), steps) == after_steps(
            particles,
            steps + 1,
        ),
    decreases steps,
{
    reveal_with_fuel(after_steps, 2);
    if steps > 0 {
        lemma_first_step(particles, (steps - 1) as nat);
    }
}

/// The buffers of the device are as large as the backend knows, and hold the live particles.
pub open spec fn is_consistent(state: SessionState, memory: Memory) -> bool {
    &&& state.backend.active_count <= state.backend.capacity <= u32::MAX
    &&& memory.a.len() == state.backend.capacity
    &&& memory.b.len() == state.backend.capacity
}

/// The live particles in the buffer that the backend takes them to be in.
pub open spec fn live(state: SessionState, memory: Memory) -> Seq<Particle> {
    memory.of(state.backend.source).take(state.backend.active_count as int)
}

/// A step that has begun is carried out, action by action, and then counts as taken.
proof fn lemma_step(state: SessionState, memory: Memory, bound: nat) -> (used: nat)
    requires
        is_consistent(state, memory),
        state.backend.active_count > 0,
        bound >= 4,
    ensures
        3 <= used <= 4,
        ({
            let (backend, order) = state.backend.begun(state.params())->Ok_0;
            let begun = SessionState { backend, stage: Stage::Stepping, ..state };
            let (last, left) = cuda::carried_out(backend, memory, order, 4);
            let taken = SessionState {
                backend: last,
                stage: Stage::Stepping,
                ..state
            }.step_taken();
            let (next, following) = taken.proceeded();
            &&& state.backend.begun(state.params()) is Ok
            &&& !(order is Rest)
            &&& is_consistent(taken, left)
            &&& live(taken, left) == reference::stepped(
                live(state, memory),
                step_of(live(state, memory).len()),
            )
            &&& last.phase is Idle
            &&& run(begun, memory, order, bound) == run(
                next,
                left,
                following,
                (bound - used) as nat,
            )
        }),
{
    let params = state.params();
    let particles = live(state, memory);
    assert(params == step_of(particles.len()));
    cuda::law_device_step_is_host_step(state.backend, memory, params);
    let (b0, o0) = state.backend.begun(params)->Ok_0;
    let s0 = SessionState { backend: b0, stage: Stage::Stepping, ..state };
    let (last, left) = cuda::carried_out(b0, memory, o0, 4);
    reveal_with_fuel(cuda::carried_out, 5);
    reveal_with_fuel(run, 5);
    let m1 = memory.after(o0);
    let (b1, o1) = b0.advanced(memory.reply(o0));
    let s1 = SessionState { backend: b1, ..s0 };
    assert(s0.resumed(memory.reply(o0)) == (s1, o1));
    let (b2, o2) = b1.advanced(m1.reply(o1));
    let s2 = SessionState { backend: b2, ..s0 };
    assert(s1.resumed(m1.reply(o1)) == (s2, o2));
    let m3 = m1.after(o2);
    let (b3, o3) = b2.advanced(m1.reply(o2));
    let s3 = SessionState { backend: b3, ..s0 };
    lemma_buffers_keep_their_sizes(state, memory);
    if o3 is Rest {
        assert(s2.resumed(m1.reply(o2)) == s3.step_taken().proceeded());
        assert(last == b3 && left == m3);
        3
    } else {
        assert(s2.resumed(m1.reply(o2)) == (s3, o3));
        let m4 = m3.after(o3);
        let (b4, o4) = b3.advanced(m3.reply(o3));
        let s4 = SessionState { backend: b4, ..s0 };
        assert(s3.resumed(m3.reply(o3)) == s4.step_taken().proceeded());
        assert(last == b4 && left == m4);
        4
    }
}

/// The actions of a step leave buffers of the same size.
proof fn lemma_buffers_keep_their_sizes(state: SessionState, memory: Memory)
    requires
        is_consistent(state, memory),
        state.backend.active_count > 0,
    ensures
        ({
            let (backend, order) = state.backend.begun(state.params())->Ok_0;
            let left = cuda::carried_out(backend, memory, order, 4).1;
            left.a.len() == state.backend.capacity && left.b.len() == state.backend.capacity
        }),
{
    let params = state.params();
    reveal_with_fuel(cuda::carried_out, 5);
    let (b0, o0) = state.backend.begun(params)->Ok_0;
    let m1 = memory.after(o0);
    let (b1, o1) = b0.advanced(memory.reply(o0));
    let (b2, o2) = b1.advanced(m1.reply(o1));
    let m3 = m1.after(o2);
    let (b3, o3) = b2.advanced(m1.reply(o2));
    let read = m1.of(b1.source).take(b1.active_count as int);
    collision::lemma_live_particles_live(read);
    merging::law_merging_leaves_some(collision::live_of(read), 0);
    assert(m1.a.len() == state.backend.capacity && m1.b.len() == state.backend.capacity);
    assert(m3.a.len() == state.backend.capacity && m3.b.len() == state.backend.capacity);
    assert(b2.active_count <= state.backend.capacity);
}

/// From the start of its steps on, a frame takes the particles as many steps along as are due, reads
/// them, and pays for the steps.
proof fn lemma_frame(state: SessionState, memory: Memory, bound: nat)
    requires
        is_consistent(state, memory),
        state.completed <= 8,
        state.saved.is_finite(),
        !state.is_spoiled(),
        bound >= 4 * (8 - state.completed) + 1,
    ensures
        ({
            let (first, order) = state.proceeded();
            let (last, left) = run(first, memory, order, bound);
            let steps = (frame::steps_taken(state.saved, state.completed as nat, 8)
                - state.completed) as nat;
            &&& frame::steps_taken(state.saved, state.completed as nat, 8) >= state.completed
            &&& last.stage is Idle
            &&& last.snapshot == after_steps(live(state, memory), steps)
            &&& last.saved == frame::time_left(state.saved, state.completed as nat, 8)
            &&& last.failure is None
            &&& last.controls == state.controls
            &&& is_consistent(last, left)
            &&& live(last, left) == last.snapshot
        }),
    decreases 8 - state.completed,
{
    let done = state.completed as nat;
    let particles = live(state, memory);
    frame::law_steps_are_bounded(state.saved, done, 8);
    let (first, order) = state.proceeded();
    if state.completed < 8 && frame::is_due(state.saved) {
        timekeeping::lemma_due_steps_leave_time(state.saved);
        let left = state.saved - Binary32::from_bits(PHYSICS_DT);
        frame::law_steps_are_bounded(left, done + 1, 8);
        let steps = (frame::steps_taken(left, done + 1, 8) - (done + 1)) as nat;
        let (backend, begun) = state.backend.begun(state.params())->Ok_0;
        if state.backend.active_count == 0 {
            let taken = SessionState { backend, stage: Stage::Stepping, ..state }.step_taken();
            assert(state.proceeded() == taken.proceeded());
            lemma_frame(taken, memory, bound);
            assert(particles == Seq::<Particle>::empty());
            reference::law_nothing_stays_nothing(step_of(0));
            assert(live(taken, memory) == reference::stepped(particles, step_of(particles.len())));
            lemma_first_step(particles, steps);
        } else {
            let used = lemma_step(state, memory, bound);
            let (last, m) = cuda::carried_out(backend, memory, begun, 4);
            let taken = SessionState {
                backend: last,
                stage: Stage::Stepping,
                ..state
            }.step_taken();
            lemma_frame(taken, m, (bound - used) as nat);
            lemma_first_step(particles, steps);
        }
    } else {
        reveal_with_fuel(run, 2);
        let next = first.resumed(memory.reply(order)).0;
        assert(order is ReadBack);
        assert(run(first, memory, order, bound) == (next, memory));
        assert(next.snapshot == particles);
        match state.failure {
            None => {},
            Some(failure) => {
                match failure {
                    Failure::Step => {},
                    Failure::Reset => {},
                    Failure::ReadBack => {},
                }
            },
        }
    }
}

/// A frame that is not paused, on a device whose kernels compute as the host does, takes the live
/// particles as many steps along as the time saved up is enough for, eight at the most, and then
/// shows what has become of them; the time that is left is kept, no failure stands, and the session
/// is ready for the next frame.
pub proof fn law_frames_take_the_particles_along(
    state: SessionState,
    memory: Memory,
    frame_time: Binary32,
)
    requires
        is_consistent(state, memory),
        !state.controls.paused,
        !state.is_spoiled(),
        session_time::time_to_spend(state, frame_time).is_finite(),
    ensures
        ({
            let (first, order) = state.frame_started(frame_time);
            let (last, left) = run(first, memory, order, 33);
            let saved = session_time::time_to_spend(state, frame_time);
            &&& last.stage is Idle
            &&& last.snapshot == after_steps(
                live(state, memory),
                frame::steps_taken(saved, 0, 8),
            )
            &&& last.saved == frame::time_left(saved, 0, 8)
            &&& last.failure is None
            &&& last.controls == state.controls
            &&& is_consistent(last, left)
            &&& live(last, left) == last.snapshot
        }),
{
    let begun = SessionState {
        saved: session_time::time_to_spend(state, frame_time),
        completed: 0,
        ..state
    };
    assert(state.frame_started(frame_time) == begun.proceeded());
    lemma_frame(begun, memory, 33);
}

/// A paused frame takes the particles nowhere and shows them as they are.
pub proof fn law_paused_frames_show_the_particles_as_they_are(
    state: SessionState,
    memory: Memory,
    frame_time: Binary32,
)
    requires
        is_consistent(state, memory),
        state.controls.paused,
        !state.is_spoiled(),
    ensures
        ({
            let (first, order) = state.frame_started(frame_time);
            let (last, left) = run(first, memory, order, 1);
            &&& last.stage is Idle
            &&& last.snapshot == live(state, memory)
            &&& last.saved == state.saved
            &&& last.controls == state.controls
            &&& last.backend == state.backend
            &&& left == memory
        }),
{
    reveal_with_fuel(run, 2);
}

/// A reset with as many particles as the buffers hold leaves them in both buffers, forgets the time
/// saved up and any failure, and keeps the controls; one with another number changes nothing on the
/// device, pauses, and is remembered as failed.
pub proof fn law_resets_start_over(
    state: SessionState,
    memory: Memory,
    particles: Seq<Particle>,
)
    ensures
        ({
            let (first, order) = state.restarted(particles);
            let (last, left) = run(first, memory, order, 1);
            &&& particles.len() == state.backend.capacity ==> {
                &&& last.stage is Idle
                &&& left.a == particles
                &&& left.b == particles
                &&& live(last, left) == particles
                &&& last.backend.active_count == state.backend.capacity
                &&& last.backend.capacity == state.backend.capacity
                &&& last.backend.phase is Idle
                &&& last.saved == Binary32::from_bits(ZERO)
                &&& last.failure is None
                &&& last.controls == state.controls
                &&& last.snapshot == state.snapshot
            }
            &&& particles.len() != state.backend.capacity ==> {
                &&& order is Rest
                &&& last.backend == state.backend
                &&& last.controls.paused
                &&& last.failure == Some(Failure::Reset)
                &&& last.saved == state.saved
                &&& last.snapshot == state.snapshot
            }
        }),
{
    reveal_with_fuel(run, 2);
    if particles.len() == state.backend.capacity {
        assert(particles.take(particles.len() as int) == particles);
    }
}

/// What is left of the particles after the merging fills a buffer: the particles first, in order,
/// and zeroed records behind them.
pub proof fn law_uploads_fill_the_buffer(state: BackendState, particles: Seq<Particle>)
    requires
        state.phase is Reading,
        particles.len() <= state.capacity,
    ensures
        ({
            let (after, order) = state.advanced(Reply::Particles(particles));
            let left = merging::merged_from(
                particles.filter(|particle: Particle| particle.alive != 0),
                0,
            );
            &&& order matches Order::Upload { to, particles: uploaded } && {
                &&& to == state.source
                &&& uploaded.len() == state.capacity
                &&& left.len() <= uploaded.len()
                &&& uploaded.take(left.len() as int) == left
                &&& forall|i: int|
                    left.len() <= i < uploaded.len() ==> #[trigger] uploaded[i]
                        == Particle::zeroed()
            }
            &&& after.active_count == left.len()
            &&& after.source == state.source
        }),
{
    reference_newton::law_live_particles_are_those_that_live(particles);
    collision::lemma_live_particles_live(particles);
    merging::law_merging_leaves_some(collision::live_of(particles), 0);
    let left = merging::merged_from(collision::live_of(particles), 0);
    assert(cuda::padded(left, state.capacity as nat).take(left.len() as int) == left);
}

/// The finishing kernel runs on all particles that are left, in the buffer that they lie in, with
/// the parameters of the step; where none is left, the step ends without it.
pub proof fn law_all_that_are_left_are_finished(state: BackendState)
    requires
        state.phase is Uploading,
        state.active_count <= u32::MAX,
    ensures
        ({
            let (after, order) = state.advanced(Reply::Completed);
            &&& state.active_count == 0 ==> order is Rest
            &&& state.active_count > 0 ==> (order matches Order::Finish { on, grid, block, params }
                && {
                &&& on == state.source
                &&& block == 128
                &&& grid * 128 >= state.active_count > (grid - 1) * 128
                &&& params == SimParams {
                    count: state.active_count as u32,
                    ..state.phase->Uploading_0
                }
            })
            &&& after.active_count == state.active_count
            &&& after.source == state.source
        }),
{
    gpu::law_groups_cover_the_items(state.active_count, 128);
}

/// A step is refused if and only if it is asked for with another number of particles than live, and
/// a reset if and only if it brings another number than the buffers hold; the error says which.
pub proof fn law_counts_have_to_match(
    state: BackendState,
    params: SimParams,
    particles: Seq<Particle>,
)
    requires
        particles.len() <= usize::MAX,
    ensures
        state.begun(params) is Err <==> params.count != state.active_count,
        state.begun(params) matches Err(CudaError::CountMismatch { active, requested }) ==> active
            == state.active_count && requested == params.count,
        state.restarted(particles) is Err <==> particles.len() != state.capacity,
        state.restarted(particles) matches Err(CudaError::CountMismatch { active, requested })
            ==> active == state.capacity && requested == particles.len(),
{
}

} // verus!
