//! Where the time of a session on a compute device goes, and what it asks of the device for it.

use vstd::prelude::*;
use vstd::arithmetic::power2::*;
use crate::binary32::{Binary32, ZERO};
use crate::bodies::GRAVITATIONAL_CONSTANT;
use crate::cuda::{Order, Reply};
use crate::estimate;
use crate::frame;
use crate::frame::{FRAME_PHYSICS_MAX, FRAME_TIME_MAX, PHYSICS_DT};
use crate::numbers;
use crate::numbers::lesser;
use crate::rounding;
use crate::rounding::{product, size, slack};
use crate::session::{SessionState, Stage, SOFTENING_SQUARED};
use crate::timekeeping;
use crate::timekeeping::{spending_error, spent};

verus! {

/// A step lasts 1/120, up to rounding; the gravitational constant is 15 and the square of the
/// softening length 9; and all live particles take part.
pub proof fn law_step_parameters_are_as_documented(state: SessionState)
    requires
        state.backend.active_count <= u32::MAX,
    ensures
        state.params().count == state.backend.active_count,
        size(state.params().dt.number() - 1 as real / 120 as real) <= slack(state.params().dt),
        state.params().gravity.number() == 15 as real,
        state.params().softening_squared.number() == 9 as real,
{
    timekeeping::law_times_are_as_documented();
    lemma2_to64();
    numbers::lemma_bits(GRAVITATIONAL_CONSTANT, 20, 0x10_0000);
    numbers::lemma_bits(SOFTENING_SQUARED, 20, 0x10_0000);
}

/// The time saved up when the steps of a frame begin.
pub open spec fn time_to_spend(state: SessionState, frame_time: Binary32) -> Binary32 {
    frame::saved_up(
        state.saved,
        frame_time.min(Binary32::from_bits(FRAME_TIME_MAX)),
        Binary32::from_bits(FRAME_PHYSICS_MAX),
        state.controls.time_scale,
    )
}

/// The time that a frame adds, exactly: its own, 1/20 at the most, times the time scale.
pub open spec fn share(state: SessionState, frame_time: Binary32) -> real {
    product(
        lesser(frame_time.number(), 1 as real / 20 as real),
        state.controls.time_scale.number(),
    )
}

/// How far the time that a frame has to spend can be from the exact sum.
pub open spec fn saving_error(state: SessionState, frame_time: Binary32) -> real {
    timekeeping::share_error(
        state.saved,
        frame_time.min(Binary32::from_bits(FRAME_TIME_MAX)),
        Binary32::from_bits(FRAME_PHYSICS_MAX),
        state.controls.time_scale,
    ) + product(
        slack(Binary32::from_bits(FRAME_PHYSICS_MAX)),
        size(state.controls.time_scale.number()),
    )
}

/// The time that a frame has to spend is what was saved up before it and its own share.
proof fn lemma_time_to_spend(state: SessionState, frame_time: Binary32)
    requires
        frame_time.is_finite(),
        time_to_spend(state, frame_time).is_finite(),
    ensures
        size(
            time_to_spend(state, frame_time).number() - (state.saved.number() + share(
                state,
                frame_time,
            )),
        ) <= saving_error(state, frame_time),
{
    let most = Binary32::from_bits(FRAME_TIME_MAX);
    let limit = Binary32::from_bits(FRAME_PHYSICS_MAX);
    let scale = state.controls.time_scale.number();
    timekeeping::law_times_are_as_documented();
    lemma2_to64();
    numbers::lemma_bits(FRAME_TIME_MAX, 27, 0x800_0000);
    numbers::lemma_bits(FRAME_PHYSICS_MAX, 28, 0x1000_0000);
    numbers::law_lesser_and_greater(frame_time, most);
    timekeeping::law_frames_add_to_the_time_saved_up(
        state.saved,
        frame_time.min(most),
        limit,
        state.controls.time_scale,
    );
    let x = lesser(frame_time.min(most).number(), limit.number());
    let y = lesser(frame_time.number(), 1 as real / 20 as real);
    assert(size(x - y) <= slack(limit));
    estimate::lemma_products_of_three(x, scale, scale);
    estimate::lemma_products_of_three(y, scale, scale);
    estimate::lemma_product_of_near(scale, x, y, slack(limit));
    estimate::lemma_products_of_three(slack(limit), size(scale), scale);
}

/// Taking steps that the device has nothing to do for pays for them; a frame that took as many as
/// it may forgets the rest.
proof fn lemma_proceeding_pays(state: SessionState)
    requires
        state.completed <= 8,
        state.saved.is_finite(),
    ensures
        ({
            let after = state.proceeded().0;
            let steps = (after.completed - state.completed) as nat;
            &&& state.completed <= after.completed <= 8
            &&& after.controls.time_scale == state.controls.time_scale
            &&& after.completed < 8 ==> after.saved == spent(state.saved, steps)
                && after.saved.is_finite()
            &&& after.completed == 8 ==> after.saved == Binary32::from_bits(ZERO)
        }),
    decreases 8 - state.completed,
{
    if state.completed < 8 && frame::is_due(state.saved) {
        match state.backend.begun(state.params()) {
            Ok((backend, order)) => {
                let next = SessionState { backend, stage: Stage::Stepping, ..state };
                if order is Rest {
                    timekeeping::lemma_due_steps_leave_time(state.saved);
                    lemma_proceeding_pays(next.step_taken());
                    let after = state.proceeded().0;
                    if after.completed > state.completed {
                        timekeeping::lemma_spent_from_the_start(
                            state.saved,
                            (after.completed - state.completed - 1) as nat,
                        );
                    }
                }
            },
            Err(_) => {},
        }
    }
}

/// Time is not lost when a frame starts: what is saved up then, and 1/120 for every step that was
/// taken at once, is what was saved up before the frame and the frame's own time, 1/20 at the most,
/// times the time scale. Only a frame that took eight steps forgets the rest.
pub proof fn law_frames_keep_the_time_saved_up(state: SessionState, frame_time: Binary32)
    requires
        !state.controls.paused,
        frame_time.is_finite(),
        time_to_spend(state, frame_time).is_finite(),
    ensures
        ({
            let after = state.frame_started(frame_time).0;
            &&& after.completed <= 8
            &&& after.completed < 8 ==> size(
                after.saved.number() + after.completed as real / 120 as real - (
                state.saved.number() + share(state, frame_time)),
            ) <= saving_error(state, frame_time) + spending_error(
                time_to_spend(state, frame_time),
                after.completed as nat,
            )
            &&& after.completed == 8 ==> after.saved.number() == 0 as real
        }),
{
    let sum = time_to_spend(state, frame_time);
    let begun = SessionState { saved: sum, completed: 0, ..state };
    let after = state.frame_started(frame_time).0;
    assert(after == begun.proceeded().0);
    lemma_proceeding_pays(begun);
    lemma_time_to_spend(state, frame_time);
    estimate::lemma_zero();
    if after.completed < 8 {
        timekeeping::law_steps_cost_their_time(sum, after.completed as nat);
    }
}

/// A frame for which enough time is saved up begins a step of all live particles, from the buffer
/// that holds them to the other one; a frame for which there is not reads the particles, unless the
/// buffers may be half-written.
pub proof fn law_steps_begin_when_they_are_due(state: SessionState, frame_time: Binary32)
    requires
        !state.controls.paused,
        0 < state.backend.active_count <= u32::MAX,
        frame_time.is_finite(),
        time_to_spend(state, frame_time).is_finite(),
    ensures
        ({
            let (after, order) = state.frame_started(frame_time);
            let exact = state.saved.number() + share(state, frame_time);
            let error = saving_error(state, frame_time) + slack(Binary32::from_bits(PHYSICS_DT));
            &&& exact - error >= 1 as real / 120 as real ==> {
                &&& order matches Order::Drift { source, destination, grid, block, params } && {
                    &&& source == state.backend.source
                    &&& destination != state.backend.source
                    &&& block == 128
                    &&& grid * 128 >= state.backend.active_count > (grid - 1) * 128
                    &&& params == state.params()
                }
                &&& after.stage is Stepping
                &&& after.completed == 0
                &&& after.saved == time_to_spend(state, frame_time)
            }
            &&& exact + error < 1 as real / 120 as real ==> {
                &&& after.completed == 0
                &&& after.saved == time_to_spend(state, frame_time)
                &&& after.backend == state.backend
                &&& if state.is_spoiled() {
                    order is Rest
                } else {
                    order matches Order::ReadBack { from, count } && from == state.backend.source
                        && count == state.backend.active_count
                }
            }
        }),
{
    let sum = time_to_spend(state, frame_time);
    let dt = Binary32::from_bits(PHYSICS_DT);
    lemma_time_to_spend(state, frame_time);
    timekeeping::law_times_are_as_documented();
    numbers::law_comparisons_order_numbers(dt, sum);
    crate::gpu::law_groups_cover_the_items(state.backend.active_count, 128);
}

/// When the device has finished a step, 1/120 is taken away for it, and for every step that is
/// taken at once after it; while it works on one, the time saved up stays. Only a frame that took
/// eight steps forgets the rest.
pub proof fn law_steps_of_a_session_are_paid_for(state: SessionState)
    requires
        state.stage is Stepping,
        state.completed < 8,
        state.saved.is_finite(),
        frame::is_due(state.saved),
    ensures
        ({
            let (after, order) = state.resumed(Reply::Completed);
            let steps = after.completed - state.completed;
            state.backend.phase is Finishing ==> {
                &&& 1 <= steps
                &&& after.completed <= 8
                &&& after.completed < 8 ==> size(
                    after.saved.number() + steps as real / 120 as real - state.saved.number(),
                ) <= spending_error(state.saved, steps as nat)
                &&& after.completed == 8 ==> after.saved.number() == 0 as real
            }
        }),
        ({
            let (after, order) = state.resumed(Reply::Completed);
            state.backend.phase is Drifting ==> {
                &&& after.saved == state.saved
                &&& after.completed == state.completed
                &&& after.stage is Stepping
                &&& order is ReadBack
            }
        }),
        forall|particles: Seq<crate::types::Particle>|
            state.backend.phase is Reading ==> {
                let (after, order) = #[trigger] state.resumed(Reply::Particles(particles));
                &&& after.saved == state.saved
                &&& after.completed == state.completed
                &&& after.stage is Stepping
                &&& order is Upload
            },
{
    estimate::lemma_zero();
    if state.backend.phase is Finishing {
        let (backend, order) = state.backend.advanced(Reply::Completed);
        let next = SessionState { backend, ..state };
        timekeeping::lemma_due_steps_leave_time(state.saved);
        lemma_proceeding_pays(next.step_taken());
        let after = state.resumed(Reply::Completed).0;
        let steps = (after.completed - state.completed) as nat;
        timekeeping::lemma_spent_from_the_start(state.saved, (steps - 1) as nat);
        if after.completed < 8 {
            timekeeping::law_steps_cost_their_time(state.saved, steps);
        }
    }
}

} // verus!
