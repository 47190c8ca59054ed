//! How accurately frames keep the time, in plain numbers.

use vstd::prelude::*;
use vstd::arithmetic::power2::*;
use crate::binary32::Binary32;
use crate::cloud_frames;
use crate::frame;
use crate::frame::{FRAME_PHYSICS_MAX, FRAME_TIME_MAX, PHYSICS_DT};
use crate::merge_means;
use crate::moderation;
use crate::moderation::is_moderate;
use crate::numbers;
use crate::numbers::lesser;
use crate::rounding;
use crate::rounding::{product, size, slack};
use crate::session::SessionState;
use crate::session_time;
use crate::simulation::{Cloud, Simulation};
use crate::timekeeping;
use crate::timekeeping::{spending_error, spent};

verus! {

/// A time scale of no more than 256.
pub open spec fn is_scale(time_scale: Binary32) -> bool {
    time_scale.is_finite() && size(time_scale.number()) <= 256 as real
}

/// The time that a frame has to spend, exactly: what was saved up, and its own, 1/20 at the most,
/// times the time scale.
pub open spec fn exact_time(saved: Binary32, frame_time: Binary32, time_scale: Binary32) -> real {
    saved.number() + product(
        lesser(frame_time.number(), 1 as real / 20 as real),
        time_scale.number(),
    )
}

/// A hundred-thousandth of the time and of 16.
pub open spec fn time_error(saved: Binary32, frame_time: Binary32, time_scale: Binary32) -> real {
    (size(saved.number()) + size(exact_time(saved, frame_time, time_scale)) + 16 as real) / 100000 as real
}

/// The time of a step is 1/120, up to a millionth of it.
proof fn lemma_step_time()
    ensures
        ({
            let dt = Binary32::from_bits(PHYSICS_DT);
            &&& is_moderate(dt)
            &&& dt.number() > 0 as real
            &&& dt.number() < 1 as real / 100 as real
            &&& slack(dt) <= 1 as real / 100000000 as real
        }),
{
    timekeeping::law_times_are_as_documented();
    merge_means::lemma_tiny_least();
}

/// The time saved up after some steps is bounded.
proof fn lemma_spent_is_bounded(saved: Binary32, steps: nat)
    requires
        moderation::is_bounded(saved, 2, 209),
        steps <= 8,
    ensures
        moderation::is_bounded(spent(saved, steps), 2 + steps, 209),
    decreases steps,
{
    if steps > 0 {
        let dt = Binary32::from_bits(PHYSICS_DT);
        lemma_spent_is_bounded(saved, (steps - 1) as nat);
        lemma_step_time();
        moderation::lemma_moderate(dt);
        moderation::lemma_wider(dt, 179, 209);
        moderation::lemma_sum(spent(saved, (steps - 1) as nat), dt, (1 + steps) as nat, 1, 209);
    }
}

/// Paying for up to eight steps is off by next to nothing.
proof fn lemma_spending(saved: Binary32, steps: nat)
    requires
        moderation::is_bounded(saved, 2, 209),
        steps <= 8,
    ensures
        spending_error(saved, steps) <= steps as real * (size(saved.number()) + 1 as real)
            / 0x40_0000 as real,
    decreases steps,
{
    let a = size(saved.number());
    if steps > 0 {
        let before = (steps - 1) as nat;
        let dt = Binary32::from_bits(PHYSICS_DT);
        lemma_spending(saved, before);
        lemma_spent_is_bounded(saved, before);
        lemma_spent_is_bounded(saved, steps);
        lemma_step_time();
        merge_means::lemma_tiny_least();
        timekeeping::law_steps_cost_their_time(saved, before);
        rounding::law_differences_are_near(spent(saved, before), dt);
        let (n, k) = (steps as real, before as real);
        assert(n == k + 1 as real);
        assert(n * (a + 1 as real) == k * (a + 1 as real) + (a + 1 as real)) by (nonlinear_arith)
            requires
                n == k + 1 as real,
        ;
        assert(k * (a + 1 as real) <= 8 as real * (a + 1 as real)) by (nonlinear_arith)
            requires
                k <= 8 as real,
                a >= 0 as real,
        ;
    } else {
        assert(0 as real * (a + 1 as real) == 0 as real) by (nonlinear_arith);
    }
}

/// The time that a frame has to spend is off by next to nothing.
proof fn lemma_saving(saved: Binary32, frame_time: Binary32, time_scale: Binary32)
    requires
        is_moderate(saved),
        is_moderate(frame_time),
        is_scale(time_scale),
    ensures
        ({
            let sum = cloud_frames::time_to_spend(saved, frame_time, time_scale);
            let exact = exact_time(saved, frame_time, time_scale);
            &&& moderation::is_bounded(sum, 2, 209)
            &&& cloud_frames::saving_error(saved, frame_time, time_scale) <= (size(saved.number())
                + size(exact) + 16 as real) / 0x40_0000 as real
            &&& size(sum.number() - exact) <= cloud_frames::saving_error(saved, frame_time, time_scale)
        }),
{
    let most = Binary32::from_bits(FRAME_TIME_MAX);
    let limit = Binary32::from_bits(FRAME_PHYSICS_MAX);
    let passed = frame_time.min(most);
    let time = passed.min(limit);
    cloud_frames::law_frames_bring_their_time(saved, frame_time, time_scale);
    merge_means::lemma_tiny_least();
    timekeeping::law_times_are_as_documented();
    lemma2_to64();
    numbers::lemma_bits(FRAME_TIME_MAX, 27, 0x800_0000);
    numbers::lemma_bits(FRAME_PHYSICS_MAX, 28, 0x1000_0000);
    numbers::law_lesser_and_greater(frame_time, most);
    numbers::law_lesser_and_greater(passed, limit);
    moderation::lemma_moderate(saved);
    moderation::lemma_moderate(time);
    moderation::lemma_moderate(time_scale);
    moderation::lemma_product(time, time_scale, 179, 179, 209);
    moderation::lemma_wider(saved, 179, 209);
    moderation::lemma_sum(saved, time * time_scale, 1, 1, 209);
    rounding::law_sums_are_near(saved, time * time_scale);
    let sum = cloud_frames::time_to_spend(saved, frame_time, time_scale);
    assert(sum == saved + time * time_scale);
    let (c, s) = (slack(limit), size(time_scale.number()));
    reveal(product);
    assert(c * s <= c * 256 as real) by (nonlinear_arith)
        requires
            c > 0 as real,
            s <= 256 as real,
            s >= 0 as real,
    ;
}

/// No frame of a session loses time: what is saved up when it has started, and 1/120 for every step
/// that was taken at once, is what was saved up before the frame and the frame's own time, 1/20 at
/// the most, times the time scale, up to a hundred-thousandth. Only a frame that took eight steps
/// forgets the rest.
pub proof fn law_sessions_keep_time_accurately(state: SessionState, frame_time: Binary32)
    requires
        !state.controls.paused,
        is_moderate(state.saved),
        is_moderate(frame_time),
        is_scale(state.controls.time_scale),
    ensures
        ({
            let after = state.frame_started(frame_time).0;
            let (saved, scale) = (state.saved, state.controls.time_scale);
            &&& after.completed <= 8
            &&& after.completed < 8 ==> size(
                after.saved.number() + after.completed as real / 120 as real - exact_time(
                    saved,
                    frame_time,
                    scale,
                ),
            ) <= time_error(saved, frame_time, scale)
            &&& after.completed == 8 ==> after.saved.number() == 0 as real
        }),
{
    let (saved, scale) = (state.saved, state.controls.time_scale);
    let sum = cloud_frames::time_to_spend(saved, frame_time, scale);
    lemma_saving(saved, frame_time, scale);
    assert(sum == session_time::time_to_spend(state, frame_time));
    session_time::law_frames_keep_the_time_saved_up(state, frame_time);
    let after = state.frame_started(frame_time).0;
    if after.completed < 8 {
        lemma_spending(sum, after.completed as nat);
        lemma_eight_times(after.completed as real, size(sum.number()) + 1 as real);
    }
}

/// No more than eight times.
proof fn lemma_eight_times(n: real, x: real)
    requires
        n <= 8 as real,
        x >= 0 as real,
    ensures
        n * x <= 8 as real * x,
{
    assert(n * x <= 8 as real * x) by (nonlinear_arith)
        requires
            n <= 8 as real,
            x >= 0 as real,
    ;
}

/// No frame of a cloud on the host loses time: the particles go through as many steps of 1/120 as
/// there is time for, and what is left stays for the next frame, up to a hundred-thousandth.
pub proof fn law_clouds_keep_time_accurately<C: Cloud>(
    before: Simulation<C>,
    after: Simulation<C>,
    frame_time: Binary32,
)
    requires
        after.passes(before, frame_time),
        !before.controls.paused,
        0 < C::step_limit() <= 8,
        is_moderate(before.accumulated_time),
        is_moderate(frame_time),
        is_scale(before.controls.time_scale),
    ensures
        ({
            let (saved, scale) = (before.accumulated_time, before.controls.time_scale);
            exists|steps: nat|
                #[trigger] cloud_frames::spends(
                    after,
                    before,
                    steps,
                    exact_time(saved, frame_time, scale),
                    time_error(saved, frame_time, scale),
                )
        }),
{
    let (saved, scale) = (before.accumulated_time, before.controls.time_scale);
    let sum = cloud_frames::time_to_spend(saved, frame_time, scale);
    let time = exact_time(saved, frame_time, scale);
    lemma_saving(saved, frame_time, scale);
    cloud_frames::law_frames_of_clouds_keep_time(before, after, frame_time);
    let steps = choose|steps: nat|
        #[trigger] cloud_frames::spends(
            after,
            before,
            steps,
            time,
            cloud_frames::saving_error(saved, frame_time, scale) + spending_error(sum, steps),
        );
    lemma_spending(sum, steps);
    lemma_eight_times(steps as real, size(sum.number()) + 1 as real);
    assert(cloud_frames::spends(after, before, steps, time, time_error(saved, frame_time, scale)));
}

} // verus!
