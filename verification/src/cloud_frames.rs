//! What a frame does to a simulation on the host: where its time goes, and which steps it takes.

use vstd::prelude::*;
use vstd::arithmetic::power2::*;
use crate::binary32::Binary32;
use crate::estimate;
use crate::frame;
use crate::frame::{FRAME_PHYSICS_MAX, FRAME_TIME_MAX, PHYSICS_DT};
use crate::moderation;
use crate::numbers;
use crate::numbers::lesser;
use crate::rounding::{product, size, slack};
use crate::simulation;
use crate::simulation::{Cloud, Simulation};
use crate::timekeeping;

verus! {

/// The time that a frame has to spend.
pub open spec fn time_to_spend(saved: Binary32, frame_time: Binary32, time_scale: Binary32) -> Binary32 {
    frame::saved_up(
        saved,
        frame_time.min(Binary32::from_bits(FRAME_TIME_MAX)),
        Binary32::from_bits(FRAME_PHYSICS_MAX),
        time_scale,
    )
}

/// How far the time that a frame has to spend can be from the exact sum.
pub open spec fn saving_error(saved: Binary32, frame_time: Binary32, time_scale: Binary32) -> real {
    timekeeping::share_error(
        saved,
        frame_time.min(Binary32::from_bits(FRAME_TIME_MAX)),
        Binary32::from_bits(FRAME_PHYSICS_MAX),
        time_scale,
    ) + product(slack(Binary32::from_bits(FRAME_PHYSICS_MAX)), size(time_scale.number()))
}

/// A frame has the time to spend that was saved up before it, and its own, 1/20 at the most, times
/// the time scale; up to rounding.
pub proof fn law_frames_bring_their_time(saved: Binary32, frame_time: Binary32, time_scale: Binary32)
    requires
        moderation::is_moderate(saved),
        moderation::is_moderate(frame_time),
        moderation::is_moderate(time_scale),
    ensures
        time_to_spend(saved, frame_time, time_scale).is_finite(),
        size(
            time_to_spend(saved, frame_time, time_scale).number() - (saved.number() + product(
                lesser(frame_time.number(), 1 as real / 20 as real),
                time_scale.number(),
            )),
        ) <= saving_error(saved, frame_time, time_scale),
{
    let most = Binary32::from_bits(FRAME_TIME_MAX);
    let limit = Binary32::from_bits(FRAME_PHYSICS_MAX);
    let scale = time_scale.number();
    timekeeping::law_times_are_as_documented();
    lemma2_to64();
    numbers::lemma_bits(FRAME_TIME_MAX, 27, 0x800_0000);
    numbers::lemma_bits(FRAME_PHYSICS_MAX, 28, 0x1000_0000);
    numbers::law_lesser_and_greater(frame_time, most);
    moderation::law_moderate_frames_save_up_a_finite_time(
        saved,
        frame_time.min(most),
        limit,
        time_scale,
    );
    timekeeping::law_frames_add_to_the_time_saved_up(
        saved,
        frame_time.min(most),
        limit,
        time_scale,
    );
    let x = lesser(frame_time.min(most).number(), limit.number());
    let y = lesser(frame_time.number(), 1 as real / 20 as real);
    assert(size(x - y) <= slack(limit));
    estimate::lemma_products_of_three(x, scale, scale);
    estimate::lemma_products_of_three(y, scale, scale);
    estimate::lemma_product_of_near(scale, x, y, slack(limit));
    estimate::lemma_products_of_three(slack(limit), size(scale), scale);
}

/// The particles went through so many steps, which cost 1/120 each, and the rest of the time that
/// there was to spend is left; but a frame that took as many steps as it may forgets the rest.
pub open spec fn spends<C: Cloud>(
    after: Simulation<C>,
    before: Simulation<C>,
    steps: nat,
    time: real,
    error: real,
) -> bool {
    let left = after.accumulated_time;
    let cost = steps as real / 120 as real;
    &&& after.cloud.all() == simulation::after_steps::<C>(before.cloud.all(), steps)
    &&& steps <= C::step_limit()
    &&& left.is_finite()
    &&& steps < C::step_limit() ==> size(left.number() + cost - time) <= error
    &&& steps < C::step_limit() ==> left.number() < 1 as real / 120 as real + slack(
        Binary32::from_bits(PHYSICS_DT),
    )
    &&& steps == C::step_limit() ==> left.number() == 0 as real
    &&& steps > 0 ==> cost <= time + error
}

/// No frame loses time: the particles go through as many steps of 1/120 as there is time for, and
/// what is left stays for the next frame. There is the time saved up before the frame, and its own,
/// 1/20 at the most, times the time scale. Only a frame that took as many steps as it may forgets
/// the rest. The trails follow the particles after the steps, and the controls stay.
pub proof fn law_frames_of_clouds_keep_time<C: Cloud>(
    before: Simulation<C>,
    after: Simulation<C>,
    frame_time: Binary32,
)
    requires
        after.passes(before, frame_time),
        !before.controls.paused,
        C::step_limit() > 0,
        moderation::is_moderate(before.accumulated_time),
        moderation::is_moderate(before.controls.time_scale),
        moderation::is_moderate(frame_time),
    ensures
        after.controls == before.controls,
        exists|steps: nat|
            #[trigger] spends(
                after,
                before,
                steps,
                before.accumulated_time.number() + product(
                    lesser(frame_time.number(), 1 as real / 20 as real),
                    before.controls.time_scale.number(),
                ),
                saving_error(
                    before.accumulated_time,
                    frame_time,
                    before.controls.time_scale,
                ) + timekeeping::spending_error(
                    time_to_spend(
                        before.accumulated_time,
                        frame_time,
                        before.controls.time_scale,
                    ),
                    steps,
                ),
            ),
        exists|passed: Binary32|
            {
                &&& #[trigger] after.trails.follows(before.trails, after.cloud.all(), passed)
                &&& passed.is_finite()
                &&& size(passed.number() - lesser(frame_time.number(), 1 as real / 10 as real))
                    <= slack(Binary32::from_bits(FRAME_TIME_MAX))
            },
{
    let (saved, scale) = (before.accumulated_time, before.controls.time_scale);
    let most = Binary32::from_bits(FRAME_TIME_MAX);
    let sum = time_to_spend(saved, frame_time, scale);
    let steps = frame::steps_taken(sum, 0, C::step_limit());
    law_frames_bring_their_time(saved, frame_time, scale);
    timekeeping::law_time_is_not_lost(sum, C::step_limit());
    timekeeping::law_times_are_as_documented();
    lemma2_to64();
    numbers::lemma_bits(FRAME_TIME_MAX, 27, 0x800_0000);
    numbers::law_lesser_and_greater(frame_time, most);
    let time = saved.number() + product(
        lesser(frame_time.number(), 1 as real / 20 as real),
        scale.number(),
    );
    let error = saving_error(saved, frame_time, scale) + timekeeping::spending_error(sum, steps);
    assert(spends(after, before, steps, time, error));
    let passed = frame_time.min(most);
    assert(after.trails.follows(before.trails, after.cloud.all(), passed));
}

/// A frame of a paused simulation changes nothing.
pub proof fn law_paused_clouds_stand_still<C: Cloud>(
    before: Simulation<C>,
    after: Simulation<C>,
    frame_time: Binary32,
)
    requires
        after.passes(before, frame_time),
        before.controls.paused,
    ensures
        after == before,
{
}

} // verus!
