//! Where the time goes: what a frame adds to the time saved up, and what its steps take away.

use vstd::prelude::*;
use vstd::arithmetic::power2::*;
use crate::binary32;
use crate::binary32::{Binary32, ZERO};
use crate::estimate;
use crate::frame;
use crate::frame::{FRAME_PHYSICS_MAX, FRAME_TIME_MAX, PHYSICS_DT, TRAIL_SAMPLE_INTERVAL};
use crate::magnitude;
use crate::numbers;
use crate::numbers::lesser;
use crate::rounding;
use crate::rounding::{product, size, slack};

verus! {

/// The time of a step is 1/120, that between two samples 1/45, a frame counts for no more than
/// 1/10, and for the physics for no more than 1/20, up to what rounding makes of these numbers.
pub proof fn law_times_are_as_documented()
    ensures
        Binary32::from_bits(PHYSICS_DT).is_finite(),
        Binary32::from_bits(TRAIL_SAMPLE_INTERVAL).is_finite(),
        Binary32::from_bits(FRAME_TIME_MAX).is_finite(),
        Binary32::from_bits(FRAME_PHYSICS_MAX).is_finite(),
        size(Binary32::from_bits(PHYSICS_DT).number() - 1 as real / 120 as real) <= slack(
            Binary32::from_bits(PHYSICS_DT),
        ),
        size(Binary32::from_bits(TRAIL_SAMPLE_INTERVAL).number() - 1 as real / 45 as real) <= slack(
            Binary32::from_bits(TRAIL_SAMPLE_INTERVAL),
        ),
        size(Binary32::from_bits(FRAME_TIME_MAX).number() - 1 as real / 10 as real) <= slack(
            Binary32::from_bits(FRAME_TIME_MAX),
        ),
        size(Binary32::from_bits(FRAME_PHYSICS_MAX).number() - 1 as real / 20 as real) <= slack(
            Binary32::from_bits(FRAME_PHYSICS_MAX),
        ),
{
    rounding::lemma_least();
    lemma2_to64();
    numbers::lemma_bits(PHYSICS_DT, 30, 0x4000_0000);
    numbers::lemma_bits(TRAIL_SAMPLE_INTERVAL, 29, 0x2000_0000);
    numbers::lemma_bits(FRAME_TIME_MAX, 27, 0x800_0000);
    numbers::lemma_bits(FRAME_PHYSICS_MAX, 28, 0x1000_0000);
}

/// A time is 1/120, up to rounding.
pub open spec fn is_step_time(time: Binary32) -> bool {
    time.is_finite() && size(time.number() - 1 as real / 120 as real) <= slack(time)
}

/// How far the time saved up before the steps of a frame can be from the exact sum.
pub open spec fn share_error(
    saved: Binary32,
    frame_time: Binary32,
    limit: Binary32,
    time_scale: Binary32,
) -> real {
    slack(frame_time.min(limit) * time_scale) + slack(
        frame::saved_up(saved, frame_time, limit, time_scale),
    )
}

/// A frame adds its time, up to the limit, times the time scale to the time saved up before it:
/// none of that is forgotten.
pub proof fn law_frames_add_to_the_time_saved_up(
    saved: Binary32,
    frame_time: Binary32,
    limit: Binary32,
    time_scale: Binary32,
)
    requires
        frame_time.is_finite(),
        limit.is_finite(),
        frame::saved_up(saved, frame_time, limit, time_scale).is_finite(),
    ensures
        saved.is_finite(),
        time_scale.is_finite(),
        size(
            frame::saved_up(saved, frame_time, limit, time_scale).number() - (saved.number()
                + product(lesser(frame_time.number(), limit.number()), time_scale.number())),
        ) <= share_error(saved, frame_time, limit, time_scale),
{
    let time = frame_time.min(limit);
    numbers::law_lesser_and_greater(frame_time, limit);
    rounding::law_sums_are_near(saved, time * time_scale);
    estimate::lemma_products_are_near(time, time_scale);
}

/// The time saved up after so many steps have been paid for.
pub open spec fn spent(saved: Binary32, steps: nat) -> Binary32
    decreases steps,
{
    if steps == 0 {
        saved
    } else {
        spent(saved, (steps - 1) as nat) - Binary32::from_bits(PHYSICS_DT)
    }
}

/// How far that can be from the exact difference: what each subtraction and the time of a step are
/// off by.
pub open spec fn spending_error(saved: Binary32, steps: nat) -> real
    decreases steps,
{
    if steps == 0 {
        0 as real
    } else {
        spending_error(saved, (steps - 1) as nat) + slack(spent(saved, steps)) + slack(
            Binary32::from_bits(PHYSICS_DT),
        )
    }
}

/// Every step costs 1/120, no more and no less, up to rounding.
pub proof fn law_steps_cost_their_time(saved: Binary32, steps: nat)
    requires
        spent(saved, steps).is_finite(),
    ensures
        saved.is_finite(),
        size(
            spent(saved, steps).number() + steps as real / 120 as real - saved.number(),
        ) <= spending_error(saved, steps),
    decreases steps,
{
    if steps > 0 {
        let before = spent(saved, (steps - 1) as nat);
        let dt = Binary32::from_bits(PHYSICS_DT);
        rounding::law_differences_are_near(before, dt);
        law_steps_cost_their_time(saved, (steps - 1) as nat);
        law_times_are_as_documented();
        assert(steps as real == (steps - 1) as real + 1 as real);
    }
}

/// Paying for the first step first is paying for one more step.
pub(crate) proof fn lemma_spent_from_the_start(saved: Binary32, steps: nat)
    ensures
        spent(saved - Binary32::from_bits(PHYSICS_DT), steps) == spent(saved, steps + 1),
    decreases steps,
{
    reveal_with_fuel(spent, 2);
    if steps > 0 {
        lemma_spent_from_the_start(saved, (steps - 1) as nat);
    }
}

/// A step that is due leaves a finite time that is not negative.
pub(crate) proof fn lemma_due_steps_leave_time(saved: Binary32)
    requires
        saved.is_finite(),
        frame::is_due(saved),
    ensures
        (saved - Binary32::from_bits(PHYSICS_DT)).is_finite(),
        (saved - Binary32::from_bits(PHYSICS_DT)).number() >= 0 as real,
{
    reveal(Binary32::spec_sub);
    let dt = Binary32::from_bits(PHYSICS_DT);
    let zero = Binary32::from_bits(ZERO);
    let left = saved - dt;
    binary32::lemma_opposite(dt);
    let back = dt.opposite();
    assert(magnitude::units(0) == 0 * pow2(0));
    binary32::law_bits_order_numbers(zero, dt);
    numbers::law_comparisons_order_numbers(dt, saved);
    numbers::law_comparisons_order_numbers(zero, dt);
    estimate::lemma_opposite_numbers(back, dt);
    estimate::lemma_zero();
    numbers::law_comparisons_order_numbers(back, zero);
    binary32::law_addition_keeps_order(saved, back, zero);
    binary32::law_adding_zero(saved, zero);
    binary32::law_addition_keeps_order(back, dt, saved);
    binary32::law_addition_commutes(back, saved);
    assert((back + dt).magnitude() == 0) by {
        reveal(Binary32::spec_add);
        binary32::lemma_signed(false, 0);
    }
    assert(left.at_most(saved));
    assert(zero.at_most(left));
    if !left.is_finite() {
        binary32::law_sums_with_a_finite_number_are_numbers(saved, back);
        magnitude::lemma_units_order(saved.magnitude() as nat, left.magnitude() as nat);
        magnitude::lemma_units_order(0, left.magnitude() as nat);
    }
    numbers::law_comparisons_order_numbers(zero, left);
}

/// The steps of a frame are paid for one after the other.
proof fn lemma_steps_are_paid_for(saved: Binary32, done: nat, most: nat)
    requires
        done <= most,
        saved.is_finite(),
    ensures
        ({
            let taken = frame::steps_taken(saved, done, most);
            let left = frame::time_left(saved, done, most);
            &&& done <= taken <= most
            &&& spent(saved, (taken - done) as nat).is_finite()
            &&& taken > done ==> spent(saved, (taken - done) as nat).number() >= 0 as real
            &&& left == if taken == most {
                Binary32::from_bits(ZERO)
            } else {
                spent(saved, (taken - done) as nat)
            }
        }),
    decreases most - done,
{
    if done < most && frame::is_due(saved) {
        let next = saved - Binary32::from_bits(PHYSICS_DT);
        lemma_due_steps_leave_time(saved);
        lemma_steps_are_paid_for(next, done + 1, most);
        let taken = frame::steps_taken(saved, done, most);
        lemma_spent_from_the_start(saved, (taken - done - 1) as nat);
    }
}

/// No time is lost in a frame: what is left after its steps and what they cost is what was saved
/// up before them, and what is left is less than another step costs. Only a frame that took as many
/// steps as it may forgets the rest. No step is taken that is not paid for.
pub proof fn law_time_is_not_lost(saved: Binary32, most: nat)
    requires
        saved.is_finite(),
        most > 0,
    ensures
        ({
            let taken = frame::steps_taken(saved, 0, most);
            let left = frame::time_left(saved, 0, most);
            let cost = taken as real / 120 as real;
            &&& taken <= most
            &&& left.is_finite()
            &&& taken < most ==> size(left.number() + cost - saved.number()) <= spending_error(
                saved,
                taken,
            )
            &&& taken < most ==> left.number() < Binary32::from_bits(PHYSICS_DT).number()
            &&& taken == most ==> left.number() == 0 as real
            &&& taken > 0 ==> cost <= saved.number() + spending_error(saved, taken)
        }),
{
    let taken = frame::steps_taken(saved, 0, most);
    let left = frame::time_left(saved, 0, most);
    lemma_steps_are_paid_for(saved, 0, most);
    law_steps_cost_their_time(saved, taken);
    frame::law_no_step_is_left_over(saved, 0, most);
    estimate::lemma_zero();
    law_times_are_as_documented();
    numbers::law_comparisons_order_numbers(Binary32::from_bits(PHYSICS_DT), left);
}

/// Two frames neither of which adds enough for a step, but which together do, take one step: what
/// the first adds is there for the second.
pub proof fn law_short_frames_add_up(
    saved: Binary32,
    first: Binary32,
    second: Binary32,
    limit: Binary32,
    time_scale: Binary32,
    most: nat,
)
    requires
        most > 1,
        first.is_finite(),
        second.is_finite(),
        limit.is_finite(),
        frame::saved_up(saved, first, limit, time_scale).is_finite(),
        ({
            let kept = frame::saved_up(saved, first, limit, time_scale);
            let sum = frame::saved_up(kept, second, limit, time_scale);
            let dt = Binary32::from_bits(PHYSICS_DT).number();
            let error = share_error(saved, first, limit, time_scale) + share_error(
                kept,
                second,
                limit,
                time_scale,
            );
            let (a, b) = (
                product(lesser(first.number(), limit.number()), time_scale.number()),
                product(lesser(second.number(), limit.number()), time_scale.number()),
            );
            &&& sum.is_finite()
            &&& kept.number() < dt
            &&& saved.number() + a + b - error >= dt
        }),
    ensures
        ({
            let kept = frame::saved_up(saved, first, limit, time_scale);
            let sum = frame::saved_up(kept, second, limit, time_scale);
            &&& frame::steps_taken(kept, 0, most) == 0
            &&& frame::time_left(kept, 0, most) == kept
            &&& frame::steps_taken(sum, 0, most) >= 1
        }),
{
    let kept = frame::saved_up(saved, first, limit, time_scale);
    let sum = frame::saved_up(kept, second, limit, time_scale);
    let dt = Binary32::from_bits(PHYSICS_DT);
    law_frames_add_to_the_time_saved_up(saved, first, limit, time_scale);
    law_frames_add_to_the_time_saved_up(kept, second, limit, time_scale);
    law_times_are_as_documented();
    numbers::law_comparisons_order_numbers(dt, kept);
    numbers::law_comparisons_order_numbers(dt, sum);
    frame::law_steps_are_bounded(sum - dt, 1, most);
}

/// The time saved up after some frames.
pub open spec fn saved_after(
    saved: Binary32,
    frame_times: Seq<Binary32>,
    limit: Binary32,
    time_scale: Binary32,
    most: nat,
) -> Binary32
    decreases frame_times.len(),
{
    if frame_times.len() == 0 {
        saved
    } else {
        let before = saved_after(saved, frame_times.drop_last(), limit, time_scale, most);
        frame::time_left(
            frame::saved_up(before, frame_times.last(), limit, time_scale),
            0,
            most,
        )
    }
}

/// The steps that the last of some frames takes.
pub open spec fn last_steps(
    saved: Binary32,
    frame_times: Seq<Binary32>,
    limit: Binary32,
    time_scale: Binary32,
    most: nat,
) -> nat {
    let before = saved_after(saved, frame_times.drop_last(), limit, time_scale, most);
    frame::steps_taken(frame::saved_up(before, frame_times.last(), limit, time_scale), 0, most)
}

/// The steps that some frames take together.
pub open spec fn steps_of(
    saved: Binary32,
    frame_times: Seq<Binary32>,
    limit: Binary32,
    time_scale: Binary32,
    most: nat,
) -> nat
    decreases frame_times.len(),
{
    if frame_times.len() == 0 {
        0
    } else {
        steps_of(saved, frame_times.drop_last(), limit, time_scale, most) + last_steps(
            saved,
            frame_times,
            limit,
            time_scale,
            most,
        )
    }
}

/// The time that some frames add together, exactly.
pub open spec fn time_of(frame_times: Seq<Binary32>, limit: Binary32, time_scale: Binary32) -> real
    decreases frame_times.len(),
{
    if frame_times.len() == 0 {
        0 as real
    } else {
        time_of(frame_times.drop_last(), limit, time_scale) + product(
            lesser(frame_times.last().number(), limit.number()),
            time_scale.number(),
        )
    }
}

/// How far the time that some frames keep can be from the exact one.
pub open spec fn keeping_error(
    saved: Binary32,
    frame_times: Seq<Binary32>,
    limit: Binary32,
    time_scale: Binary32,
    most: nat,
) -> real
    decreases frame_times.len(),
{
    if frame_times.len() == 0 {
        0 as real
    } else {
        let before = saved_after(saved, frame_times.drop_last(), limit, time_scale, most);
        let sum = frame::saved_up(before, frame_times.last(), limit, time_scale);
        keeping_error(saved, frame_times.drop_last(), limit, time_scale, most) + share_error(
            before,
            frame_times.last(),
            limit,
            time_scale,
        ) + spending_error(sum, last_steps(saved, frame_times, limit, time_scale, most))
    }
}

/// Every one of some frames took fewer steps than it may, and nothing overflowed.
pub open spec fn none_stalled(
    saved: Binary32,
    frame_times: Seq<Binary32>,
    limit: Binary32,
    time_scale: Binary32,
    most: nat,
) -> bool
    decreases frame_times.len(),
{
    frame_times.len() > 0 ==> {
        let before = saved_after(saved, frame_times.drop_last(), limit, time_scale, most);
        &&& frame_times.last().is_finite()
        &&& frame::saved_up(before, frame_times.last(), limit, time_scale).is_finite()
        &&& last_steps(saved, frame_times, limit, time_scale, most) < most
        &&& none_stalled(saved, frame_times.drop_last(), limit, time_scale, most)
    }
}

/// Time is kept over any run of frames: the time saved up at the end and 1/120 for every step taken
/// are the time saved up at the start and what the frames added, up to rounding.
pub proof fn law_time_is_kept_over_frames(
    saved: Binary32,
    frame_times: Seq<Binary32>,
    limit: Binary32,
    time_scale: Binary32,
    most: nat,
)
    requires
        limit.is_finite(),
        none_stalled(saved, frame_times, limit, time_scale, most),
    ensures
        size(
            saved_after(saved, frame_times, limit, time_scale, most).number() + steps_of(
                saved,
                frame_times,
                limit,
                time_scale,
                most,
            ) as real / 120 as real - (saved.number() + time_of(frame_times, limit, time_scale)),
        ) <= keeping_error(saved, frame_times, limit, time_scale, most),
    decreases frame_times.len(),
{
    if frame_times.len() > 0 {
        let rest = frame_times.drop_last();
        let before = saved_after(saved, rest, limit, time_scale, most);
        let sum = frame::saved_up(before, frame_times.last(), limit, time_scale);
        law_time_is_kept_over_frames(saved, rest, limit, time_scale, most);
        law_frames_add_to_the_time_saved_up(before, frame_times.last(), limit, time_scale);
        law_time_is_not_lost(sum, most);
        let (m, n) = (
            steps_of(saved, rest, limit, time_scale, most),
            last_steps(saved, frame_times, limit, time_scale, most),
        );
        assert((m + n) as real == m as real + n as real);
    }
}

} // verus!
