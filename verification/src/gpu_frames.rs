//! What a frame of a graphics device does: which programs run on which particles, where the time
//! goes, and when particles are read back.

use vstd::prelude::*;
use vstd::arithmetic::div_mod::*;
use vstd::arithmetic::power2::*;
use crate::binary32;
use crate::binary32::{Binary32, HALF, ZERO};
use crate::estimate;
use crate::frame;
use crate::frame::{PHYSICS_DT, TRAIL_SAMPLE_INTERVAL};
use crate::gpu;
use crate::gpu_layout::{Kernel, COLLISION_GRID_SIZE, MAX_PARTICLE_COUNT};
use crate::gpu_state;
use crate::gpu_state::{
    Dispatch, PassKind, PassPlan, State, Update, FRAME_PHYSICS_MAX, WORKGROUP_SIZE,
};
use crate::magnitude;
use crate::numbers;
use crate::numbers::lesser;
use crate::rounding;
use crate::rounding::{least, product, size, slack};
use crate::timekeeping;
use crate::timekeeping::spending_error;

verus! {

/// So many workgroups run a program that one invocation falls to every item, and no group is idle.
pub open spec fn covers(dispatch: Dispatch, kernel: Kernel, items: int) -> bool {
    &&& dispatch.kernel == kernel
    &&& dispatch.groups * 64 >= items > (dispatch.groups - 1) * 64
}

/// A round on the collision grid clears the grid, enters all particles, lets all propose, merges all
/// and makes the result known, in this order.
pub open spec fn is_round(pass: PassPlan, count: int) -> bool {
    &&& pass.dispatches.len() == 5
    &&& covers(pass.dispatches[0], Kernel::Clear, 32768)
    &&& covers(pass.dispatches[1], Kernel::BuildGrid, count)
    &&& covers(pass.dispatches[2], Kernel::Propose, count)
    &&& covers(pass.dispatches[3], Kernel::MergeCompact, count)
    &&& pass.dispatches[4].kernel == Kernel::Finalize
    &&& pass.dispatches[4].groups == 1
}

/// A step lets all particles drift, then merges them, and then gives all of them the final kick: two
/// rounds on the collision grid merge a cloud of more than 2000; a smaller one is merged pair by
/// pair in every eighth step.
pub proof fn law_steps_run_their_programs_on_all_particles(count: usize, current: bool, steps: u64)
    requires
        0 < count <= MAX_PARTICLE_COUNT,
    ensures
        ({
            let passes = gpu_state::step_passes(count, current, steps);
            let last = passes.last();
            &&& passes.len() >= 2
            &&& passes[0].kind == PassKind::Integrate
            &&& passes[0].source == current
            &&& passes[0].dispatches.len() == 1
            &&& covers(passes[0].dispatches[0], Kernel::Integrate, count as int)
            &&& last.kind == PassKind::Finish
            &&& last.source != current
            &&& last.dispatches.len() == 1
            &&& covers(last.dispatches[0], Kernel::Finish, count as int)
            &&& count > 2000 ==> {
                &&& passes.len() == 4
                &&& passes[1].kind == PassKind::FirstRound
                &&& passes[1].source != current
                &&& is_round(passes[1], count as int)
                &&& passes[2].kind == PassKind::SecondRound
                &&& passes[2].source == current
                &&& is_round(passes[2], count as int)
            }
            &&& count <= 2000 && steps % 8 == 0 ==> {
                &&& passes.len() == 3
                &&& passes[1].kind == PassKind::SerialMerge
                &&& passes[1].source != current
                &&& passes[1].dispatches == seq![Dispatch { kernel: Kernel::MergeSerial, groups: 1 }]
            }
            &&& count <= 2000 && steps % 8 != 0 ==> passes.len() == 2
        }),
{
    gpu::law_groups_cover_the_items(count, 64);
    gpu::law_groups_cover_the_items(COLLISION_GRID_SIZE, 64);
    let passes = gpu_state::step_passes(count, current, steps);
    let groups = gpu::groups(count, WORKGROUP_SIZE);
    assert(0 <= groups <= u32::MAX);
    assert(passes[0] == gpu_state::single(PassKind::Integrate, current, Kernel::Integrate, groups));
    assert(passes.last() == gpu_state::single(
        PassKind::Finish,
        !current,
        Kernel::Finish,
        groups,
    ));
    if count > 2000 {
        assert(passes[1] == gpu_state::grid_round(PassKind::FirstRound, !current, count));
        assert(passes[2] == gpu_state::grid_round(PassKind::SecondRound, current, count));
    }
}

/// The time that a frame has to spend.
pub open spec fn time_to_spend(state: State, elapsed: Binary32) -> Binary32 {
    frame::saved_up(
        state.accumulator,
        elapsed,
        Binary32::from_bits(FRAME_PHYSICS_MAX),
        state.controls.time_scale,
    )
}

/// How far that can be from the exact sum.
pub open spec fn saving_error(state: State, elapsed: Binary32) -> real {
    timekeeping::share_error(
        state.accumulator,
        elapsed,
        Binary32::from_bits(FRAME_PHYSICS_MAX),
        state.controls.time_scale,
    ) + product(
        slack(Binary32::from_bits(FRAME_PHYSICS_MAX)),
        size(state.controls.time_scale.number()),
    )
}

/// No time is lost in a frame that is not paused: what is saved up after it and 1/120 for every
/// step it takes are what was saved up before it and its own time, 1/50 at the most, times the time
/// scale, up to rounding; what is left is less than a step costs. Only a frame that took two steps
/// forgets the rest. Every step is counted and planned.
pub proof fn law_frames_of_a_graphics_device_keep_time(
    before: State,
    elapsed: Binary32,
    after: State,
    update: Update,
)
    requires
        after.follows(before, elapsed, update),
        !before.controls.paused,
        elapsed.is_finite(),
        time_to_spend(before, elapsed).is_finite(),
    ensures
        ({
            let steps = update.steps@.len();
            let share = product(
                lesser(elapsed.number(), 2 as real / 100 as real),
                before.controls.time_scale.number(),
            );
            &&& steps <= 2
            &&& after.physics_steps == before.physics_steps + steps
            &&& steps < 2 ==> size(
                after.accumulator.number() + steps as real / 120 as real - (
                before.accumulator.number() + share),
            ) <= saving_error(before, elapsed) + spending_error(
                time_to_spend(before, elapsed),
                steps,
            )
            &&& after.accumulator.number() < Binary32::from_bits(PHYSICS_DT).number()
            &&& steps == 2 ==> after.accumulator.number() == 0 as real
            &&& steps > 0 ==> steps as real / 120 as real <= before.accumulator.number() + share
                + saving_error(before, elapsed) + spending_error(
                time_to_spend(before, elapsed),
                steps,
            )
            &&& forall|i: int|
                0 <= i < steps ==> gpu_state::plans((#[trigger] update.steps@[i])@)
                    == gpu_state::step_passes(
                    before.count,
                    before.current,
                    (before.physics_steps + i) as u64,
                )
        }),
{
    let limit = Binary32::from_bits(FRAME_PHYSICS_MAX);
    let scale = before.controls.time_scale.number();
    let sum = time_to_spend(before, elapsed);
    lemma2_to64();
    numbers::lemma_decimal(FRAME_PHYSICS_MAX, 29, 0x2000_0000, 2 as real / 100 as real);
    timekeeping::law_frames_add_to_the_time_saved_up(
        before.accumulator,
        elapsed,
        limit,
        before.controls.time_scale,
    );
    timekeeping::law_time_is_not_lost(sum, 2);
    timekeeping::law_times_are_as_documented();
    numbers::lemma_bits(PHYSICS_DT, 30, 0x4000_0000);
    let x = lesser(elapsed.number(), limit.number());
    let y = lesser(elapsed.number(), 2 as real / 100 as real);
    assert(size(x - y) <= slack(limit));
    estimate::lemma_products_of_three(x, scale, scale);
    estimate::lemma_products_of_three(y, scale, scale);
    estimate::lemma_product_of_near(scale, x, y, slack(limit));
    estimate::lemma_products_of_three(slack(limit), size(scale), scale);
}

/// So many times a number.
pub open spec fn multiple(times: nat, number: real) -> real {
    times as real * number
}

/// What is left over when one whole number of parts is taken away as often as it fits.
proof fn lemma_parts(a: nat, b: nat, ka: nat, kb: nat, w: nat)
    requires
        w > 0,
        kb > 0,
        a == ka * w,
        b == kb * w,
    ensures
        b > 0,
        a % b == (ka % kb) * w,
{
    assert(b > 0) by (nonlinear_arith)
        requires
            b == kb * w,
            kb > 0,
            w > 0,
    ;
    let (q, r) = (ka / kb, ka % kb);
    lemma_fundamental_div_mod(ka as int, kb as int);
    assert(a == q * b + r * w) by (nonlinear_arith)
        requires
            a == ka * w,
            b == kb * w,
            ka == kb * q + r,
    ;
    assert(r * w < b) by (nonlinear_arith)
        requires
            r < kb,
            b == kb * w,
            w > 0,
    ;
    lemma_fundamental_div_mod_converse(a as int, b as int, q as int, (r * w) as int);
}

/// The remainder of two magnitudes is a magnitude.
proof fn lemma_remainder(a: nat, b: nat) -> (code: nat)
    requires
        a < magnitude::INFINITY - 0x100_0000,
        0 < b < magnitude::INFINITY - 0x100_0000,
    ensures
        magnitude::units(b) > 0,
        code < magnitude::INFINITY,
        magnitude::units(code) == magnitude::units(a) % magnitude::units(b),
{
    magnitude::lemma_disassembled(a);
    magnitude::lemma_disassembled(b);
    let (ka, qa) = (magnitude::significand(a), magnitude::quantum(a));
    let (kb, qb) = (magnitude::significand(b), magnitude::quantum(b));
    assert(magnitude::units(0) == 0 * pow2(0));
    magnitude::lemma_units_order(0, b);
    assert(kb > 0) by (nonlinear_arith)
        requires
            kb * pow2(qb) > 0,
    ;
    if qb <= qa {
        let w = pow2(qb);
        let s = pow2((qa - qb) as nat);
        lemma_pow2_pos(qb);
        lemma_pow2_adds(qb, (qa - qb) as nat);
        assert(ka * (w * s) == (ka * s) * w) by (nonlinear_arith);
        lemma_parts(magnitude::units(a), magnitude::units(b), ka * s, kb, w);
        lemma_mod_bound((ka * s) as int, kb as int);
        binary32::lemma_short_magnitude((ka * s) % kb, qb)
    } else {
        let w = pow2(qa);
        let s = pow2((qb - qa) as nat);
        lemma_pow2_pos(qa);
        lemma_pow2_pos((qb - qa) as nat);
        lemma_pow2_adds(qa, (qb - qa) as nat);
        assert(kb * (w * s) == (kb * s) * w) by (nonlinear_arith);
        assert(kb * s > 0) by (nonlinear_arith)
            requires
                kb > 0,
                s > 0,
        ;
        lemma_parts(magnitude::units(a), magnitude::units(b), ka, kb * s, w);
        lemma_mod_decreases(ka, kb * s);
        binary32::lemma_short_magnitude(ka % (kb * s), qa)
    }
}

/// The remainder of a number that is not negative is what is left of it when another one is taken
/// away as often as it fits, exactly.
pub proof fn law_remainders_are_exact(a: Binary32, b: Binary32)
    requires
        a.is_finite(),
        b.is_finite(),
        !a.is_negative(),
        !b.is_negative(),
        a.magnitude() < magnitude::INFINITY - 0x100_0000,
        0 < b.magnitude() < magnitude::INFINITY - 0x100_0000,
    ensures
        (a % b).is_finite(),
        0 as real <= (a % b).number() < b.number(),
        exists|times: nat| #[trigger] multiple(times, b.number()) + (a % b).number() == a.number(),
{
    let code = lemma_remainder(a.magnitude() as nat, b.magnitude() as nat);
    magnitude::lemma_round_exact(code);
    binary32::lemma_signed(false, code);
    let r = a % b;
    assert(r == Binary32::signed(false, code)) by {
        reveal(Binary32::spec_euclidean_mod);
    }
    let times = a.units() / b.units();
    lemma_fundamental_div_mod(a.units() as int, b.units() as int);
    lemma_mod_bound(a.units() as int, b.units() as int);
    rounding::lemma_least();
    let (u, v, w, n, e) = (
        a.value() as real,
        b.value() as real,
        r.value() as real,
        times as real,
        least(),
    );
    assert((b.units() * times) as real == v * n) by (nonlinear_arith)
        requires
            v == b.units() as real,
            n == times as real,
    ;
    assert(u == v * n + w);
    assert(n * (v * e) + w * e == u * e) by (nonlinear_arith)
        requires
            u == v * n + w,
    ;
    assert(0 as real <= w * e && w * e < v * e) by (nonlinear_arith)
        requires
            0 as real <= w,
            w < v,
            e > 0 as real,
    ;
    assert(multiple(times, b.number()) + r.number() == a.number());
}

/// The clock of the trails runs with the frames that are not paused, and particles are read back
/// every 1/45: in a frame before which as much time has passed, up to rounding; what is left of that
/// time, less whole intervals, counts for the next sample.
pub proof fn law_particles_are_read_back_when_they_are_due(
    before: State,
    elapsed: Binary32,
    after: State,
    update: Update,
)
    requires
        after.follows(before, elapsed, update),
        !before.controls.paused,
        after.trail_clock.is_finite(),
        (before.trail_accumulator + elapsed).is_finite(),
        (before.trail_accumulator + elapsed).number() <= 1000 as real,
    ensures
        ({
            let interval = Binary32::from_bits(TRAIL_SAMPLE_INTERVAL).number();
            let waited = before.trail_accumulator + elapsed;
            let exact = before.trail_accumulator.number() + elapsed.number();
            &&& size(after.trail_clock.number() - (before.trail_clock.number() + elapsed.number()))
                <= slack(after.trail_clock)
            &&& size(waited.number() - exact) <= slack(waited)
            &&& update.sample <==> waited.number() >= interval
            &&& !update.sample ==> after.trail_accumulator == waited
            &&& update.sample ==> 0 as real <= after.trail_accumulator.number() < interval
            &&& update.sample ==> exists|times: nat| #[trigger]
                multiple(times, interval) + after.trail_accumulator.number() == waited.number()
        }),
{
    let interval = Binary32::from_bits(TRAIL_SAMPLE_INTERVAL);
    let waited = before.trail_accumulator + elapsed;
    rounding::law_sums_are_near(before.trail_clock, elapsed);
    rounding::law_sums_are_near(before.trail_accumulator, elapsed);
    timekeeping::law_times_are_as_documented();
    lemma2_to64();
    numbers::lemma_bits(TRAIL_SAMPLE_INTERVAL, 29, 0x2000_0000);
    numbers::law_comparisons_order_numbers(interval, waited);
    if update.sample {
        let limit = Binary32::from_bits(0x447A_0000);
        numbers::lemma_bits(0x447A_0000, 14, 0x4000);
        numbers::law_comparisons_order_numbers(waited, limit);
        let zero = Binary32::from_bits(ZERO);
        estimate::lemma_zero();
        numbers::law_comparisons_order_numbers(zero, waited);
        assert(magnitude::units(0) == 0 * pow2(0));
        assert(!waited.is_negative()) by {
            magnitude::lemma_units_order(0, waited.magnitude() as nat);
        }
        magnitude::lemma_units_order(0x447A_0000, waited.magnitude() as nat);
        law_remainders_are_exact(waited, interval);
    }
}

/// The frame rate is the number of frames over the time that they took, taken every half second.
pub proof fn law_frame_rates_are_frames_over_time(
    before: State,
    elapsed: Binary32,
    after: State,
    update: Update,
)
    requires
        after.follows(before, elapsed, update),
        before.fps_frames < 0x100_0000,
        (before.fps_elapsed + elapsed).is_finite(),
    ensures
        ({
            let time = before.fps_elapsed + elapsed;
            &&& size(time.number() - (before.fps_elapsed.number() + elapsed.number())) <= slack(
                time,
            )
            &&& time.number() >= 1 as real / 2 as real ==> {
                &&& after.fps.is_finite() ==> size(
                    product(after.fps.number(), time.number()) - (before.fps_frames + 1) as real,
                ) <= product(slack(after.fps), size(time.number()))
                &&& after.fps_frames == 0
                &&& after.fps_elapsed.number() == 0 as real
            }
            &&& time.number() < 1 as real / 2 as real ==> {
                &&& after.fps == before.fps
                &&& after.fps_frames == before.fps_frames + 1
                &&& after.fps_elapsed == time
            }
        }),
{
    let time = before.fps_elapsed + elapsed;
    rounding::law_sums_are_near(before.fps_elapsed, elapsed);
    numbers::law_plain_numbers();
    numbers::law_comparisons_order_numbers(Binary32::from_bits(HALF), time);
    let frames = (before.fps_frames + 1) as nat;
    numbers::law_counts_are_exact(frames);
    if time.number() >= 1 as real / 2 as real && after.fps.is_finite() {
        estimate::lemma_quotients_are_near(Binary32::counted(frames), time);
    }
}

/// A paused frame takes no step and reads nothing back: the time saved up, the clock of the trails
/// and the number of steps stay.
pub proof fn law_paused_frames_stand_still(
    before: State,
    elapsed: Binary32,
    after: State,
    update: Update,
)
    requires
        after.follows(before, elapsed, update),
        before.controls.paused,
    ensures
        update.steps@.len() == 0,
        !update.sample,
        after.accumulator == before.accumulator,
        after.trail_clock == before.trail_clock,
        after.trail_accumulator == before.trail_accumulator,
        after.physics_steps == before.physics_steps,
{
}

/// Frames change neither the window nor the controls, neither the mass that the simulation started
/// with nor which buffer holds the particles, neither the trails nor the statistics, nor whether
/// particles are being read back.
pub proof fn law_frames_keep_all_else(
    before: State,
    elapsed: Binary32,
    after: State,
    update: Update,
)
    requires
        after.follows(before, elapsed, update),
    ensures
        after.count == before.count,
        after.width == before.width,
        after.height == before.height,
        after.controls == before.controls,
        after.total_mass == before.total_mass,
        after.current == before.current,
        after.trails == before.trails,
        after.statistics == before.statistics,
        after.sample_in_flight == before.sample_in_flight,
{
}

/// There is room for 90 trail points of every particle.
pub proof fn law_trails_hold_90_samples(state: State)
    ensures
        state.capacity() == 90 * state.count,
{
}

} // verus!
