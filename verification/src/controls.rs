//! What the controls do, in numbers, and what a cloud on the host does in a step.

use vstd::prelude::*;
use vstd::arithmetic::power2::*;
use crate::binary32;
use crate::binary32::{Binary32, HALF, ONE, TWO};
use crate::bodies::Body;
use crate::estimate;
use crate::frame;
use crate::frame::{
    MINUS_ONE, PHYSICS_DT, TIME_SCALE_MAX, TIME_SCALE_MIN, VIEW_MARGIN, ZOOM_MAX, ZOOM_MIN,
};
use crate::numbers;
use crate::numbers::{greater, lesser};
use crate::rounding;
use crate::rounding::{least, product, size, slack};
use crate::simd;
use crate::simulation;
use crate::simulation::{Cloud, SimdCloud, WasmCloud};
use crate::spawn::SPAWN_RADIUS;
use crate::timekeeping;
use crate::wasm;

verus! {

/// Twice as many units are twice the number.
proof fn lemma_twice_the_number(a: Binary32, b: Binary32)
    requires
        b.value() == 2 * a.value(),
    ensures
        b.number() == 2 as real * a.number(),
{
    let (v, w, e) = (a.value() as real, b.value() as real, least());
    assert(w == 2 as real * v);
    assert(w * e == 2 as real * (v * e)) by (nonlinear_arith)
        requires
            w == 2 as real * v,
    ;
}

/// Doubling the time scale doubles it, up to 4, and halving it halves it, down to 1/8, exactly.
pub proof fn law_time_scales_are_doubled_and_halved(time_scale: Binary32)
    requires
        frame::time_scale_is_in_range(time_scale),
    ensures
        frame::faster(time_scale).number() == lesser(2 as real * time_scale.number(), 4 as real),
        frame::slower(time_scale).number() == greater(
            time_scale.number() / 2 as real,
            1 as real / 8 as real,
        ),
{
    frame::lemma_time_scale_bits(time_scale);
    let (low, high) = (Binary32::from_bits(TIME_SCALE_MIN), Binary32::from_bits(TIME_SCALE_MAX));
    let (twice, half) = (
        time_scale * Binary32::from_bits(TWO),
        time_scale * Binary32::from_bits(HALF),
    );
    binary32::law_doubling_is_exact(time_scale);
    binary32::law_halving_is_exact(time_scale);
    binary32::lemma_twice(time_scale.magnitude() as nat);
    binary32::lemma_twice((time_scale.magnitude() - 0x80_0000) as nat);
    binary32::lemma_signed(false, (time_scale.magnitude() + 0x80_0000) as nat);
    binary32::lemma_signed(false, (time_scale.magnitude() - 0x80_0000) as nat);
    lemma_twice_the_number(time_scale, twice);
    lemma_twice_the_number(half, time_scale);
    lemma2_to64();
    numbers::lemma_bits(TIME_SCALE_MIN, 26, 0x400_0000);
    numbers::lemma_bits(TIME_SCALE_MAX, 21, 0x20_0000);
    numbers::law_lesser_and_greater(twice, high);
    numbers::law_lesser_and_greater(half, low);
}

/// The mouse wheel multiplies the zoom by its factor, up to rounding, from 1/20 to 5.
pub proof fn law_zooms_are_multiplied(zoom: Binary32, factor: Binary32)
    requires
        (zoom * factor).is_finite(),
    ensures
        ({
            let after = (zoom * factor).clamp(
                Binary32::from_bits(ZOOM_MIN),
                Binary32::from_bits(ZOOM_MAX),
            );
            size(
                after.number() - lesser(
                    greater(product(zoom.number(), factor.number()), 5 as real / 100 as real),
                    5 as real,
                ),
            ) <= slack(zoom * factor) + slack(Binary32::from_bits(ZOOM_MIN))
        }),
{
    let (low, high) = (Binary32::from_bits(ZOOM_MIN), Binary32::from_bits(ZOOM_MAX));
    estimate::lemma_products_are_near(zoom, factor);
    lemma2_to64();
    rounding::lemma_slack(low);
    numbers::lemma_decimal(ZOOM_MIN, 28, 0x1000_0000, 5 as real / 100 as real);
    numbers::lemma_bits(ZOOM_MIN, 28, 0x1000_0000);
    numbers::lemma_bits(ZOOM_MAX, 21, 0x20_0000);
    numbers::law_clamped(zoom * factor, low, high);
}

/// The mouse wheel counts for one notch at the most, either way.
pub proof fn law_wheels_turn_one_notch_at_the_most(wheel: Binary32)
    requires
        wheel.is_finite(),
    ensures
        wheel.clamp(Binary32::from_bits(MINUS_ONE), Binary32::from_bits(ONE)).number() == lesser(
            greater(wheel.number(), -(1 as real)),
            1 as real,
        ),
{
    let (low, high) = (Binary32::from_bits(MINUS_ONE), Binary32::from_bits(ONE));
    numbers::law_plain_numbers();
    binary32::lemma_opposite(high);
    assert(low == high.opposite());
    estimate::lemma_opposite_numbers(low, high);
    numbers::law_clamped(wheel, low, high);
}

/// At the start, the lesser side of the window shows 2.25 times the radius of 1200 of the cloud, up
/// to rounding.
pub proof fn law_clouds_fit_into_the_window(width: Binary32, height: Binary32)
    requires
        width.is_finite(),
        height.is_finite(),
        frame::initial_zoom(width, height).is_finite(),
    ensures
        ({
            let zoom = frame::initial_zoom(width, height);
            let span = Binary32::from_bits(SPAWN_RADIUS) * Binary32::from_bits(VIEW_MARGIN);
            size(
                product(zoom.number(), 2700 as real) - lesser(width.number(), height.number()),
            ) <= product(slack(zoom), size(span.number())) + product(
                size(zoom.number()),
                slack(span),
            )
        }),
{
    let zoom = frame::initial_zoom(width, height);
    let (radius, margin) = (Binary32::from_bits(SPAWN_RADIUS), Binary32::from_bits(VIEW_MARGIN));
    let span = radius * margin;
    lemma2_to64();
    numbers::lemma_bits(SPAWN_RADIUS, 13, 0x2000);
    numbers::lemma_bits(VIEW_MARGIN, 22, 0x40_0000);
    numbers::law_lesser_and_greater(width, height);
    assert(span.is_finite()) by {
        lemma_span();
    }
    estimate::lemma_products_are_near(radius, margin);
    assert(product(1200 as real, 9 as real / 4 as real) == 2700 as real) by {
        reveal(product);
        assert(1200 as real * (9 as real / 4 as real) == 2700 as real) by (nonlinear_arith);
    }
    estimate::lemma_quotients_are_near(width.min(height), span);
    estimate::lemma_product_of_near(zoom.number(), span.number(), 2700 as real, slack(span));
}

/// What the window shows at the start is a number.
proof fn lemma_span()
    ensures
        (Binary32::from_bits(SPAWN_RADIUS) * Binary32::from_bits(VIEW_MARGIN)).is_finite(),
{
    let (radius, margin) = (Binary32::from_bits(SPAWN_RADIUS), Binary32::from_bits(VIEW_MARGIN));
    let four = Binary32::from_bits(TIME_SCALE_MAX);
    let zero = Binary32::from_bits(crate::binary32::ZERO);
    binary32::law_bits_order_numbers(margin, four);
    binary32::law_bits_order_numbers(zero, margin);
    binary32::law_multiplication_keeps_order(radius, margin, four);
    binary32::law_multiplication_keeps_order(radius, zero, margin);
    binary32::law_multiplying_by_zero(zero, radius);
    binary32::law_multiplication_commutes(zero, radius);
    binary32::law_doubling_is_exact(radius);
    let twice = radius * Binary32::from_bits(TWO);
    assert(four.bits == 0x4080_0000);
    let big = Binary32::from_bits(0x4596_0000);
    assert(radius * four == big) by {
        lemma_times_four();
    }
    assert(crate::magnitude::units(0) == 0 * pow2(0));
    binary32::law_at_most_a_finite_number(radius * margin, big);
}

/// Four times the radius of the cloud.
proof fn lemma_times_four()
    ensures
        Binary32::from_bits(SPAWN_RADIUS) * Binary32::from_bits(TIME_SCALE_MAX)
            == Binary32::from_bits(0x4596_0000),
{
    let (radius, four) = (Binary32::from_bits(SPAWN_RADIUS), Binary32::from_bits(TIME_SCALE_MAX));
    lemma2_to64();
    lemma_pow2_adds(23, 128);
    lemma_pow2_unfold(151);
    lemma_pow2_unfold(150);
    let w = pow2(149);
    assert(four.units() == 0x80_0000 * pow2(128));
    let u = radius.units();
    assert(u * (4 * w) == (4 * u) * w) by (nonlinear_arith);
    binary32::lemma_twice(SPAWN_RADIUS as nat);
    binary32::lemma_twice((SPAWN_RADIUS + 0x80_0000) as nat);
    binary32::lemma_scaled_product(radius, four, 4 * u, 0x4596_0000);
}

/// A step of a cloud on the host lasts 1/120, up to rounding; an eight-lane cloud takes eight of
/// them in a frame at the most, and a scalar one four.
pub proof fn law_clouds_take_steps_of_a_fixed_time(particles: Seq<Body>)
    ensures
        exists|dt: Binary32|
            {
                &&& #[trigger] timekeeping::is_step_time(dt)
                &&& SimdCloud::stepped(particles) == simd::updated(particles, dt)
                &&& WasmCloud::stepped(particles) == wasm::updated(particles, dt)
            },
        SimdCloud::step_limit() == 8,
        WasmCloud::step_limit() == 4,
{
    timekeeping::law_times_are_as_documented();
    assert(timekeeping::is_step_time(Binary32::from_bits(PHYSICS_DT)));
}

/// The steps of a cloud follow one another.
pub proof fn law_steps_follow_one_another<C: Cloud>(particles: Seq<Body>, steps: nat)
    ensures
        simulation::after_steps::<C>(particles, 0) == particles,
        simulation::after_steps::<C>(particles, steps + 1) == C::stepped(
            simulation::after_steps::<C>(particles, steps),
        ),
{
}

} // verus!
