//! What bodies and trails look like, in numbers: how far bodies have turned, their colors, and the
//! dots of their trails.

use vstd::prelude::*;
use vstd::arithmetic::power2::*;
use crate::appearance;
use crate::appearance::{
    Color, Screen, POINT_05, POINT_20, POINT_25, POINT_45, POINT_55, POINT_60, POINT_65, POINT_75,
    THREE, TRAIL_HALF_LIFE, TRAIL_INITIAL_ALPHA, TRAIL_MAX_WIDTH_PIXELS, TRAIL_MIN_WIDTH_PIXELS,
    TRAIL_WIDTH_SCALE, YELLOW_TRANSITION_START_MASS_FRACTION,
};
use crate::binary32;
use crate::binary32::{Binary32, HALF, ONE, TWO, ZERO};
use crate::bodies;
use crate::bodies::{Body, EPSILON};
use crate::estimate;
use crate::estimate::Estimate;
use crate::magnitude;
use crate::numbers;
use crate::numbers::{decimal, greater, lesser};
use crate::projection;
use crate::projection::{is_at, is_part};
use crate::radii;
use crate::rounding;
use crate::rounding::{product, size, slack};
use crate::spawn::MAX_PARTICLE_MASS;
use crate::trails::TrailPoint;
use crate::types::Particle;
use crate::verlet::is_near;

verus! {

/// A number that is not negative and no more than one, from any number.
pub open spec fn fraction_of(x: real) -> real {
    lesser(greater(x, 0 as real), 1 as real)
}

/// The smooth step from zero to one: three times the square less twice the cube.
pub open spec fn smooth(p: real) -> real {
    product(product(p, p), 3 as real - product(2 as real, p))
}

/// The smooth step as it is computed, beside the exact one.
pub open spec fn smooth_estimate(p: Binary32) -> Estimate {
    let e = Estimate::of(p);
    e.times(e).times(
        Estimate::of(Binary32::from_bits(THREE)).minus(
            Estimate::of(Binary32::from_bits(TWO)).times(e),
        ),
    )
}

/// A number says how far a fraction of the mass lies on the way from 1/4 to 9/20, up to rounding.
pub open spec fn is_progress(progress: Binary32, mass_fraction: Binary32) -> bool {
    let range = Binary32::from_bits(0x3E4C_CCCC);
    &&& progress.is_finite()
    &&& size(
        product(progress.number(), 1 as real / 5 as real) - (mass_fraction.number() - 1 as real
            / 4 as real),
    ) <= product(slack(progress), size(range.number())) + slack(
        mass_fraction - Binary32::from_bits(YELLOW_TRANSITION_START_MASS_FRACTION),
    ) + product(size(progress.number()), 2 as real * slack(range))
}

/// A body turns yellow in a smooth step while its fraction of the mass grows from 1/4 to 9/20: how
/// far it has turned is three times the square less twice the cube of how far the fraction lies on
/// that way, up to rounding.
pub proof fn law_bodies_turn_in_a_smooth_step(mass_fraction: Binary32)
    requires
        mass_fraction.is_finite(),
        size(mass_fraction.number()) <= 1000 as real,
    ensures
        exists|progress: Binary32|
            {
                &&& #[trigger] is_progress(progress, mass_fraction)
                &&& exists|p: Binary32|
                    {
                        &&& p.number() == fraction_of(progress.number())
                        &&& is_near(
                            appearance::transition(mass_fraction),
                            smooth(fraction_of(progress.number())),
                            (#[trigger] smooth_estimate(p)).error,
                        )
                    }
            },
{
    let (zero, one) = (Binary32::from_bits(ZERO), Binary32::from_bits(ONE));
    let start = Binary32::from_bits(YELLOW_TRANSITION_START_MASS_FRACTION);
    let range = Binary32::from_bits(0x3E4C_CCCC);
    let passed = mass_fraction - start;
    let progress = passed / range;
    let p = appearance::unit_clamped(progress);
    appearance::lemma_transition_range();
    numbers::law_plain_numbers();
    lemma2_to64();
    rounding::lemma_least();
    numbers::lemma_bits(YELLOW_TRANSITION_START_MASS_FRACTION, 25, 0x200_0000);
    numbers::lemma_bits(0x3E4C_CCCC, 26, 0x400_0000);
    numbers::lemma_bits(THREE, 22, 0x40_0000);
    lemma_passed_is_finite(mass_fraction);
    rounding::law_differences_are_near(mass_fraction, start);
    estimate::lemma_quotients_are_near(passed, range);
    assert(size(range.number() - 1 as real / 5 as real) <= 2 as real * slack(range));
    estimate::lemma_product_of_near(
        progress.number(),
        range.number(),
        1 as real / 5 as real,
        2 as real * slack(range),
    );
    assert(is_progress(progress, mass_fraction));
    numbers::law_clamped(progress, zero, one);
    let e = Estimate::of(p);
    let (two, three) = (
        Estimate::of(Binary32::from_bits(TWO)),
        Estimate::of(Binary32::from_bits(THREE)),
    );
    estimate::law_estimates_hold(e, e);
    estimate::law_estimates_hold(two, e);
    estimate::law_estimates_hold(three, two.times(e));
    estimate::law_estimates_hold(e.times(e), three.minus(two.times(e)));
    assert(smooth_estimate(p).computed == appearance::transition(mass_fraction));
    assert(p.number() == fraction_of(progress.number()));
}

/// How far a fraction of the mass has passed the start of the transition is a number, and so is its
/// part of the whole way.
proof fn lemma_passed_is_finite(mass_fraction: Binary32)
    requires
        mass_fraction.is_finite(),
        size(mass_fraction.number()) <= 1000 as real,
    ensures
        ({
            let passed = mass_fraction - Binary32::from_bits(YELLOW_TRANSITION_START_MASS_FRACTION);
            passed.is_finite() && (passed / Binary32::from_bits(0x3E4C_CCCC)).is_finite()
        }),
{
    let start = Binary32::from_bits(YELLOW_TRANSITION_START_MASS_FRACTION);
    let range = Binary32::from_bits(0x3E4C_CCCC);
    let limit = Binary32::from_bits(0x4480_0000);
    let back = start.opposite();
    binary32::lemma_opposite(start);
    lemma2_to64();
    numbers::lemma_bits(0x447A_0000, 14, 0x4000);
    numbers::lemma_bits(0x4480_0000, 13, 0x2000);
    numbers::lemma_bits(YELLOW_TRANSITION_START_MASS_FRACTION, 25, 0x200_0000);
    let bound = Binary32::from_bits(0x447A_0000);
    lemma_units_of_sizes(mass_fraction, bound);
    lemma_pow2_adds(124, 12);
    lemma_pow2_adds(124, 11);
    let w = pow2(124);
    assert(start.units() == 0x80_0000 * w);
    assert(bound.units() == 0xFA_0000 * pow2(135));
    assert(limit.units() == 0x80_0000 * pow2(136));
    let passed = mass_fraction - start;
    assert(passed == mass_fraction + back) by {
        reveal(Binary32::spec_sub);
    }
    binary32::lemma_rounded_sum(mass_fraction, back);
    let sum = mass_fraction.value() + back.value();
    let far = (if sum < 0 {
        -sum
    } else {
        sum
    }) as nat;
    let code = magnitude::round(far, 1);
    magnitude::lemma_round_exact(0x4480_0000);
    magnitude::lemma_round_exists(limit.units(), 1);
    assert(far <= limit.units());
    magnitude::lemma_round_monotone(far, 1, code, limit.units(), 1, 0x4480_0000);
    magnitude::lemma_units_order(0x4480_0000, code);
    magnitude::lemma_units_order(0x4480_0000, passed.magnitude() as nat);
    assert(passed.units() == magnitude::units(code));
    lemma_quotient_is_finite(passed, range);
}

/// A number of no more size has no more units.
proof fn lemma_units_of_sizes(a: Binary32, bound: Binary32)
    requires
        a.is_finite(),
        bound.is_finite(),
        !bound.is_negative(),
        size(a.number()) <= bound.number(),
    ensures
        a.units() <= bound.units(),
{
    rounding::lemma_least();
    let (v, w, e) = (a.value() as real, bound.value() as real, rounding::least());
    assert(v <= w && -v <= w) by (nonlinear_arith)
        requires
            size(v * e) <= w * e,
            e > 0 as real,
    ;
}

/// A bounded number over the length of the transition is finite.
proof fn lemma_quotient_is_finite(a: Binary32, range: Binary32)
    requires
        a.is_finite(),
        a.units() <= Binary32::from_bits(0x4480_0000).units(),
        range == Binary32::from_bits(0x3E4C_CCCC),
    ensures
        (a / range).is_finite(),
{
    reveal(Binary32::spec_euclidean_or_real_div);
    lemma2_to64();
    assert(magnitude::units(0) == 0 * pow2(0));
    magnitude::lemma_units_order(0, 0x3E4C_CCCC);
    let negative = a.is_negative() != range.is_negative();
    let n = a.units() * pow2(149);
    let d = range.units();
    let code = magnitude::round(n, d);
    magnitude::lemma_round_exists(n, d);
    let high: nat = 0x4780_0000;
    magnitude::lemma_round_exact(high);
    magnitude::lemma_round_exists(magnitude::units(high), 1);
    lemma_pow2_adds(123, 26);
    lemma_pow2_adds(123, 13);
    lemma_pow2_adds(123, 19);
    let w = pow2(123);
    lemma_pow2_pos(123);
    assert(d == 0xCC_CCCC * w);
    assert(Binary32::from_bits(0x4480_0000).units() == 0x80_0000 * pow2(136));
    assert(magnitude::units(high) == 0x80_0000 * pow2(142));
    assert(n * 1 <= magnitude::units(high) * d) by (nonlinear_arith)
        requires
            n == a.units() * (w * 0x400_0000),
            a.units() <= 0x80_0000 * (w * 0x2000),
            magnitude::units(high) == 0x80_0000 * (w * 0x8_0000),
            d == 0xCC_CCCC * w,
            w > 0,
    ;
    magnitude::lemma_round_monotone(n, d, code, magnitude::units(high), 1, high);
    binary32::lemma_signed(negative, code);
}

/// A number some part of the way from one to another, beside the exact one.
pub open spec fn between_estimate(from: Binary32, to: Binary32, amount: Binary32) -> Estimate {
    Estimate::of(from).plus(
        Estimate::of(to).minus(Estimate::of(from)).times(Estimate::of(amount)),
    )
}

/// A number some part of the way from one to another is just that, up to rounding.
pub proof fn law_parts_of_the_way(from: Binary32, to: Binary32, amount: Binary32)
    ensures
        is_near(
            appearance::between(from, to, amount),
            from.number() + product(to.number() - from.number(), amount.number()),
            between_estimate(from, to, amount).error,
        ),
{
    let (f, t, a) = (Estimate::of(from), Estimate::of(to), Estimate::of(amount));
    estimate::law_estimates_hold(t, f);
    estimate::law_estimates_hold(t.minus(f), a);
    estimate::law_estimates_hold(f, t.minus(f).times(a));
}

/// Each part of a mixed color lies the given part of the way from that of one color to that of the
/// other, none of the way at the least and all of it at the most.
pub proof fn law_colors_are_mixed(from: Color, to: Color, amount: Binary32)
    requires
        amount.is_finite(),
    ensures
        exists|part: Binary32|
            {
                &&& #[trigger] part.number() == fraction_of(amount.number())
                &&& is_near(
                    appearance::mixed(from, to, amount).r,
                    from.r.number() + product(to.r.number() - from.r.number(), part.number()),
                    between_estimate(from.r, to.r, part).error,
                )
                &&& is_near(
                    appearance::mixed(from, to, amount).g,
                    from.g.number() + product(to.g.number() - from.g.number(), part.number()),
                    between_estimate(from.g, to.g, part).error,
                )
                &&& is_near(
                    appearance::mixed(from, to, amount).b,
                    from.b.number() + product(to.b.number() - from.b.number(), part.number()),
                    between_estimate(from.b, to.b, part).error,
                )
                &&& is_near(
                    appearance::mixed(from, to, amount).a,
                    from.a.number() + product(to.a.number() - from.a.number(), part.number()),
                    between_estimate(from.a, to.a, part).error,
                )
            },
{
    let part = appearance::unit_clamped(amount);
    numbers::law_plain_numbers();
    numbers::law_clamped(amount, Binary32::from_bits(ZERO), Binary32::from_bits(ONE));
    law_parts_of_the_way(from.r, to.r, part);
    law_parts_of_the_way(from.g, to.g, part);
    law_parts_of_the_way(from.b, to.b, part);
    law_parts_of_the_way(from.a, to.a, part);
    assert(part.number() == fraction_of(amount.number()));
}

/// A part of a color is near a decimal number.
pub open spec fn is_decimal(part: Binary32, exact: real) -> bool {
    part.is_finite() && size(part.number() - exact) <= slack(part)
}

/// A body that has fully turned is yellow: (1, 0.72, 0.15), opaque.
pub proof fn law_turned_bodies_are_yellow()
    ensures
        appearance::central_body_color().r.number() == 1 as real,
        is_decimal(appearance::central_body_color().g, 72 as real / 100 as real),
        is_decimal(appearance::central_body_color().b, 15 as real / 100 as real),
        appearance::central_body_color().a.number() == 1 as real,
{
    numbers::law_plain_numbers();
    lemma2_to64();
    numbers::lemma_decimal(0x3F38_51EC, 24, 0x100_0000, 72 as real / 100 as real);
    numbers::lemma_decimal(0x3E19_999A, 26, 0x400_0000, 15 as real / 100 as real);
}

/// A part of the color of a body that has not turned: of its brightness and of that of its mass, so
/// much each.
pub open spec fn tint_estimate(
    brightness: Binary32,
    mass: Binary32,
    bright_bits: u32,
    bright: real,
    mass_bits: u32,
    heavy: real,
) -> Estimate {
    Estimate::of(brightness).times(decimal(bright_bits, bright)).plus(
        Estimate::of(mass).times(decimal(mass_bits, heavy)),
    )
}

/// What is no more than one is as near as before.
proof fn lemma_no_more_than_one(computed: Binary32, exact: real, error: real)
    requires
        is_near(computed, exact, error),
        error >= 0 as real,
    ensures
        computed.is_finite() ==> computed.min(Binary32::from_bits(ONE)).is_finite() && size(
            computed.min(Binary32::from_bits(ONE)).number() - lesser(exact, 1 as real),
        ) <= error,
{
    numbers::law_plain_numbers();
    if computed.is_finite() {
        numbers::law_lesser_and_greater(computed, Binary32::from_bits(ONE));
    }
}

/// The brightness that a mass adds to the color of its body: the root of its part of 20, one at the
/// most.
pub open spec fn is_mass_brightness(shine: Binary32, mass: Binary32) -> bool {
    let part = mass / Binary32::from_bits(MAX_PARTICLE_MASS);
    &&& size(product(part.number(), 20 as real) - mass.number()) <= product(slack(part), 20 as real)
    &&& forall|root: real| #[trigger]
        radii::is_root(root, part.number()) ==> shine.is_finite() && size(
            shine.number() - fraction_of(root),
        ) <= 3 as real * slack(part.root())
}

/// A body that has not turned is as blue as it is bright, red for 0.65 of its brightness and 0.25 of
/// that of its mass, and green for 0.75 and 0.2 of them, none of it more than one; its opacity is
/// 0.95.
pub proof fn law_bodies_shine_with_brightness_and_mass(body: Body)
    requires
        body.mass.is_finite(),
        body.brightness.is_finite(),
        (body.mass / Binary32::from_bits(MAX_PARTICLE_MASS)).is_finite(),
        (body.mass / Binary32::from_bits(MAX_PARTICLE_MASS)).root().is_finite(),
    ensures
        exists|shine: Binary32|
            {
                let color = appearance::normal_color(body);
                let red = tint_estimate(
                    body.brightness,
                    shine,
                    POINT_65,
                    65 as real / 100 as real,
                    POINT_25,
                    25 as real / 100 as real,
                );
                let green = tint_estimate(
                    body.brightness,
                    shine,
                    POINT_75,
                    75 as real / 100 as real,
                    POINT_20,
                    20 as real / 100 as real,
                );
                &&& #[trigger] is_mass_brightness(shine, body.mass)
                &&& red.computed.is_finite() ==> size(
                    color.r.number() - lesser(
                        product(body.brightness.number(), 65 as real / 100 as real) + product(
                            shine.number(),
                            25 as real / 100 as real,
                        ),
                        1 as real,
                    ),
                ) <= red.error
                &&& green.computed.is_finite() ==> size(
                    color.g.number() - lesser(
                        product(body.brightness.number(), 75 as real / 100 as real) + product(
                            shine.number(),
                            20 as real / 100 as real,
                        ),
                        1 as real,
                    ),
                ) <= green.error
                &&& color.b.number() == lesser(body.brightness.number(), 1 as real)
                &&& is_decimal(color.a, 95 as real / 100 as real)
            },
{
    let part = body.mass / Binary32::from_bits(MAX_PARTICLE_MASS);
    let shine = appearance::unit_clamped(part.root());
    numbers::law_plain_numbers();
    lemma2_to64();
    numbers::lemma_bits(MAX_PARTICLE_MASS, 19, 0x8_0000);
    numbers::lemma_decimal(POINT_65, 24, 0x100_0000, 65 as real / 100 as real);
    numbers::lemma_decimal(POINT_25, 25, 0x200_0000, 25 as real / 100 as real);
    numbers::lemma_decimal(POINT_75, 24, 0x100_0000, 75 as real / 100 as real);
    numbers::lemma_decimal(POINT_20, 26, 0x400_0000, 20 as real / 100 as real);
    numbers::lemma_decimal(0x3F73_3333, 24, 0x100_0000, 95 as real / 100 as real);
    estimate::lemma_quotients_are_near(body.mass, Binary32::from_bits(MAX_PARTICLE_MASS));
    numbers::law_clamped(part.root(), Binary32::from_bits(ZERO), Binary32::from_bits(ONE));
    assert forall|root: real| #[trigger] radii::is_root(root, part.number()) implies
        shine.is_finite() && size(shine.number() - fraction_of(root)) <= 3 as real * slack(
        part.root(),
    ) by {
        radii::law_roots_are_near_real_roots(part, root);
    }
    assert(is_mass_brightness(shine, body.mass));
    let (b, m) = (Estimate::of(body.brightness), Estimate::of(shine));
    let (d65, d25) = (
        decimal(POINT_65, 65 as real / 100 as real),
        decimal(POINT_25, 25 as real / 100 as real),
    );
    let (d75, d20) = (
        decimal(POINT_75, 75 as real / 100 as real),
        decimal(POINT_20, 20 as real / 100 as real),
    );
    estimate::law_estimates_hold(b, d65);
    estimate::law_estimates_hold(m, d25);
    estimate::law_estimates_hold(b, d75);
    estimate::law_estimates_hold(m, d20);
    estimate::law_estimates_hold(b.times(d65), m.times(d25));
    estimate::law_estimates_hold(b.times(d75), m.times(d20));
    let red = b.times(d65).plus(m.times(d25));
    let green = b.times(d75).plus(m.times(d20));
    lemma_no_more_than_one(red.computed, red.exact, red.error);
    lemma_no_more_than_one(green.computed, green.exact, green.error);
    numbers::law_lesser_and_greater(body.brightness, Binary32::from_bits(ONE));
}

/// The disk of a body has the color of one that has not turned, mixed with yellow as far as it has;
/// its glow is orange and its highlight pale.
pub proof fn law_disks_turn_yellow(body: Body, total: Binary32, screen: Screen)
    ensures
        ({
            let circles = appearance::body_circles(body, total, screen);
            let turned = appearance::transition(body.mass / total);
            &&& circles.len() > 0 ==> projection::disk_of(circles).color == appearance::mixed(
                appearance::normal_color(body),
                appearance::central_body_color(),
                turned,
            )
            &&& circles.len() == 4 ==> {
                &&& circles[0].color.r.number() == 1 as real
                &&& is_decimal(circles[0].color.g, 45 as real / 100 as real)
                &&& is_decimal(circles[0].color.b, 5 as real / 100 as real)
                &&& circles[1].color.r.number() == 1 as real
                &&& is_decimal(circles[1].color.g, 55 as real / 100 as real)
                &&& is_decimal(circles[1].color.b, 8 as real / 100 as real)
                &&& circles[3].color.r.number() == 1 as real
                &&& is_decimal(circles[3].color.g, 92 as real / 100 as real)
                &&& is_decimal(circles[3].color.b, 55 as real / 100 as real)
            }
        }),
{
    numbers::law_plain_numbers();
    lemma2_to64();
    numbers::lemma_decimal(POINT_45, 25, 0x200_0000, 45 as real / 100 as real);
    numbers::lemma_decimal(POINT_05, 28, 0x1000_0000, 5 as real / 100 as real);
    numbers::lemma_decimal(POINT_55, 24, 0x100_0000, 55 as real / 100 as real);
    numbers::lemma_decimal(0x3DA3_D70A, 27, 0x800_0000, 8 as real / 100 as real);
    numbers::lemma_decimal(0x3F6B_851F, 24, 0x100_0000, 92 as real / 100 as real);
}

/// The bodies of a cloud are drawn one after the other, each with its own circles; fractions are
/// taken of the mass of all, and of no less than two to the minus 23.
pub proof fn law_bodies_are_drawn_one_after_the_other(
    particles: Seq<Body>,
    screen: Screen,
    upto: int,
)
    requires
        0 <= upto < particles.len(),
        bodies::mass_of(particles).is_finite(),
    ensures
        appearance::first_bodies_drawn(particles, screen, 0).len() == 0,
        appearance::first_bodies_drawn(particles, screen, upto + 1)
            == appearance::first_bodies_drawn(particles, screen, upto) + appearance::body_circles(
            particles[upto],
            appearance::whole_mass(particles),
            screen,
        ),
        appearance::whole_mass(particles).number() == greater(
            bodies::mass_of(particles).number(),
            1 as real / 0x80_0000 as real,
        ),
{
    lemma2_to64();
    lemma2_to64_rest();
    numbers::lemma_bits(EPSILON, 46, 0x4000_0000_0000);
    numbers::law_lesser_and_greater(bodies::mass_of(particles), Binary32::from_bits(EPSILON));
}

/// Over the dots of the particles of a compute device lie the circles of those live ones that have
/// begun to turn, one after the other, and of no others.
pub proof fn law_turning_bodies_are_drawn_over_the_dots(
    particles: Seq<Particle>,
    screen: Screen,
    upto: int,
)
    ensures
        ({
            let live = bodies::first_live_bodies(particles, particles.len() as int);
            let dots = appearance::first_snapshot_dots(particles, screen, particles.len() as int);
            let drawn = appearance::snapshot_circles(particles, screen);
            &&& drawn == dots + appearance::first_turning_drawn(live, screen, live.len() as int)
            &&& appearance::first_turning_drawn(live, screen, 0).len() == 0
            &&& 0 <= upto < live.len() ==> appearance::first_turning_drawn(live, screen, upto + 1)
                == appearance::first_turning_drawn(live, screen, upto) + if Binary32::from_bits(
                ZERO,
            ).less(appearance::transition(live[upto].mass / appearance::whole_mass(live))) {
                appearance::body_circles(live[upto], appearance::whole_mass(live), screen)
            } else {
                Seq::empty()
            }
        }),
{
    let live = bodies::first_live_bodies(particles, particles.len() as int);
    if 0 <= upto < live.len() {
        let before = appearance::first_turning_drawn(live, screen, upto);
        assert(before + Seq::<appearance::Circle>::empty() == before);
    }
}

/// The bodies of the live particles are those of the particles that live, in their order.
pub proof fn law_live_bodies_are_those_that_live(particles: Seq<Particle>, upto: int)
    requires
        0 <= upto <= particles.len(),
    ensures
        ({
            let live = particles.take(upto).filter(|particle: Particle| particle.alive != 0);
            let all = bodies::first_live_bodies(particles, upto);
            &&& all.len() == live.len()
            &&& forall|i: int|
                0 <= i < live.len() ==> {
                    let body = #[trigger] all[i];
                    &&& body.x == live[i].x
                    &&& body.y == live[i].y
                    &&& body.velocity_x == live[i].vx
                    &&& body.velocity_y == live[i].vy
                    &&& body.mass == live[i].mass
                    &&& body.brightness == live[i].brightness
                }
        }),
    decreases upto,
{
    reveal(Seq::filter);
    if upto > 0 {
        law_live_bodies_are_those_that_live(particles, upto - 1);
        assert(particles.take(upto).drop_last() == particles.take(upto - 1));
    }
}

/// The width of a trail before it is limited, beside the exact one.
pub open spec fn width_estimate(radius: Binary32, zoom: Binary32) -> Estimate {
    Estimate::of(radius).times(Estimate::of(zoom)).times(
        Estimate::of(Binary32::from_bits(TWO)),
    ).times(Estimate::of(Binary32::from_bits(TRAIL_WIDTH_SCALE)))
}

/// The radius of a trail is half of the width that it is meant to have.
proof fn lemma_trail_radius(point: TrailPoint, zoom: Binary32)
    ensures
        ({
            let radius = appearance::trail_radius(point, zoom);
            let width = width_estimate(point.radius, zoom);
            width.computed.is_finite() ==> size(
                2 as real * radius.number() - lesser(
                    greater(
                        product(
                            product(product(point.radius.number(), zoom.number()), 2 as real),
                            1 as real,
                        ),
                        1 as real,
                    ),
                    2 as real,
                ),
            ) <= width.error + 2 as real * slack(radius)
        }),
{
    numbers::law_plain_numbers();
    let radius = appearance::trail_radius(point, zoom);
    let width = width_estimate(point.radius, zoom);
    let (r, z, two, one) = (
        Estimate::of(point.radius),
        Estimate::of(zoom),
        Estimate::of(Binary32::from_bits(TWO)),
        Estimate::of(Binary32::from_bits(TRAIL_WIDTH_SCALE)),
    );
    estimate::law_estimates_hold(r, z);
    estimate::law_estimates_hold(r.times(z), two);
    estimate::law_estimates_hold(r.times(z).times(two), one);
    if width.computed.is_finite() {
        let (low, high) = (
            Binary32::from_bits(TRAIL_MIN_WIDTH_PIXELS),
            Binary32::from_bits(TRAIL_MAX_WIDTH_PIXELS),
        );
        numbers::law_clamped(width.computed, low, high);
        let limited = width.computed.clamp(low, high);
        assert(radius == limited * Binary32::from_bits(HALF));
        binary32::law_half_is_finite(limited);
        binary32::law_multiplication_commutes(limited, Binary32::from_bits(HALF));
        estimate::lemma_products_are_near(limited, Binary32::from_bits(HALF));
        assert(product(limited.number(), 1 as real / 2 as real) == limited.number() / 2 as real)
            by {
            reveal(product);
            let x = limited.number();
            assert(x * (1 as real / 2 as real) == x / 2 as real) by (nonlinear_arith);
        }
    }
}

/// The dot of a trail point lies where the point is shown, along both axes; it is as wide as the
/// body was, from one to two pixels; it is as bright as the body, one at the most, less in green and
/// still less in red; and it says how many times ten seconds old it is. It is drawn if and only if
/// it reaches the window.
pub proof fn law_trail_dots_show_where_bodies_were(point: TrailPoint, screen: Screen, now: Binary32)
    requires
        point.brightness.is_finite(),
    ensures
        ({
            let radius = appearance::trail_radius(point, screen.zoom);
            let width = width_estimate(point.radius, screen.zoom);
            let bright = point.brightness.min(Binary32::from_bits(ONE));
            let shown = appearance::trail_dot(point, screen, now);
            &&& shown is Some <==> screen.shows(screen.position(point.x, point.y), radius)
            &&& bright.number() == lesser(point.brightness.number(), 1 as real)
            &&& width.computed.is_finite() ==> size(
                2 as real * radius.number() - lesser(
                    greater(
                        product(
                            product(product(point.radius.number(), screen.zoom.number()), 2 as real),
                            1 as real,
                        ),
                        1 as real,
                    ),
                    2 as real,
                ),
            ) <= width.error + 2 as real * slack(radius)
            &&& shown matches Some(dot) ==> {
                &&& is_at(dot.x, screen.width, point.x, screen.zoom)
                &&& is_at(dot.y, screen.height, point.y, screen.zoom)
                &&& dot.radius == radius
                &&& is_part(dot.r, bright, POINT_60, 60 as real / 100 as real)
                &&& is_part(dot.g, bright, POINT_75, 75 as real / 100 as real)
                &&& dot.b == bright
                &&& (now - point.creation_time).is_finite() && dot.half_lives.is_finite() ==> size(
                    product(dot.half_lives.number(), 10 as real) - (now.number()
                        - point.creation_time.number()),
                ) <= product(slack(dot.half_lives), 10 as real) + slack(now - point.creation_time)
            }
        }),
{
    numbers::law_plain_numbers();
    lemma2_to64();
    numbers::lemma_bits(TRAIL_HALF_LIFE, 20, 0x10_0000);
    numbers::lemma_decimal(POINT_60, 24, 0x100_0000, 60 as real / 100 as real);
    numbers::lemma_decimal(POINT_75, 24, 0x100_0000, 75 as real / 100 as real);
    projection::law_places_are_shown_where_they_are(screen, point.x, point.y);
    numbers::law_lesser_and_greater(point.brightness, Binary32::from_bits(ONE));
    let bright = point.brightness.min(Binary32::from_bits(ONE));
    projection::lemma_part(bright, POINT_60, 60 as real / 100 as real);
    projection::lemma_part(bright, POINT_75, 75 as real / 100 as real);
    lemma_trail_radius(point, screen.zoom);
    if let Some(dot) = appearance::trail_dot(point, screen, now) {
        let age = now - point.creation_time;
        if age.is_finite() && dot.half_lives.is_finite() {
            rounding::law_differences_are_near(now, point.creation_time);
            estimate::lemma_quotients_are_near(age, Binary32::from_bits(TRAIL_HALF_LIFE));
        }
    }
}

/// The dots of trail points that can be seen are drawn in the order of the points, and no others.
pub proof fn law_trail_dots_come_in_the_order_of_the_points(
    points: Seq<TrailPoint>,
    screen: Screen,
    now: Binary32,
    upto: int,
)
    requires
        0 <= upto <= points.len(),
    ensures
        appearance::first_dots(points, screen, now, upto) == points.take(upto).filter_map(
            |point: TrailPoint| appearance::trail_dot(point, screen, now),
        ),
    decreases upto,
{
    if upto > 0 {
        law_trail_dots_come_in_the_order_of_the_points(points, screen, now, upto - 1);
        assert(points.take(upto).drop_last() == points.take(upto - 1));
    }
}

/// A fresh trail point has an opacity of 0.35, and one that has faded a part of that.
pub proof fn law_trails_fade_from_0_35(fade: Binary32)
    ensures
        is_part(
            appearance::trail_alpha(fade),
            fade,
            TRAIL_INITIAL_ALPHA,
            35 as real / 100 as real,
        ),
{
    lemma2_to64();
    numbers::lemma_decimal(TRAIL_INITIAL_ALPHA, 25, 0x200_0000, 35 as real / 100 as real);
    projection::lemma_part(fade, TRAIL_INITIAL_ALPHA, 35 as real / 100 as real);
}

} // verus!
