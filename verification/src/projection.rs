//! Where things are on the screen and how large they are: the centre of the window and the zoom
//! times the place, along both axes, and the zoom times the radius.

use vstd::prelude::*;
use vstd::arithmetic::power2::*;
use crate::appearance;
use crate::appearance::{
    Circle, Screen, BODY_RADIUS_MAX, BODY_RADIUS_MIN, DOT_MARGIN, GLOW_REACH, INNER_GLOW,
    OUTER_GLOW, POINT_25, POINT_55, POINT_80,
};
use crate::binary32;
use crate::binary32::{Binary32, HALF, ONE, ZERO};
use crate::bodies::Body;
use crate::collision::particle_radius;
use crate::estimate;
use crate::estimate::Estimate;
use crate::numbers;
use crate::numbers::{decimal, greater, lesser};
use crate::radii;
use crate::rounding;
use crate::rounding::{product, size, slack};
use crate::types::Particle;

verus! {

/// A coordinate on the screen, meant to be half of the extent of the window and the zoom times the
/// coordinate in the plane.
pub open spec fn place_estimate(extent: Binary32, coordinate: Binary32, zoom: Binary32) -> Estimate {
    Estimate::of(extent).times(Estimate::of(Binary32::from_bits(HALF))).plus(
        Estimate::of(coordinate).times(Estimate::of(zoom)),
    )
}

/// A coordinate on the screen shows a coordinate in the plane: it is half of the extent of the
/// window and the zoom times the coordinate, up to rounding, where it is finite.
pub open spec fn is_at(shown: Binary32, extent: Binary32, coordinate: Binary32, zoom: Binary32) -> bool {
    shown.is_finite() ==> size(
        shown.number() - (extent.number() / 2 as real + product(coordinate.number(), zoom.number())),
    ) <= place_estimate(extent, coordinate, zoom).error
}

/// A circle has its centre where a place is shown, along both axes.
pub open spec fn is_centred(circle: Circle, screen: Screen, x: Binary32, y: Binary32) -> bool {
    &&& is_at(circle.x, screen.width, x, screen.zoom)
    &&& is_at(circle.y, screen.height, y, screen.zoom)
}

/// A coordinate is near what it is meant to be.
proof fn lemma_place(extent: Binary32, coordinate: Binary32, zoom: Binary32)
    ensures
        is_at(
            extent * Binary32::from_bits(HALF) + coordinate * zoom,
            extent,
            coordinate,
            zoom,
        ),
{
    reveal(product);
    let half = Binary32::from_bits(HALF);
    estimate::law_estimates_hold(Estimate::of(extent), Estimate::of(half));
    estimate::law_estimates_hold(Estimate::of(coordinate), Estimate::of(zoom));
    estimate::law_estimates_hold(
        Estimate::of(extent).times(Estimate::of(half)),
        Estimate::of(coordinate).times(Estimate::of(zoom)),
    );
    numbers::law_plain_numbers();
    let e = extent.number();
    assert(e * (1 as real / 2 as real) == e / 2 as real) by (nonlinear_arith);
}

/// A place is shown at the centre of the window and the zoom times its coordinates, along both
/// axes.
pub proof fn law_places_are_shown_where_they_are(screen: Screen, x: Binary32, y: Binary32)
    ensures
        is_at(screen.position(x, y).0, screen.width, x, screen.zoom),
        is_at(screen.position(x, y).1, screen.height, y, screen.zoom),
{
    lemma_place(screen.width, x, screen.zoom);
    lemma_place(screen.height, y, screen.zoom);
}

/// The exact difference of two coordinates on the screen is the zoom times that of the coordinates
/// that they show.
pub proof fn law_differences_are_magnified(
    a: Binary32,
    b: Binary32,
    extent: Binary32,
    x: Binary32,
    y: Binary32,
    zoom: Binary32,
)
    requires
        a.is_finite(),
        b.is_finite(),
        is_at(a, extent, x, zoom),
        is_at(b, extent, y, zoom),
    ensures
        size(
            a.number() - b.number() - product(zoom.number(), x.number() - y.number()),
        ) <= place_estimate(extent, x, zoom).error + place_estimate(extent, y, zoom).error,
{
    estimate::lemma_difference_times(x.number(), y.number(), zoom.number());
    estimate::lemma_products_of_three(x.number() - y.number(), zoom.number(), zoom.number());
}

/// Something at a position can be seen if and only if it reaches the window along both axes.
pub proof fn law_what_reaches_the_window_is_seen(
    screen: Screen,
    position: (Binary32, Binary32),
    reach: Binary32,
)
    requires
        position.0.is_finite(),
        position.1.is_finite(),
        reach.is_finite(),
        (screen.width + reach).is_finite(),
        (screen.height + reach).is_finite(),
    ensures
        screen.shows(position, reach) <==> {
            &&& position.0.number() + reach.number() >= 0 as real
            &&& position.0.number() <= (screen.width + reach).number()
            &&& position.1.number() + reach.number() >= 0 as real
            &&& position.1.number() <= (screen.height + reach).number()
        },
        size(
            (screen.width + reach).number() - (screen.width.number() + reach.number()),
        ) <= slack(screen.width + reach),
        size(
            (screen.height + reach).number() - (screen.height.number() + reach.number()),
        ) <= slack(screen.height + reach),
{
    let back = reach.opposite();
    binary32::lemma_opposite(reach);
    estimate::lemma_opposite_numbers(back, reach);
    numbers::law_comparisons_order_numbers(position.0, back);
    numbers::law_comparisons_order_numbers(position.1, back);
    numbers::law_comparisons_order_numbers(screen.width + reach, position.0);
    numbers::law_comparisons_order_numbers(screen.height + reach, position.1);
    rounding::law_sums_are_near(screen.width, reach);
    rounding::law_sums_are_near(screen.height, reach);
}

/// The radius of a dot before it is made no smaller than a pixel, meant to be 0.45 times the root of
/// the mass times the zoom.
pub open spec fn dot_radius_estimate(mass: Binary32, root: real, zoom: Binary32) -> Estimate {
    radii::root_estimate(mass, root).times(radii::scale_estimate()).times(Estimate::of(zoom))
}

/// What is no smaller than a limit is as near as before.
proof fn lemma_limited(x: real, y: real, e: real, low: real)
    requires
        size(x - y) <= e,
    ensures
        size(greater(x, low) - greater(y, low)) <= e,
        size(lesser(x, low) - lesser(y, low)) <= e,
{
}

/// The dot of a live particle of a compute device lies at the centre of the window and the zoom
/// times the particle's place, along both axes; its radius is the zoom times the particle's, one
/// pixel at the least; it is as bright as the particle. It is drawn if and only if it lies on the
/// window or no more than 20 pixels beside it; a dead particle has none.
pub proof fn law_dots_show_live_particles(particle: Particle, screen: Screen, root: real)
    requires
        particle.mass.is_finite(),
        radii::is_root(root, particle.mass.number()),
    ensures
        appearance::snapshot_dot(particle, screen) matches Some(dot) ==> {
            let raw = dot_radius_estimate(particle.mass, root, screen.zoom);
            &&& particle.alive != 0
            &&& is_centred(dot, screen, particle.x, particle.y)
            &&& raw.computed.is_finite() ==> size(
                dot.radius.number() - greater(
                    product(product(45 as real / 100 as real, root), screen.zoom.number()),
                    1 as real,
                ),
            ) <= raw.error
            &&& dot.color.r == particle.brightness
            &&& dot.color.g.is_finite() ==> size(
                dot.color.g.number() - product(
                    particle.brightness.number(),
                    80 as real / 100 as real,
                ),
            ) <= Estimate::of(particle.brightness).times(
                decimal(POINT_80, 80 as real / 100 as real),
            ).error
            &&& dot.color.b.number() == 1 as real
            &&& dot.color.a.number() == 1 as real
        },
        appearance::snapshot_dot(particle, screen) is Some <==> particle.alive != 0
            && screen.shows(screen.position(particle.x, particle.y), Binary32::from_bits(DOT_MARGIN)),
        Binary32::from_bits(DOT_MARGIN).number() == 20 as real,
{
    law_places_are_shown_where_they_are(screen, particle.x, particle.y);
    numbers::law_plain_numbers();
    lemma2_to64();
    numbers::lemma_bits(DOT_MARGIN, 19, 0x8_0000);
    radii::law_radii_scale_as_documented();
    radii::law_roots_are_near_real_roots(particle.mass, root);
    let (r, c, z) = (
        radii::root_estimate(particle.mass, root),
        radii::scale_estimate(),
        Estimate::of(screen.zoom),
    );
    estimate::law_estimates_hold(r, c);
    estimate::law_estimates_hold(r.times(c), z);
    estimate::lemma_products_of_three(root, 45 as real / 100 as real, 0 as real);
    let raw = dot_radius_estimate(particle.mass, root, screen.zoom);
    if raw.computed.is_finite() {
        numbers::law_lesser_and_greater(raw.computed, Binary32::from_bits(ONE));
        lemma_limited(raw.computed.number(), raw.exact, raw.error, 1 as real);
    }
    numbers::lemma_decimal(POINT_80, 24, 0x100_0000, 80 as real / 100 as real);
    estimate::law_estimates_hold(
        Estimate::of(particle.brightness),
        decimal(POINT_80, 80 as real / 100 as real),
    );
}

/// Every live particle of a compute device that can be seen has its dot, in the order of the
/// particles, and nothing else has: the dots come first, and the glow over them.
pub proof fn law_dots_come_in_the_order_of_the_particles(particles: Seq<Particle>, screen: Screen)
    ensures
        ({
            let dots = particles.filter_map(
                |particle: Particle| appearance::snapshot_dot(particle, screen),
            );
            let drawn = appearance::snapshot_circles(particles, screen);
            &&& dots.len() <= drawn.len()
            &&& drawn.take(dots.len() as int) == dots
        }),
{
    let show = |particle: Particle| appearance::snapshot_dot(particle, screen);
    lemma_dots(particles, screen, particles.len() as int);
    assert(particles.take(particles.len() as int) == particles);
    let dots = particles.filter_map(show);
    assert(appearance::snapshot_circles(particles, screen).take(dots.len() as int) == dots);
}

/// The dots of the first particles.
proof fn lemma_dots(particles: Seq<Particle>, screen: Screen, upto: int)
    requires
        0 <= upto <= particles.len(),
    ensures
        appearance::first_snapshot_dots(particles, screen, upto) == particles.take(upto).filter_map(
            |particle: Particle| appearance::snapshot_dot(particle, screen),
        ),
    decreases upto,
{
    if upto > 0 {
        lemma_dots(particles, screen, upto - 1);
        assert(particles.take(upto).drop_last() == particles.take(upto - 1));
    }
}

/// The radius of a body on the screen before it is limited, meant to be 0.45 times the root of the
/// mass times the zoom.
pub open spec fn body_radius_estimate(mass: Binary32, root: real, zoom: Binary32) -> Estimate {
    radii::radius_estimate(mass, root).times(Estimate::of(zoom))
}

/// A number is a decimal part of another one, up to rounding, where it is finite.
pub open spec fn is_part(result: Binary32, of: Binary32, bits: u32, part: real) -> bool {
    result.is_finite() ==> size(result.number() - product(of.number(), part)) <= Estimate::of(
        of,
    ).times(decimal(bits, part)).error
}

/// A number is a quarter of another one, up to rounding.
pub open spec fn is_quarter(result: Binary32, of: Binary32) -> bool {
    is_part(result, of, POINT_25, 25 as real / 100 as real)
}

/// A part of a number is what it is meant to be.
pub(crate) proof fn lemma_part(of: Binary32, bits: u32, part: real)
    requires
        decimal(bits, part).holds(),
    ensures
        is_part(of * Binary32::from_bits(bits), of, bits, part),
        is_part(Binary32::from_bits(bits) * of, of, bits, part),
{
    estimate::law_estimates_hold(Estimate::of(of), decimal(bits, part));
    binary32::law_multiplication_commutes(of, Binary32::from_bits(bits));
}

/// A number less a part of another one.
proof fn lemma_shifted(a: Binary32, b: Binary32)
    ensures
        (a - b).is_finite() ==> size((a - b).number() - (a.number() - b.number())) <= slack(a - b),
{
    if (a - b).is_finite() {
        rounding::law_differences_are_near(a, b);
    }
}

/// How far the glow of a body reaches, beside the exact reach.
pub open spec fn reach_estimate(radius: Binary32, turned: Binary32) -> Estimate {
    Estimate::of(radius).times(
        Estimate::of(Binary32::from_bits(ONE)).plus(
            decimal(GLOW_REACH, 170 as real / 100 as real).times(Estimate::of(turned)),
        ),
    )
}

/// A body reaches as far around its place as its disk, and 1.7 times the radius farther as far as
/// it has turned.
pub proof fn law_glow_reaches_beyond_the_disk(body: Body, total: Binary32, screen: Screen)
    ensures
        ({
            let circles = appearance::body_circles(body, total, screen);
            let turned = appearance::transition(body.mass / total);
            let reach = appearance::glow_reach(body, total, screen);
            let radius = disk_of(circles).radius;
            circles.len() > 0 && reach.is_finite() ==> size(
                reach.number() - product(
                    radius.number(),
                    1 as real + product(170 as real / 100 as real, turned.number()),
                ),
            ) <= reach_estimate(radius, turned).error
        }),
{
    let circles = appearance::body_circles(body, total, screen);
    let turned = appearance::transition(body.mass / total);
    let radius = Estimate::of(disk_of(circles).radius);
    let (one, far) = (
        Estimate::of(Binary32::from_bits(ONE)),
        decimal(GLOW_REACH, 170 as real / 100 as real),
    );
    numbers::law_plain_numbers();
    lemma2_to64();
    numbers::lemma_decimal(GLOW_REACH, 23, 0x80_0000, 170 as real / 100 as real);
    estimate::law_estimates_hold(far, Estimate::of(turned));
    estimate::law_estimates_hold(one, far.times(Estimate::of(turned)));
    estimate::law_estimates_hold(radius, one.plus(far.times(Estimate::of(turned))));
}

/// The disk of a body.
pub open spec fn disk_of(circles: Seq<Circle>) -> Circle {
    if circles.len() == 4 {
        circles[2]
    } else {
        circles[0]
    }
}

/// The radius of a disk is within its limits what it is meant to be.
proof fn lemma_disk_radius(mass: Binary32, root: real, zoom: Binary32)
    requires
        mass.is_finite(),
        radii::is_root(root, mass.number()),
    ensures
        ({
            let raw = body_radius_estimate(mass, root, zoom);
            let low = Binary32::from_bits(BODY_RADIUS_MIN);
            let radius = raw.computed.clamp(low, Binary32::from_bits(BODY_RADIUS_MAX));
            &&& raw.computed == particle_radius(mass) * zoom
            &&& raw.computed.is_finite() ==> size(
                radius.number() - lesser(
                    greater(
                        product(product(45 as real / 100 as real, root), zoom.number()),
                        70 as real / 100 as real,
                    ),
                    50 as real,
                ),
            ) <= raw.error + slack(low)
        }),
{
    let raw = body_radius_estimate(mass, root, zoom);
    let (low, high) = (Binary32::from_bits(BODY_RADIUS_MIN), Binary32::from_bits(BODY_RADIUS_MAX));
    lemma2_to64();
    numbers::lemma_bits(BODY_RADIUS_MAX, 18, 0x4_0000);
    numbers::lemma_bits(BODY_RADIUS_MIN, 24, 0x100_0000);
    numbers::lemma_decimal(BODY_RADIUS_MIN, 24, 0x100_0000, 70 as real / 100 as real);
    radii::law_radii_grow_with_the_root_of_the_mass(mass, root);
    estimate::law_estimates_hold(radii::radius_estimate(mass, root), Estimate::of(zoom));
    if raw.computed.is_finite() {
        numbers::law_clamped(raw.computed, low, high);
        lemma_limited(raw.computed.number(), raw.exact, raw.error, low.number());
        lemma_limited(low.number(), 70 as real / 100 as real, slack(low), raw.exact);
        lemma_limited(
            greater(raw.computed.number(), low.number()),
            greater(raw.exact, 70 as real / 100 as real),
            raw.error + slack(low),
            50 as real,
        );
    }
}

/// The parts of a radius that glow and highlight have.
proof fn lemma_layers(radius: Binary32)
    ensures
        is_part(radius * Binary32::from_bits(OUTER_GLOW), radius, OUTER_GLOW, 270 as real / 100 as real),
        is_part(radius * Binary32::from_bits(INNER_GLOW), radius, INNER_GLOW, 180 as real / 100 as real),
        is_part(radius * Binary32::from_bits(POINT_55), radius, POINT_55, 55 as real / 100 as real),
        is_quarter(radius * Binary32::from_bits(POINT_25), radius),
{
    lemma2_to64();
    numbers::lemma_decimal(OUTER_GLOW, 22, 0x40_0000, 270 as real / 100 as real);
    numbers::lemma_decimal(INNER_GLOW, 23, 0x80_0000, 180 as real / 100 as real);
    numbers::lemma_decimal(POINT_55, 24, 0x100_0000, 55 as real / 100 as real);
    numbers::lemma_decimal(POINT_25, 25, 0x200_0000, 25 as real / 100 as real);
    lemma_part(radius, OUTER_GLOW, 270 as real / 100 as real);
    lemma_part(radius, INNER_GLOW, 180 as real / 100 as real);
    lemma_part(radius, POINT_55, 55 as real / 100 as real);
    lemma_part(radius, POINT_25, 25 as real / 100 as real);
}

/// How opaque glow and highlight are.
proof fn lemma_opacities(turned: Binary32)
    ensures
        is_part(Binary32::from_bits(0x3D0F_5C29) * turned, turned, 0x3D0F_5C29, 35 as real / 1000 as real),
        is_part(turned * Binary32::from_bits(0x3D0F_5C29), turned, 0x3D0F_5C29, 35 as real / 1000 as real),
        is_part(Binary32::from_bits(0x3DA3_D70A) * turned, turned, 0x3DA3_D70A, 8 as real / 100 as real),
        is_part(turned * Binary32::from_bits(0x3DA3_D70A), turned, 0x3DA3_D70A, 8 as real / 100 as real),
        is_part(Binary32::from_bits(POINT_80) * turned, turned, POINT_80, 80 as real / 100 as real),
        is_part(turned * Binary32::from_bits(POINT_80), turned, POINT_80, 80 as real / 100 as real),
{
    lemma2_to64();
    numbers::lemma_decimal(POINT_80, 24, 0x100_0000, 80 as real / 100 as real);
    numbers::lemma_decimal(0x3D0F_5C29, 28, 0x1000_0000, 35 as real / 1000 as real);
    numbers::lemma_decimal(0x3DA3_D70A, 27, 0x800_0000, 8 as real / 100 as real);
    lemma_part(turned, 0x3D0F_5C29, 35 as real / 1000 as real);
    lemma_part(turned, 0x3DA3_D70A, 8 as real / 100 as real);
    lemma_part(turned, POINT_80, 80 as real / 100 as real);
}

/// A body that can be seen is shown by a disk at the centre of the window and the zoom times its
/// place, along both axes. The disk's radius is the zoom times the body's, from 0.7 to 50 pixels.
/// A body that has begun to turn has two layers of glow around the same centre, with 2.7 and 1.8
/// times the radius, and a highlight with 0.55 of it, a quarter of the radius to the left and above;
/// the more it has turned, the more opaque they are.
#[verifier::spinoff_prover]
#[verifier::rlimit(40)]
pub proof fn law_bodies_are_shown_where_they_are(
    body: Body,
    total: Binary32,
    screen: Screen,
    root: real,
)
    requires
        body.mass.is_finite(),
        radii::is_root(root, body.mass.number()),
    ensures
        ({
            let circles = appearance::body_circles(body, total, screen);
            let turned = appearance::transition(body.mass / total);
            let raw = body_radius_estimate(body.mass, root, screen.zoom);
            let disk = disk_of(circles);
            let seen = screen.shows(
                screen.position(body.x, body.y),
                appearance::glow_reach(body, total, screen),
            );
            &&& circles.len() == if !seen {
                0int
            } else if Binary32::from_bits(ZERO).less(turned) {
                4
            } else {
                1
            }
            &&& circles.len() > 0 ==> {
                &&& is_centred(disk, screen, body.x, body.y)
                &&& raw.computed.is_finite() ==> size(
                    disk.radius.number() - lesser(
                        greater(
                            product(product(45 as real / 100 as real, root), screen.zoom.number()),
                            70 as real / 100 as real,
                        ),
                        50 as real,
                    ),
                ) <= raw.error + slack(Binary32::from_bits(BODY_RADIUS_MIN))
            }
            &&& circles.len() == 4 ==> {
                &&& is_centred(circles[0], screen, body.x, body.y)
                &&& is_centred(circles[1], screen, body.x, body.y)
                &&& is_part(circles[0].radius, disk.radius, OUTER_GLOW, 270 as real / 100 as real)
                &&& is_part(circles[1].radius, disk.radius, INNER_GLOW, 180 as real / 100 as real)
                &&& is_part(circles[3].radius, disk.radius, POINT_55, 55 as real / 100 as real)
                &&& exists|shift: Binary32|
                    #[trigger] is_quarter(shift, disk.radius) && {
                        &&& circles[3].x.is_finite() ==> size(
                            circles[3].x.number() - (disk.x.number() - shift.number()),
                        ) <= slack(circles[3].x)
                        &&& circles[3].y.is_finite() ==> size(
                            circles[3].y.number() - (disk.y.number() - shift.number()),
                        ) <= slack(circles[3].y)
                    }
                &&& is_part(circles[0].color.a, turned, 0x3D0F_5C29, 35 as real / 1000 as real)
                &&& is_part(circles[1].color.a, turned, 0x3DA3_D70A, 8 as real / 100 as real)
                &&& is_part(circles[3].color.a, turned, POINT_80, 80 as real / 100 as real)
            }
        }),
{
    let circles = appearance::body_circles(body, total, screen);
    let turned = appearance::transition(body.mass / total);
    let radius = (particle_radius(body.mass) * screen.zoom).clamp(
        Binary32::from_bits(BODY_RADIUS_MIN),
        Binary32::from_bits(BODY_RADIUS_MAX),
    );
    law_places_are_shown_where_they_are(screen, body.x, body.y);
    lemma_disk_radius(body.mass, root, screen.zoom);
    lemma_layers(radius);
    lemma_opacities(turned);
    let shift = radius * Binary32::from_bits(POINT_25);
    lemma_shifted(screen.position(body.x, body.y).0, shift);
    lemma_shifted(screen.position(body.x, body.y).1, shift);
    if circles.len() > 0 {
        assert(disk_of(circles).radius == radius);
    }
    if circles.len() == 4 {
        assert(is_quarter(shift, disk_of(circles).radius));
    }
}

} // verus!
