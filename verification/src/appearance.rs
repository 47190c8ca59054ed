//! What bodies and trails look like on a screen: circles and their colors.

use std::collections::VecDeque;
use vstd::prelude::*;
use vstd::arithmetic::power2::*;
use crate::binary32;
use crate::binary32::{Binary32, HALF, ONE, TWO, ZERO};
use crate::bodies;
use crate::bodies::{live_bodies, Body, EPSILON};
use crate::collision::{particle_radius, PARTICLE_RADIUS_SCALE};
use crate::magnitude;
use crate::spawn::MAX_PARTICLE_MASS;
use crate::trails::TrailPoint;
use crate::transition_range;
use crate::types::Particle;
use crate::wasm::total_mass;

verus! {

/// The fraction of the total mass at which a body begins to turn yellow: 0.25.
pub const YELLOW_TRANSITION_START_MASS_FRACTION: u32 = 0x3E80_0000;

/// The fraction of the total mass at which a body has fully turned: 0.45.
pub const CENTRAL_BODY_APPEARANCE_MASS_FRACTION: u32 = 0x3EE6_6666;

/// The time in which a trail point loses half of its opacity: 10.
pub const TRAIL_HALF_LIFE: u32 = 0x4120_0000;

/// The opacity of a fresh trail point: 0.35.
pub const TRAIL_INITIAL_ALPHA: u32 = 0x3EB3_3333;

/// The smallest width of a trail, in pixels: 1.
pub const TRAIL_MIN_WIDTH_PIXELS: u32 = 0x3F80_0000;

/// The largest width of a trail, in pixels: 2.
pub const TRAIL_MAX_WIDTH_PIXELS: u32 = 0x4000_0000;

/// What the diameter of a body is multiplied by for the width of its trail: 1.
pub const TRAIL_WIDTH_SCALE: u32 = 0x3F80_0000;

/// The smallest radius of a body, in pixels: 0.7.
pub const BODY_RADIUS_MIN: u32 = 0x3F33_3333;

/// The largest radius of a body, in pixels: 50.
pub const BODY_RADIUS_MAX: u32 = 0x4248_0000;

/// Three.
pub const THREE: u32 = 0x4040_0000;

/// Five hundredths.
pub const POINT_05: u32 = 0x3D4C_CCCD;

/// Two tenths.
pub const POINT_20: u32 = 0x3E4C_CCCD;

/// A quarter.
pub const POINT_25: u32 = 0x3E80_0000;

/// Forty-five hundredths.
pub const POINT_45: u32 = 0x3EE6_6666;

/// Fifty-five hundredths.
pub const POINT_55: u32 = 0x3F0C_CCCD;

/// Six tenths.
pub const POINT_60: u32 = 0x3F19_999A;

/// Sixty-five hundredths.
pub const POINT_65: u32 = 0x3F26_6666;

/// Three quarters.
pub const POINT_75: u32 = 0x3F40_0000;

/// Eight tenths.
pub const POINT_80: u32 = 0x3F4C_CCCD;

/// How far beyond its radius a full glow reaches: 1.7 radii.
pub const GLOW_REACH: u32 = 0x3FD9_999A;

/// The radius of the outer layer of the glow: 2.7 radii.
pub const OUTER_GLOW: u32 = 0x402C_CCCD;

/// The radius of the inner layer of the glow: 1.8 radii.
pub const INNER_GLOW: u32 = 0x3FE6_6666;

/// The width of the border around the screen in which dots are still drawn: 20.
pub const DOT_MARGIN: u32 = 0x41A0_0000;

/// A color with its opacity.
#[derive(Clone, Copy, Debug, PartialEq)]
pub struct Color {
    pub r: Binary32,
    pub g: Binary32,
    pub b: Binary32,
    pub a: Binary32,
}

/// A color from the bits of its parts.
#[verifier::allow_in_spec]
pub fn color(r: u32, g: u32, b: u32, a: u32) -> Color
    returns
        (Color {
            r: Binary32::from_bits(r),
            g: Binary32::from_bits(g),
            b: Binary32::from_bits(b),
            a: Binary32::from_bits(a),
        }),
{
    Color {
        r: Binary32::from_bits(r),
        g: Binary32::from_bits(g),
        b: Binary32::from_bits(b),
        a: Binary32::from_bits(a),
    }
}

/// A filled circle.
#[derive(Clone, Copy, Debug, PartialEq)]
pub struct Circle {
    pub x: Binary32,
    pub y: Binary32,
    pub radius: Binary32,
    pub color: Color,
}

/// The window and what part of the plane it shows.
#[derive(Clone, Copy, Debug, PartialEq)]
pub struct Screen {
    pub width: Binary32,
    pub height: Binary32,
    pub zoom: Binary32,
}

impl Screen {
    /// Where a place is shown.
    pub open spec fn position(self, x: Binary32, y: Binary32) -> (Binary32, Binary32) {
        let half = Binary32::from_bits(HALF);
        (self.width * half + x * self.zoom, self.height * half + y * self.zoom)
    }

    /// Whether something at a position can be seen if it reaches so far around.
    pub open spec fn shows(self, position: (Binary32, Binary32), reach: Binary32) -> bool {
        &&& !position.0.less(reach.opposite())
        &&& !(self.width + reach).less(position.0)
        &&& !position.1.less(reach.opposite())
        &&& !(self.height + reach).less(position.1)
    }

    /// Where a place is shown.
    pub fn place(&self, x: Binary32, y: Binary32) -> (position: (Binary32, Binary32))
        ensures
            position == self.position(x, y),
    {
        let half = Binary32::from_bits(HALF);
        (self.width * half + x * self.zoom, self.height * half + y * self.zoom)
    }

    /// Whether something at a position can be seen if it reaches so far around.
    pub fn is_visible(&self, position: (Binary32, Binary32), reach: Binary32) -> (visible: bool)
        ensures
            visible == self.shows(position, reach),
    {
        let (x, y) = position;
        !(x.less(reach.negated()) || (self.width + reach).less(x) || y.less(reach.negated()) || (
        self.height + reach).less(y))
    }
}

/// Zero and one, in order.
proof fn lemma_limits()
    ensures
        Binary32::from_bits(ZERO).at_most(Binary32::from_bits(ONE)),
        Binary32::from_bits(BODY_RADIUS_MIN).at_most(Binary32::from_bits(BODY_RADIUS_MAX)),
        Binary32::from_bits(TRAIL_MIN_WIDTH_PIXELS).at_most(
            Binary32::from_bits(TRAIL_MAX_WIDTH_PIXELS),
        ),
{
    binary32::law_bits_order_numbers(Binary32::from_bits(ZERO), Binary32::from_bits(ONE));
    binary32::law_bits_order_numbers(
        Binary32::from_bits(BODY_RADIUS_MIN),
        Binary32::from_bits(BODY_RADIUS_MAX),
    );
    binary32::law_bits_order_numbers(
        Binary32::from_bits(TRAIL_MIN_WIDTH_PIXELS),
        Binary32::from_bits(TRAIL_MAX_WIDTH_PIXELS),
    );
}

/// A number, no less than zero and no more than one.
pub open spec fn unit_clamped(amount: Binary32) -> Binary32 {
    amount.clamp(Binary32::from_bits(ZERO), Binary32::from_bits(ONE))
}

/// A number, no less than zero and no more than one.
fn clamp_to_unit(amount: Binary32) -> (clamped: Binary32)
    ensures
        clamped == unit_clamped(amount),
{
    proof {
        lemma_limits();
    }
    amount.clamp(Binary32::from_bits(ZERO), Binary32::from_bits(ONE))
}

/// A part of the way from one number to another.
#[verifier::allow_in_spec]
pub fn between(from: Binary32, to: Binary32, amount: Binary32) -> Binary32
    returns
        from + (to - from) * amount,
{
    from + (to - from) * amount
}

/// A color some part of the way from one to another.
pub open spec fn mixed(from: Color, to: Color, amount: Binary32) -> Color {
    Color {
        r: between(from.r, to.r, unit_clamped(amount)),
        g: between(from.g, to.g, unit_clamped(amount)),
        b: between(from.b, to.b, unit_clamped(amount)),
        a: between(from.a, to.a, unit_clamped(amount)),
    }
}

/// A color some part of the way from one to another.
pub fn mix_color(from: Color, to: Color, amount: Binary32) -> (color: Color)
    ensures
        color == mixed(from, to, amount),
{
    let amount = clamp_to_unit(amount);
    Color {
        r: between(from.r, to.r, amount),
        g: between(from.g, to.g, amount),
        b: between(from.b, to.b, amount),
        a: between(from.a, to.a, amount),
    }
}

/// How far a body with a fraction of the total mass has turned yellow: a smooth step from the
/// start of the transition to its end.
pub open spec fn transition(mass_fraction: Binary32) -> Binary32 {
    let start = Binary32::from_bits(YELLOW_TRANSITION_START_MASS_FRACTION);
    let range = Binary32::from_bits(CENTRAL_BODY_APPEARANCE_MASS_FRACTION) - start;
    let progress = unit_clamped((mass_fraction - start) / range);
    progress * progress * (Binary32::from_bits(THREE) - Binary32::from_bits(TWO) * progress)
}

/// How far a body with a fraction of the total mass has turned yellow: from nothing to fully.
pub fn dominant_body_transition(mass_fraction: Binary32) -> (turned: Binary32)
    ensures
        turned == transition(mass_fraction),
        !mass_fraction.is_nan() ==> Binary32::from_bits(ZERO).at_most(turned) && turned.at_most(
            Binary32::from_bits(ONE),
        ),
{
    proof {
        if !mass_fraction.is_nan() {
            transition_range::law_transitions_are_fractions(mass_fraction);
        }
    }
    let start = Binary32::from_bits(YELLOW_TRANSITION_START_MASS_FRACTION);
    let transition_range = Binary32::from_bits(CENTRAL_BODY_APPEARANCE_MASS_FRACTION) - start;
    let linear_progress = clamp_to_unit((mass_fraction - start) / transition_range);
    linear_progress * linear_progress * (Binary32::from_bits(THREE) - Binary32::from_bits(TWO)
        * linear_progress)
}

/// The color of a body that has not turned.
pub open spec fn normal_color(body: Body) -> Color {
    let one = Binary32::from_bits(ONE);
    let mass_brightness = unit_clamped((body.mass / Binary32::from_bits(MAX_PARTICLE_MASS)).root());
    Color {
        r: (body.brightness * Binary32::from_bits(POINT_65) + mass_brightness * Binary32::from_bits(
            POINT_25,
        )).min(one),
        g: (body.brightness * Binary32::from_bits(POINT_75) + mass_brightness * Binary32::from_bits(
            POINT_20,
        )).min(one),
        b: body.brightness.min(one),
        a: Binary32::from_bits(0x3F73_3333),
    }
}

/// The color of a body that has fully turned: (1, 0.72, 0.15, 1).
#[verifier::allow_in_spec]
pub fn central_body_color() -> Color
    returns
        color(ONE, 0x3F38_51EC, 0x3E19_999A, ONE),
{
    color(ONE, 0x3F38_51EC, 0x3E19_999A, ONE)
}

/// The circles that show a body: two layers of glow, the body and a highlight; the body alone if
/// it has not begun to turn; nothing if it cannot be seen.
pub open spec fn body_circles(body: Body, total: Binary32, screen: Screen) -> Seq<Circle> {
    let position = screen.position(body.x, body.y);
    let (x, y) = position;
    let radius = (particle_radius(body.mass) * screen.zoom).clamp(
        Binary32::from_bits(BODY_RADIUS_MIN),
        Binary32::from_bits(BODY_RADIUS_MAX),
    );
    let turned = transition(body.mass / total);
    let reach = radius * (Binary32::from_bits(ONE) + Binary32::from_bits(GLOW_REACH) * turned);
    let shift = radius * Binary32::from_bits(POINT_25);
    let disk = Circle {
        x,
        y,
        radius,
        color: mixed(normal_color(body), central_body_color(), turned),
    };
    if !screen.shows(position, reach) {
        Seq::empty()
    } else if Binary32::from_bits(ZERO).less(turned) {
        seq![
            Circle {
                x,
                y,
                radius: radius * Binary32::from_bits(OUTER_GLOW),
                color: Color {
                    a: Binary32::from_bits(0x3D0F_5C29) * turned,
                    ..color(ONE, POINT_45, POINT_05, ZERO)
                },
            },
            Circle {
                x,
                y,
                radius: radius * Binary32::from_bits(INNER_GLOW),
                color: Color {
                    a: Binary32::from_bits(0x3DA3_D70A) * turned,
                    ..color(ONE, POINT_55, 0x3DA3_D70A, ZERO)
                },
            },
            disk,
            Circle {
                x: x - shift,
                y: y - shift,
                radius: radius * Binary32::from_bits(POINT_55),
                color: Color {
                    a: Binary32::from_bits(POINT_80) * turned,
                    ..color(ONE, 0x3F6B_851F, POINT_55, ZERO)
                },
            },
        ]
    } else {
        seq![disk]
    }
}

/// Adds the circles that show a body.
fn draw_body(circles: &mut Vec<Circle>, body: Body, total: Binary32, screen: Screen)
    ensures
        final(circles)@ == old(circles)@ + body_circles(body, total, screen),
{
    proof {
        lemma_limits();
    }
    let one = Binary32::from_bits(ONE);
    let position = screen.place(body.x, body.y);
    let (x, y) = position;
    let radius = (particle_radius(body.mass) * screen.zoom).clamp(
        Binary32::from_bits(BODY_RADIUS_MIN),
        Binary32::from_bits(BODY_RADIUS_MAX),
    );
    let turned = dominant_body_transition(body.mass / total);
    let reach = radius * (one + Binary32::from_bits(GLOW_REACH) * turned);
    if !screen.is_visible(position, reach) {
        assert(circles@ == circles@ + Seq::<Circle>::empty());
        return;
    }
    let mass_brightness = clamp_to_unit(
        (body.mass / Binary32::from_bits(MAX_PARTICLE_MASS)).sqrt(),
    );
    let normal = Color {
        r: (body.brightness * Binary32::from_bits(POINT_65) + mass_brightness * Binary32::from_bits(
            POINT_25,
        )).min(one),
        g: (body.brightness * Binary32::from_bits(POINT_75) + mass_brightness * Binary32::from_bits(
            POINT_20,
        )).min(one),
        b: body.brightness.min(one),
        a: Binary32::from_bits(0x3F73_3333),
    };
    let body_color = mix_color(normal, central_body_color(), turned);
    let turning = Binary32::from_bits(ZERO).less(turned);
    let ghost before = circles@;
    if turning {
        circles.push(
            Circle {
                x,
                y,
                radius: radius * Binary32::from_bits(OUTER_GLOW),
                color: Color {
                    a: Binary32::from_bits(0x3D0F_5C29) * turned,
                    ..color(ONE, POINT_45, POINT_05, ZERO)
                },
            },
        );
        circles.push(
            Circle {
                x,
                y,
                radius: radius * Binary32::from_bits(INNER_GLOW),
                color: Color {
                    a: Binary32::from_bits(0x3DA3_D70A) * turned,
                    ..color(ONE, POINT_55, 0x3DA3_D70A, ZERO)
                },
            },
        );
    }
    circles.push(Circle { x, y, radius, color: body_color });
    if turning {
        let shift = radius * Binary32::from_bits(POINT_25);
        circles.push(
            Circle {
                x: x - shift,
                y: y - shift,
                radius: radius * Binary32::from_bits(POINT_55),
                color: Color {
                    a: Binary32::from_bits(POINT_80) * turned,
                    ..color(ONE, 0x3F6B_851F, POINT_55, ZERO)
                },
            },
        );
    }
    assert(circles@ == before + body_circles(body, total, screen));
}

/// The total mass that fractions are taken of.
pub open spec fn whole_mass(particles: Seq<Body>) -> Binary32 {
    bodies::mass_of(particles).max(Binary32::from_bits(EPSILON))
}

/// The circles that show the first bodies.
pub open spec fn first_bodies_drawn(particles: Seq<Body>, screen: Screen, upto: int) -> Seq<Circle>
    decreases upto,
{
    if upto <= 0 {
        Seq::empty()
    } else {
        first_bodies_drawn(particles, screen, upto - 1) + body_circles(
            particles[upto - 1],
            whole_mass(particles),
            screen,
        )
    }
}

/// The circles that show all bodies, in order.
pub fn draw_particles(particles: &[Body], screen: Screen) -> (circles: Vec<Circle>)
    ensures
        circles@ == first_bodies_drawn(particles@, screen, particles@.len() as int),
{
    let total = total_mass(particles).max(Binary32::from_bits(EPSILON));
    let mut circles: Vec<Circle> = Vec::new();
    let mut i: usize = 0;
    while i < particles.len()
        invariant
            i <= particles.len(),
            total == whole_mass(particles@),
            circles@ == first_bodies_drawn(particles@, screen, i as int),
        decreases particles.len() - i,
    {
        draw_body(&mut circles, particles[i], total, screen);
        i = i + 1;
    }
    circles
}

/// A trail point on the screen. Its opacity is [`trail_alpha`] of one half raised to the power of
/// its age in half lives.
#[derive(Clone, Copy, Debug, PartialEq)]
pub struct TrailDot {
    pub x: Binary32,
    pub y: Binary32,
    pub radius: Binary32,
    pub r: Binary32,
    pub g: Binary32,
    pub b: Binary32,
    pub half_lives: Binary32,
}

/// The radius at which a trail point is shown.
pub open spec fn trail_radius(point: TrailPoint, zoom: Binary32) -> Binary32 {
    (point.radius * zoom * Binary32::from_bits(TWO) * Binary32::from_bits(TRAIL_WIDTH_SCALE)).clamp(
        Binary32::from_bits(TRAIL_MIN_WIDTH_PIXELS),
        Binary32::from_bits(TRAIL_MAX_WIDTH_PIXELS),
    ) * Binary32::from_bits(HALF)
}

/// The dot that shows a trail point, if it can be seen.
pub open spec fn trail_dot(point: TrailPoint, screen: Screen, now: Binary32) -> Option<TrailDot> {
    let position = screen.position(point.x, point.y);
    let radius = trail_radius(point, screen.zoom);
    let brightness = point.brightness.min(Binary32::from_bits(ONE));
    if screen.shows(position, radius) {
        Some(
            TrailDot {
                x: position.0,
                y: position.1,
                radius,
                r: brightness * Binary32::from_bits(POINT_60),
                g: brightness * Binary32::from_bits(POINT_75),
                b: brightness,
                half_lives: (now - point.creation_time) / Binary32::from_bits(TRAIL_HALF_LIFE),
            },
        )
    } else {
        None
    }
}

/// The dots that show the first trail points.
pub open spec fn first_dots(trails: Seq<TrailPoint>, screen: Screen, now: Binary32, upto: int) -> Seq<
    TrailDot,
>
    decreases upto,
{
    if upto <= 0 {
        Seq::empty()
    } else {
        let before = first_dots(trails, screen, now, upto - 1);
        match trail_dot(trails[upto - 1], screen, now) {
            Some(dot) => before.push(dot),
            None => before,
        }
    }
}

/// The dots that show the trails, oldest first.
pub fn draw_trails(trails: &VecDeque<TrailPoint>, screen: Screen, trail_clock: Binary32) -> (dots:
    Vec<TrailDot>)
    ensures
        dots@ == first_dots(trails@, screen, trail_clock, trails@.len() as int),
{
    proof {
        lemma_limits();
    }
    let mut dots: Vec<TrailDot> = Vec::new();
    let mut i: usize = 0;
    while i < trails.len()
        invariant
            i <= trails@.len(),
            Binary32::from_bits(TRAIL_MIN_WIDTH_PIXELS).at_most(
                Binary32::from_bits(TRAIL_MAX_WIDTH_PIXELS),
            ),
            dots@ == first_dots(trails@, screen, trail_clock, i as int),
        decreases trails@.len() - i,
    {
        let point = trails[i];
        let position = screen.place(point.x, point.y);
        let raw_width = point.radius * screen.zoom * Binary32::from_bits(TWO) * Binary32::from_bits(
            TRAIL_WIDTH_SCALE,
        );
        let width = raw_width.clamp(
            Binary32::from_bits(TRAIL_MIN_WIDTH_PIXELS),
            Binary32::from_bits(TRAIL_MAX_WIDTH_PIXELS),
        );
        let radius = width * Binary32::from_bits(HALF);
        if screen.is_visible(position, radius) {
            let brightness = point.brightness.min(Binary32::from_bits(ONE));
            dots.push(
                TrailDot {
                    x: position.0,
                    y: position.1,
                    radius,
                    r: brightness * Binary32::from_bits(POINT_60),
                    g: brightness * Binary32::from_bits(POINT_75),
                    b: brightness,
                    half_lives: (trail_clock - point.creation_time) / Binary32::from_bits(
                        TRAIL_HALF_LIFE,
                    ),
                },
            );
        }
        i = i + 1;
    }
    dots
}

/// The opacity of a trail point that has faded to a fraction.
#[verifier::allow_in_spec]
pub fn trail_alpha(fade: Binary32) -> Binary32
    returns
        Binary32::from_bits(TRAIL_INITIAL_ALPHA) * fade,
{
    Binary32::from_bits(TRAIL_INITIAL_ALPHA) * fade
}

/// The dot that shows a particle of a compute device, if it lives and lies on the screen or in
/// the border around it.
pub open spec fn snapshot_dot(particle: Particle, screen: Screen) -> Option<Circle> {
    let position = screen.position(particle.x, particle.y);
    if particle.alive != 0 && screen.shows(position, Binary32::from_bits(DOT_MARGIN)) {
        Some(
            Circle {
                x: position.0,
                y: position.1,
                radius: (particle.mass.root() * Binary32::from_bits(PARTICLE_RADIUS_SCALE)
                    * screen.zoom).max(Binary32::from_bits(ONE)),
                color: Color {
                    r: particle.brightness,
                    g: particle.brightness * Binary32::from_bits(POINT_80),
                    b: Binary32::from_bits(ONE),
                    a: Binary32::from_bits(ONE),
                },
            },
        )
    } else {
        None
    }
}

/// The dots that show the first particles.
pub open spec fn first_snapshot_dots(particles: Seq<Particle>, screen: Screen, upto: int) -> Seq<
    Circle,
>
    decreases upto,
{
    if upto <= 0 {
        Seq::empty()
    } else {
        let before = first_snapshot_dots(particles, screen, upto - 1);
        match snapshot_dot(particles[upto - 1], screen) {
            Some(dot) => before.push(dot),
            None => before,
        }
    }
}

/// Adds the dots that show the particles of a compute device, in order.
fn draw_dots(circles: &mut Vec<Circle>, particles: &[Particle], screen: Screen)
    ensures
        final(circles)@ == old(circles)@ + first_snapshot_dots(
            particles@,
            screen,
            particles@.len() as int,
        ),
{
    let ghost before = circles@;
    let mut i: usize = 0;
    while i < particles.len()
        invariant
            i <= particles.len(),
            circles@ == before + first_snapshot_dots(particles@, screen, i as int),
        decreases particles.len() - i,
    {
        let particle = particles[i];
        let position = screen.place(particle.x, particle.y);
        if particle.alive != 0 && screen.is_visible(position, Binary32::from_bits(DOT_MARGIN)) {
            let radius = (particle.mass.sqrt() * Binary32::from_bits(PARTICLE_RADIUS_SCALE)
                * screen.zoom).max(Binary32::from_bits(ONE));
            circles.push(
                Circle {
                    x: position.0,
                    y: position.1,
                    radius,
                    color: Color {
                        r: particle.brightness,
                        g: particle.brightness * Binary32::from_bits(POINT_80),
                        b: Binary32::from_bits(ONE),
                        a: Binary32::from_bits(ONE),
                    },
                },
            );
        }
        i = i + 1;
        assert(circles@ == before + first_snapshot_dots(particles@, screen, i as int));
    }
}

/// The circles that show the particles of a compute device: a dot for each that lives, and over
/// them the glow of those that have begun to turn.
pub open spec fn snapshot_circles(particles: Seq<Particle>, screen: Screen) -> Seq<Circle> {
    let live = bodies::first_live_bodies(particles, particles.len() as int);
    first_snapshot_dots(particles, screen, particles.len() as int) + first_turning_drawn(
        live,
        screen,
        live.len() as int,
    )
}

/// The circles that show the particles of a compute device: the dots, then the glow.
pub fn draw_snapshot(particles: &[Particle], screen: Screen) -> (circles: Vec<Circle>)
    ensures
        circles@ == snapshot_circles(particles@, screen),
{
    let mut circles: Vec<Circle> = Vec::new();
    draw_dots(&mut circles, particles, screen);
    let live = live_bodies(particles);
    let mut glow = draw_dominant_bodies(live.as_slice(), screen);
    circles.append(&mut glow);
    circles
}

/// Whether a body has begun to turn.
pub open spec fn is_turning(body: Body, total: Binary32) -> bool {
    Binary32::from_bits(ZERO).less(transition(body.mass / total))
}

/// The circles that show those of the first bodies that have begun to turn.
pub open spec fn first_turning_drawn(particles: Seq<Body>, screen: Screen, upto: int) -> Seq<Circle>
    decreases upto,
{
    if upto <= 0 {
        Seq::empty()
    } else {
        let before = first_turning_drawn(particles, screen, upto - 1);
        let body = particles[upto - 1];
        if is_turning(body, whole_mass(particles)) {
            before + body_circles(body, whole_mass(particles), screen)
        } else {
            before
        }
    }
}

/// The circles that show the bodies that have begun to turn, in order.
pub fn draw_dominant_bodies(particles: &[Body], screen: Screen) -> (circles: Vec<Circle>)
    ensures
        circles@ == first_turning_drawn(particles@, screen, particles@.len() as int),
{
    let total = total_mass(particles).max(Binary32::from_bits(EPSILON));
    let mut circles: Vec<Circle> = Vec::new();
    let mut i: usize = 0;
    while i < particles.len()
        invariant
            i <= particles.len(),
            total == whole_mass(particles@),
            circles@ == first_turning_drawn(particles@, screen, i as int),
        decreases particles.len() - i,
    {
        let body = particles[i];
        if Binary32::from_bits(ZERO).less(dominant_body_transition(body.mass / total)) {
            draw_body(&mut circles, body, total, screen);
        }
        i = i + 1;
    }
    circles
}

/// How far around its place a body reaches on the screen, with its glow.
pub open spec fn glow_reach(body: Body, total: Binary32, screen: Screen) -> Binary32 {
    let radius = (particle_radius(body.mass) * screen.zoom).clamp(
        Binary32::from_bits(BODY_RADIUS_MIN),
        Binary32::from_bits(BODY_RADIUS_MAX),
    );
    radius * (Binary32::from_bits(ONE) + Binary32::from_bits(GLOW_REACH) * transition(
        body.mass / total,
    ))
}

/// What the turning bodies up to a position show is part of what all of them show.
proof fn lemma_turning_is_drawn(particles: Seq<Body>, screen: Screen, position: int, upto: int)
    requires
        0 <= position < upto <= particles.len(),
        is_turning(particles[position], whole_mass(particles)),
    ensures
        ({
            let start = first_turning_drawn(particles, screen, position).len() as int;
            let circles = body_circles(particles[position], whole_mass(particles), screen);
            let drawn = first_turning_drawn(particles, screen, upto);
            &&& start + circles.len() <= drawn.len()
            &&& drawn.subrange(start, start + circles.len()) == circles
        }),
    decreases upto,
{
    let start = first_turning_drawn(particles, screen, position).len() as int;
    let circles = body_circles(particles[position], whole_mass(particles), screen);
    let before = first_turning_drawn(particles, screen, upto - 1);
    let drawn = first_turning_drawn(particles, screen, upto);
    if position < upto - 1 {
        lemma_turning_is_drawn(particles, screen, position, upto - 1);
        assert(drawn.subrange(start, start + circles.len()) == before.subrange(
            start,
            start + circles.len(),
        ));
    } else {
        assert(drawn.subrange(start, start + circles.len()) == circles);
    }
}

/// A live particle is one of the live bodies.
proof fn lemma_live_particle_is_a_body(particles: Seq<Particle>, position: int, upto: int) -> (place:
    int)
    requires
        0 <= position < upto <= particles.len(),
        particles[position].alive != 0,
    ensures
        0 <= place < bodies::first_live_bodies(particles, upto).len(),
        bodies::first_live_bodies(particles, upto)[place] == particles[position].body(),
    decreases upto,
{
    if position == upto - 1 {
        bodies::first_live_bodies(particles, upto).len() - 1
    } else {
        lemma_live_particle_is_a_body(particles, position, upto - 1)
    }
}

/// A live particle that holds so much of the mass that it has fully turned, as one with half of
/// it has, is shown by four circles more than its dot wherever its glow reaches the screen.
pub proof fn law_dominant_particles_glow(particles: Seq<Particle>, screen: Screen, position: int)
    requires
        0 <= position < particles.len(),
        particles[position].alive != 0,
        ({
            let live = bodies::first_live_bodies(particles, particles.len() as int);
            let body = particles[position].body();
            let fraction = body.mass / whole_mass(live);
            &&& fraction.is_finite()
            &&& Binary32::from_bits(CENTRAL_BODY_APPEARANCE_MASS_FRACTION).at_most(fraction)
            &&& screen.shows(
                screen.position(body.x, body.y),
                glow_reach(body, whole_mass(live), screen),
            )
        }),
    ensures
        ({
            let live = bodies::first_live_bodies(particles, particles.len() as int);
            let glow = body_circles(particles[position].body(), whole_mass(live), screen);
            let drawn = snapshot_circles(particles, screen);
            &&& glow.len() == 4
            &&& exists|start: int|
                first_snapshot_dots(particles, screen, particles.len() as int).len() <= start
                    && start + 4 <= drawn.len() && #[trigger] drawn.subrange(start, start + 4)
                    == glow
        }),
{
    let live = bodies::first_live_bodies(particles, particles.len() as int);
    let body = particles[position].body();
    let glow = body_circles(body, whole_mass(live), screen);
    let dots = first_snapshot_dots(particles, screen, particles.len() as int);
    let turning = first_turning_drawn(live, screen, live.len() as int);
    let drawn = snapshot_circles(particles, screen);
    let place = lemma_live_particle_is_a_body(particles, position, particles.len() as int);
    law_heavy_bodies_have_fully_turned(body.mass / whole_mass(live));
    binary32::law_bits_order_numbers(Binary32::from_bits(ZERO), Binary32::from_bits(ONE));
    lemma_turning_is_drawn(live, screen, place, live.len() as int);
    let start = first_turning_drawn(live, screen, place).len() as int;
    assert(drawn.subrange(dots.len() + start, dots.len() + start + 4) == turning.subrange(
        start,
        start + 4,
    ));
}

/// The length of the transition, as a number.
pub(crate) proof fn lemma_transition_range()
    ensures
        ({
            let start = Binary32::from_bits(YELLOW_TRANSITION_START_MASS_FRACTION);
            let complete = Binary32::from_bits(CENTRAL_BODY_APPEARANCE_MASS_FRACTION);
            &&& complete - start == Binary32::from_bits(0x3E4C_CCCC)
            &&& (start - start).magnitude() == 0
        }),
{
    reveal(Binary32::spec_sub);
    let start = Binary32::from_bits(YELLOW_TRANSITION_START_MASS_FRACTION);
    let complete = Binary32::from_bits(CENTRAL_BODY_APPEARANCE_MASS_FRACTION);
    let range = Binary32::from_bits(0x3E4C_CCCC);
    let w = pow2(123);
    lemma2_to64();
    lemma_pow2_adds(123, 1);
    assert(start.units() == 0x80_0000 * (w * 2));
    assert(complete.units() == 0xE6_6666 * (w * 2));
    assert(range.units() == 0xCC_CCCC * w);
    assert(complete.value() + start.opposite().value() == range.value()) by {
        assert(start.opposite().magnitude() == start.magnitude());
    }
    binary32::law_representable_sums_are_exact(complete, start.opposite(), range);
    assert((start - start).magnitude() == 0) by {
        reveal(Binary32::spec_add);
        binary32::lemma_signed(false, 0);
    }
}

/// A body whose fraction of the total mass is no more than the start of the transition has not
/// turned at all.
pub proof fn law_light_bodies_have_not_turned(mass_fraction: Binary32)
    requires
        mass_fraction.is_finite(),
        mass_fraction.at_most(Binary32::from_bits(YELLOW_TRANSITION_START_MASS_FRACTION)),
    ensures
        transition(mass_fraction).same(Binary32::from_bits(ZERO)),
{
    let zero = Binary32::from_bits(ZERO);
    let start = Binary32::from_bits(YELLOW_TRANSITION_START_MASS_FRACTION);
    let range = Binary32::from_bits(0x3E4C_CCCC);
    lemma_transition_range();
    lemma_limits();
    assert(magnitude::units(0) == 0 * pow2(0));
    let passed = mass_fraction - start;
    assert(passed.at_most(start - start)) by {
        reveal(Binary32::spec_sub);
        binary32::law_addition_commutes(mass_fraction, start.opposite());
        binary32::law_addition_commutes(start, start.opposite());
        binary32::law_addition_keeps_order(start.opposite(), mass_fraction, start);
    }
    magnitude::lemma_units_order(0, passed.magnitude() as nat);
    let quotient = passed / range;
    if passed.is_finite() {
        binary32::law_quotient_keeps_the_sign(passed, range);
    } else {
        reveal(Binary32::spec_euclidean_or_real_div);
        binary32::lemma_signed(true, magnitude::INFINITY as nat);
    }
    magnitude::lemma_units_order(0, quotient.magnitude() as nat);
    let progress = unit_clamped(quotient);
    assert(progress.magnitude() == 0);
    let (two, three) = (Binary32::from_bits(TWO), Binary32::from_bits(THREE));
    binary32::law_multiplying_by_zero(progress, progress);
    binary32::law_multiplying_by_zero(progress, two);
    binary32::law_multiplication_commutes(progress, two);
    let rest = three - two * progress;
    assert(rest == three) by {
        reveal(Binary32::spec_sub);
        binary32::law_adding_zero(three, (two * progress).opposite());
    }
    binary32::law_multiplying_by_zero(progress * progress, rest);
}

/// A body whose fraction of the total mass is no less than the end of the transition has turned
/// fully.
pub proof fn law_heavy_bodies_have_fully_turned(mass_fraction: Binary32)
    requires
        mass_fraction.is_finite(),
        Binary32::from_bits(CENTRAL_BODY_APPEARANCE_MASS_FRACTION).at_most(mass_fraction),
    ensures
        transition(mass_fraction) == Binary32::from_bits(ONE),
{
    let (zero, one) = (Binary32::from_bits(ZERO), Binary32::from_bits(ONE));
    let (two, three) = (Binary32::from_bits(TWO), Binary32::from_bits(THREE));
    let start = Binary32::from_bits(YELLOW_TRANSITION_START_MASS_FRACTION);
    let complete = Binary32::from_bits(CENTRAL_BODY_APPEARANCE_MASS_FRACTION);
    let range = Binary32::from_bits(0x3E4C_CCCC);
    lemma_transition_range();
    lemma_limits();
    assert(magnitude::units(0) == 0 * pow2(0));
    magnitude::lemma_units_order(0, 0x3E4C_CCCC);
    magnitude::lemma_units_order(0, YELLOW_TRANSITION_START_MASS_FRACTION as nat);
    let passed = mass_fraction - start;
    assert(range.at_most(passed) && passed.at_most(mass_fraction)) by {
        reveal(Binary32::spec_sub);
        binary32::law_addition_commutes(mass_fraction, start.opposite());
        binary32::law_addition_commutes(complete, start.opposite());
        binary32::law_addition_keeps_order(start.opposite(), complete, mass_fraction);
        binary32::law_addition_keeps_order(mass_fraction, start.opposite(), zero);
        binary32::law_adding_zero(mass_fraction, zero);
    }
    binary32::law_at_most_a_finite_number(passed, mass_fraction);
    binary32::law_quotient_is_at_least_one(passed, range);
    let quotient = passed / range;
    assert(!quotient.is_negative()) by {
        magnitude::lemma_units_order(0, ONE as nat);
    }
    binary32::law_bits_order_numbers(one, quotient);
    binary32::law_bits_order_numbers(quotient, one);
    binary32::law_bits_order_numbers(zero, quotient);
    let progress = unit_clamped(quotient);
    assert(progress == one);
    binary32::law_multiplying_by_one(one);
    binary32::law_multiplying_by_one(two);
    assert(three - two == one) by {
        reveal(Binary32::spec_sub);
        lemma2_to64();
        lemma_pow2_adds(126, 1);
        let w = pow2(126);
        assert(three.units() == 0xC0_0000 * (w * 2));
        assert(two.units() == 0x80_0000 * (w * 2));
        assert(one.units() == 0x80_0000 * w);
        assert(two.opposite().magnitude() == two.magnitude());
        assert(two.opposite().value() == -two.value());
        assert(three.value() == three.units() && two.value() == two.units());
        assert(one.value() == one.units());
        assert(three.value() + two.opposite().value() == one.value()) by (nonlinear_arith)
            requires
                three.value() == 0xC0_0000 * (w * 2),
                two.opposite().value() == -(0x80_0000 * (w * 2)),
                one.value() == 0x80_0000 * w,
        ;
        binary32::law_representable_sums_are_exact(three, two.opposite(), one);
    }
}

} // verus!
