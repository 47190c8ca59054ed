//! A step back after a step: where nothing merges, the particles of a compute device return to their
//! places and their velocities, up to rounding.

use vstd::prelude::*;
use crate::binary32;
use crate::binary32::{Binary32, HALF};
use crate::bodies::Axis;
use crate::collision::particle_radius;
use crate::displaced;
use crate::displaced::Displaced;
use crate::estimate;
use crate::merging;
use crate::merging::Merging;
use crate::reference;
use crate::reference_balance;
use crate::rounding;
use crate::rounding::{product, size, slack};
use crate::types::{Particle, SimParams};

verus! {

/// The same step, backwards in time.
pub open spec fn backwards(params: SimParams) -> SimParams {
    SimParams { dt: params.dt.opposite(), ..params }
}

/// The particles after a step and the same step back.
pub open spec fn returned(particles: Seq<Particle>, params: SimParams) -> Seq<Particle> {
    reference::stepped(reference::stepped(particles, params), backwards(params))
}

/// No particle touches another one.
pub open spec fn all_apart(particles: Seq<Particle>) -> bool {
    forall|i: int, j: int|
        0 <= i < j < particles.len() ==> !(#[trigger] particles[i]).touches(#[trigger] particles[j])
}

/// What a velocity goes through: the accelerations of the first kick, of the two in the middle and
/// of the last one, and the place and the velocity at the start.
pub struct Path {
    pub x: Binary32,
    pub v: Binary32,
    pub first: Binary32,
    pub middle: Binary32,
    pub last: Binary32,
    pub dt: Binary32,
}

impl Path {
    /// Half of the time step.
    pub open spec fn half(self) -> Binary32 {
        Binary32::from_bits(HALF) * self.dt
    }

    /// Half of the time step back.
    pub open spec fn half_back(self) -> Binary32 {
        Binary32::from_bits(HALF) * self.dt.opposite()
    }

    /// The velocity after the first kick.
    pub open spec fn v1(self) -> Binary32 {
        self.v + self.first * self.half()
    }

    /// The place after the step.
    pub open spec fn x1(self) -> Binary32 {
        self.x + self.v1() * self.dt
    }

    /// The velocity after the step.
    pub open spec fn v2(self) -> Binary32 {
        self.v1() + self.middle * self.half()
    }

    /// The velocity after the first kick back.
    pub open spec fn v3(self) -> Binary32 {
        self.v2() + self.middle * self.half_back()
    }

    /// The place after the step back.
    pub open spec fn x2(self) -> Binary32 {
        self.x1() + self.v3() * self.dt.opposite()
    }

    /// The velocity after the step back.
    pub open spec fn v4(self) -> Binary32 {
        self.v3() + self.last * self.half_back()
    }

    /// How far the velocities of the two moves can be apart.
    pub open spec fn turning_error(self) -> real {
        slack(self.v2()) + slack(self.middle * self.half()) + slack(self.v3()) + slack(
            self.middle * self.half_back(),
        )
    }

    /// How far the place after the step back can be from the one at the start.
    pub open spec fn place_error(self) -> real {
        slack(self.x1()) + slack(self.v1() * self.dt) + slack(self.x2()) + slack(
            self.v3() * self.dt.opposite(),
        ) + product(size(self.dt.number()), self.turning_error())
    }

    /// How far the velocity after the step back can be from the one at the start, beside what the
    /// first and the last acceleration differ by.
    pub open spec fn velocity_error(self) -> real {
        slack(self.v1()) + slack(self.first * self.half()) + self.turning_error() + slack(
            self.v4(),
        ) + slack(self.last * self.half_back())
    }
}

/// What a number changes by where a product is added to it.
proof fn lemma_change(from: Binary32, by: Binary32, time: Binary32)
    requires
        (from + by * time).is_finite(),
    ensures
        from.is_finite(),
        by.is_finite(),
        time.is_finite(),
        size(
            (from + by * time).number() - (from.number() + product(by.number(), time.number())),
        ) <= slack(from + by * time) + slack(by * time),
{
    rounding::law_sums_are_near(from, by * time);
    estimate::lemma_products_are_near(by, time);
}

/// Two opposite kicks.
proof fn lemma_turn(v1: real, v2: real, v3: real, m: real, h: real, e: real, f: real)
    requires
        size(v2 - (v1 + product(m, h))) <= e,
        size(v3 - (v2 + product(m, -h))) <= f,
    ensures
        size(v3 - v1) <= e + f,
{
    estimate::lemma_products_of_three(m, h, h);
}

/// Two opposite moves, at velocities that are near one another.
proof fn lemma_places(
    x: real,
    x1: real,
    x2: real,
    v1: real,
    v3: real,
    t: real,
    e: real,
    f: real,
    turn: real,
)
    requires
        size(x1 - (x + product(v1, t))) <= e,
        size(x2 - (x1 + product(v3, -t))) <= f,
        size(v3 - v1) <= turn,
    ensures
        size(x2 - x) <= e + f + product(size(t), turn),
{
    estimate::lemma_products_of_three(v3, t, t);
    estimate::lemma_products_of_three(v1, t, t);
    estimate::lemma_product_of_near(t, v3, v1, turn);
}

/// The first kick and the last one back.
proof fn lemma_velocities(
    v: real,
    v1: real,
    v3: real,
    v4: real,
    a: real,
    b: real,
    h: real,
    e: real,
    f: real,
    turn: real,
)
    requires
        size(v1 - (v + product(a, h))) <= e,
        size(v4 - (v3 + product(b, -h))) <= f,
        size(v3 - v1) <= turn,
    ensures
        size(v4 - v) <= e + f + turn + product(size(h), size(a - b)),
{
    estimate::lemma_products_of_three(a, h, h);
    estimate::lemma_products_of_three(b, h, h);
    estimate::lemma_product_of_near(h, a, b, size(a - b));
}

/// The half steps there and back are opposite.
proof fn lemma_opposite_halves(path: Path)
    requires
        path.half().is_finite(),
    ensures
        path.half_back().number() == -path.half().number(),
        path.dt.opposite().number() == -path.dt.number(),
{
    rounding::law_products_are_near(Binary32::from_bits(HALF), path.dt);
    binary32::lemma_opposite(path.dt);
    binary32::law_products_with_opposites(Binary32::from_bits(HALF), path.dt);
    estimate::lemma_opposite_numbers(path.half_back(), path.half());
    estimate::lemma_opposite_numbers(path.dt.opposite(), path.dt);
}

/// The velocities of the two moves are near one another.
proof fn lemma_turning(path: Path)
    requires
        path.v3().is_finite(),
    ensures
        path.half().is_finite(),
        path.v1().is_finite(),
        size(path.v3().number() - path.v1().number()) <= path.turning_error(),
{
    let (h, b) = (path.half(), path.half_back());
    lemma_change(path.v2(), path.middle, b);
    lemma_change(path.v1(), path.middle, h);
    lemma_opposite_halves(path);
    lemma_turn(
        path.v1().number(),
        path.v2().number(),
        path.v3().number(),
        path.middle.number(),
        h.number(),
        slack(path.v2()) + slack(path.middle * h),
        slack(path.v3()) + slack(path.middle * b),
    );
}

/// The way back leads to the place where the way there began.
proof fn lemma_place(path: Path)
    requires
        path.x2().is_finite(),
    ensures
        size(path.x2().number() - path.x.number()) <= path.place_error(),
{
    let back = path.dt.opposite();
    lemma_change(path.x1(), path.v3(), back);
    lemma_turning(path);
    lemma_change(path.x, path.v1(), path.dt);
    lemma_opposite_halves(path);
    lemma_places(
        path.x.number(),
        path.x1().number(),
        path.x2().number(),
        path.v1().number(),
        path.v3().number(),
        path.dt.number(),
        slack(path.x1()) + slack(path.v1() * path.dt),
        slack(path.x2()) + slack(path.v3() * back),
        path.turning_error(),
    );
}

/// The way back ends at the velocity with which the way there began, but for what the first and
/// the last acceleration differ by.
proof fn lemma_velocity(path: Path)
    requires
        path.v4().is_finite(),
    ensures
        path.first.is_finite(),
        path.last.is_finite(),
        size(path.v4().number() - path.v.number()) <= path.velocity_error() + product(
            size(path.half().number()),
            size(path.first.number() - path.last.number()),
        ),
{
    let (h, b) = (path.half(), path.half_back());
    lemma_change(path.v3(), path.last, b);
    lemma_turning(path);
    lemma_change(path.v, path.first, h);
    lemma_opposite_halves(path);
    lemma_velocities(
        path.v.number(),
        path.v1().number(),
        path.v3().number(),
        path.v4().number(),
        path.first.number(),
        path.last.number(),
        h.number(),
        slack(path.v1()) + slack(path.first * h),
        slack(path.v4()) + slack(path.last * b),
        path.turning_error(),
    );
}

/// Accelerations depend on places, masses and lives alone.
proof fn lemma_same_accelerations(
    a: Seq<Particle>,
    b: Seq<Particle>,
    target: int,
    upto: int,
    params: SimParams,
    others: SimParams,
)
    requires
        a.len() == b.len(),
        0 <= target < a.len(),
        upto <= a.len(),
        forall|i: int|
            0 <= i < a.len() ==> (#[trigger] a[i]).x == b[i].x && a[i].y == b[i].y && a[i].mass
                == b[i].mass && a[i].alive == b[i].alive,
        others == (SimParams { dt: others.dt, ..params }),
    ensures
        reference::pull_of_first(a, target, upto, params) == reference::pull_of_first(
            b,
            target,
            upto,
            others,
        ),
    decreases upto,
{
    if upto > 0 {
        lemma_same_accelerations(a, b, target, upto - 1, params, others);
        assert(a[upto - 1].x == b[upto - 1].x);
        assert(a[target].x == b[target].x);
    }
}

/// The path of a particle along an axis.
pub open spec fn path_of(
    particles: Seq<Particle>,
    target: int,
    params: SimParams,
    axis: Axis,
) -> Path {
    let there = reference::drifted(particles, params);
    let after = reference::stepped(particles, params);
    let back = reference::drifted(after, backwards(params));
    Path {
        x: particles[target].along(axis.place()),
        v: particles[target].along(axis.velocity()),
        first: axis.of(reference::acceleration(particles, target, params)),
        middle: axis.of(reference::acceleration(there, target, params)),
        last: axis.of(reference::acceleration(back, target, backwards(params))),
        dt: params.dt,
    }
}

/// A step in which nothing merges.
proof fn lemma_step_apart(particles: Seq<Particle>, params: SimParams)
    requires
        reference_balance::all_take_part(particles, params),
        all_apart(reference::drifted(particles, params)),
    ensures
        ({
            let there = reference::drifted(particles, params);
            let after = reference::stepped(particles, params);
            &&& after.len() == there.len() == particles.len()
            &&& reference_balance::all_take_part(there, params)
            &&& reference_balance::all_take_part(after, params)
            &&& forall|i: int|
                0 <= i < after.len() ==> (#[trigger] there[i]) == particles[i].kicked(
                    reference::acceleration(particles, i, params),
                    params.dt,
                ).moved(params.dt)
            &&& forall|i: int|
                0 <= i < after.len() ==> (#[trigger] after[i]) == there[i].kicked(
                    reference::acceleration(there, i, params),
                    params.dt,
                )
        }),
{
    let there = reference::drifted(particles, params);
    reference_balance::lemma_all_drift(particles, params);
    merging::law_things_apart_stay(there, 0);
    let rest = SimParams { count: there.len() as u32, ..params };
    assert(rest == params);
    assert forall|i: int| 0 <= i < there.len() implies (#[trigger] there[i]) == particles[i].kicked(
        reference::acceleration(particles, i, params),
        params.dt,
    ).moved(params.dt) by {
        assert(particles[i].alive != 0);
    }
}

/// The particles before the last kick of the way back.
pub open spec fn back_there(particles: Seq<Particle>, params: SimParams) -> Seq<Particle> {
    reference::drifted(reference::stepped(particles, params), backwards(params))
}

/// How far each particle can be from where it was, along each axis.
pub open spec fn place_errors(particles: Seq<Particle>, params: SimParams) -> spec_fn(
    int,
    Axis,
) -> real {
    |i: int, axis: Axis| path_of(particles, i, params, axis).place_error()
}

/// Two particles, and the two on the way back.
pub open spec fn pair_at(particles: Seq<Particle>, params: SimParams, i: int, j: int) -> Displaced {
    displaced::pair_of(
        particles,
        back_there(particles, params),
        i,
        j,
        place_errors(particles, params),
    )
}

/// Two particles are farther apart than they reach by more than rounding can make of their places
/// on the way back.
pub open spec fn is_clear(particles: Seq<Particle>, params: SimParams, i: int, j: int) -> bool {
    let reach = particle_radius(particles[i].mass) + particle_radius(particles[j].mass);
    particles[i].distance_squared(particles[j]).number() > (reach * reach).number() + pair_at(
        particles,
        params,
        i,
        j,
    ).distance_gap()
}

/// Neither of the places of two particles, there and back, overflows a distance.
pub open spec fn is_in_range(particles: Seq<Particle>, params: SimParams, i: int, j: int) -> bool {
    let back = back_there(particles, params);
    &&& particles[i].softened_squared(particles[j], params).is_finite()
    &&& back[i].softened_squared(back[j], params).is_finite()
}

/// Where the way back leads, whether or not something merges at its end.
proof fn lemma_back(particles: Seq<Particle>, params: SimParams, target: int, axis: Axis)
    requires
        reference_balance::all_take_part(particles, params),
        all_apart(reference::drifted(particles, params)),
        0 <= target < particles.len(),
    ensures
        ({
            let path = path_of(particles, target, params, axis);
            let back = back_there(particles, params);
            &&& back.len() == particles.len()
            &&& back[target].along(axis.place()) == path.x2()
            &&& back[target].along(axis.velocity()) == path.v3()
            &&& back[target].mass == particles[target].mass
            &&& back[target].brightness == particles[target].brightness
            &&& back[target].alive == particles[target].alive
            &&& back[target].alive != 0
        }),
{
    let there = reference::drifted(particles, params);
    let after = reference::stepped(particles, params);
    let back = back_there(particles, params);
    lemma_step_apart(particles, params);
    assert forall|i: int| 0 <= i < there.len() implies (#[trigger] there[i]).x == after[i].x
        && there[i].y == after[i].y && there[i].mass == after[i].mass && there[i].alive
        == after[i].alive by {
        assert(after[i] == there[i].kicked(
            reference::acceleration(there, i, params),
            params.dt,
        ));
    }
    lemma_same_accelerations(
        there,
        after,
        target,
        there.len() as int,
        params,
        backwards(params),
    );
    assert(there[target].alive != 0 && after[target].alive != 0);
    assert(reference::acceleration(there, target, params) == reference::acceleration(
        after,
        target,
        backwards(params),
    ));
    assert(there[target] == particles[target].kicked(
        reference::acceleration(particles, target, params),
        params.dt,
    ).moved(params.dt));
    assert(after[target] == there[target].kicked(
        reference::acceleration(there, target, params),
        params.dt,
    ));
    assert(back[target] == after[target].kicked(
        reference::acceleration(after, target, backwards(params)),
        params.dt.opposite(),
    ).moved(params.dt.opposite()));
}

/// Two particles on the way back are where they were, up to what rounding makes of it.
proof fn lemma_pair(particles: Seq<Particle>, params: SimParams, i: int, j: int)
    requires
        reference_balance::all_take_part(particles, params),
        all_apart(reference::drifted(particles, params)),
        0 <= i < particles.len(),
        0 <= j < particles.len(),
        i != j,
        is_in_range(particles, params, i, j),
    ensures
        pair_at(particles, params, i, j).holds(),
        pair_at(particles, params, i, j).is_in_range(params),
        particles[i].distance_squared(particles[j]).is_finite(),
        back_there(particles, params)[i].distance_squared(
            back_there(particles, params)[j],
        ).is_finite(),
{
    reveal(Displaced::holds);
    reveal(Displaced::is_in_range);
    let back = back_there(particles, params);
    lemma_back(particles, params, i, Axis::X);
    lemma_back(particles, params, i, Axis::Y);
    lemma_back(particles, params, j, Axis::X);
    lemma_back(particles, params, j, Axis::Y);
    rounding::law_sums_are_near(
        particles[i].distance_squared(particles[j]),
        params.softening_squared,
    );
    rounding::law_sums_are_near(back[i].distance_squared(back[j]), params.softening_squared);
    displaced::lemma_finite_distance(back[i], back[j]);
    lemma_place(path_of(particles, i, params, Axis::X));
    lemma_place(path_of(particles, i, params, Axis::Y));
    lemma_place(path_of(particles, j, params, Axis::X));
    lemma_place(path_of(particles, j, params, Axis::Y));
    lemma_sizes(back[i].x.number(), particles[i].x.number());
    lemma_sizes(back[i].y.number(), particles[i].y.number());
    lemma_sizes(back[j].x.number(), particles[j].x.number());
    lemma_sizes(back[j].y.number(), particles[j].y.number());
}

/// A difference is as large either way round.
proof fn lemma_sizes(x: real, y: real)
    ensures
        size(x - y) == size(y - x),
{
}

/// Particles that are clear of one another do not touch on the way back.
proof fn lemma_clear(particles: Seq<Particle>, params: SimParams)
    requires
        reference_balance::all_take_part(particles, params),
        all_apart(reference::drifted(particles, params)),
        forall|i: int, j: int|
            0 <= i < particles.len() && 0 <= j < particles.len() && i != j
                ==> #[trigger] is_in_range(particles, params, i, j),
        forall|i: int, j: int|
            0 <= i < j < particles.len() ==> #[trigger] is_clear(particles, params, i, j),
    ensures
        all_apart(back_there(particles, params)),
{
    let back = back_there(particles, params);
    if particles.len() > 0 {
        lemma_back(particles, params, 0, Axis::X);
    } else {
        lemma_step_apart(particles, params);
    }
    assert forall|i: int, j: int| 0 <= i < j < back.len() implies !(#[trigger] back[i]).touches(
        #[trigger] back[j],
    ) by {
        assert(is_in_range(particles, params, i, j));
        assert(is_clear(particles, params, i, j));
        lemma_pair(particles, params, i, j);
        displaced::law_clear_particles_stay_apart(pair_at(particles, params, i, j));
    }
}

/// The last kick of the way back.
proof fn lemma_last_kick(particles: Seq<Particle>, params: SimParams, target: int, axis: Axis)
    requires
        reference_balance::all_take_part(particles, params),
        all_apart(reference::drifted(particles, params)),
        all_apart(back_there(particles, params)),
        0 <= target < particles.len(),
    ensures
        ({
            let path = path_of(particles, target, params, axis);
            let end = returned(particles, params);
            &&& end.len() == particles.len()
            &&& end[target].along(axis.place()) == path.x2()
            &&& end[target].along(axis.velocity()) == path.v4()
            &&& end[target].mass == particles[target].mass
            &&& end[target].brightness == particles[target].brightness
            &&& end[target].alive == particles[target].alive
            &&& reference_balance::all_take_part(
                back_there(particles, params),
                backwards(params),
            )
        }),
{
    let after = reference::stepped(particles, params);
    let back = back_there(particles, params);
    let end = returned(particles, params);
    lemma_step_apart(particles, params);
    lemma_step_apart(after, backwards(params));
    lemma_back(particles, params, target, axis);
    assert(end[target] == back[target].kicked(
        reference::acceleration(back, target, backwards(params)),
        params.dt.opposite(),
    ));
}

/// A step and the same step back, where nothing merges on the way: the particles are as many, in
/// the same order, with the masses and the brightness that they had. A place that is finite is
/// where it was, up to rounding, and a velocity that is finite what it was, up to rounding and half
/// of the time step times what the first and the last acceleration differ by.
pub proof fn law_step_back_undoes_the_step(
    particles: Seq<Particle>,
    params: SimParams,
    target: int,
    axis: Axis,
)
    requires
        reference_balance::all_take_part(particles, params),
        all_apart(reference::drifted(particles, params)),
        all_apart(back_there(particles, params)),
        0 <= target < particles.len(),
    ensures
        ({
            let path = path_of(particles, target, params, axis);
            let after = returned(particles, params);
            let (x, v) = (
                after[target].along(axis.place()),
                after[target].along(axis.velocity()),
            );
            &&& after.len() == particles.len()
            &&& after[target].mass == particles[target].mass
            &&& after[target].brightness == particles[target].brightness
            &&& after[target].alive == particles[target].alive
            &&& x.is_finite() ==> size(
                x.number() - particles[target].along(axis.place()).number(),
            ) <= path.place_error()
            &&& v.is_finite() ==> size(
                v.number() - particles[target].along(axis.velocity()).number(),
            ) <= path.velocity_error() + product(
                size(path.half().number()),
                size(path.first.number() - path.last.number()),
            )
        }),
{
    let path = path_of(particles, target, params, axis);
    lemma_last_kick(particles, params, target, axis);
    if path.x2().is_finite() {
        lemma_place(path);
    }
    if path.v4().is_finite() {
        lemma_velocity(path);
    }
}

/// A step is reversible in time. Particles that do not touch after the move of a step, and that
/// lie farther apart than they reach by more than rounding makes of their places, are taken back
/// by the same step with the opposite time: they are as many, in the same order, with the masses
/// and the brightness that they had, and places and velocities that are finite are what they were,
/// up to rounding. Softening is greater than zero, and no distance overflows.
pub proof fn law_step_back_returns(
    particles: Seq<Particle>,
    params: SimParams,
    target: int,
    axis: Axis,
)
    requires
        reference_balance::all_take_part(particles, params),
        params.softening_squared.value() > 0,
        all_apart(reference::drifted(particles, params)),
        forall|i: int, j: int|
            0 <= i < particles.len() && 0 <= j < particles.len() && i != j
                ==> #[trigger] is_in_range(particles, params, i, j),
        forall|i: int, j: int|
            0 <= i < j < particles.len() ==> #[trigger] is_clear(particles, params, i, j),
        0 <= target < particles.len(),
    ensures
        ({
            let path = path_of(particles, target, params, axis);
            let after = returned(particles, params);
            let (x, v) = (
                after[target].along(axis.place()),
                after[target].along(axis.velocity()),
            );
            &&& after.len() == particles.len()
            &&& after[target].mass == particles[target].mass
            &&& after[target].brightness == particles[target].brightness
            &&& after[target].alive == particles[target].alive
            &&& x.is_finite() ==> size(
                x.number() - particles[target].along(axis.place()).number(),
            ) <= path.place_error()
            &&& v.is_finite() ==> size(
                v.number() - particles[target].along(axis.velocity()).number(),
            ) <= path.velocity_error() + product(
                size(path.half().number()),
                displaced::acceleration_gap(
                    particles,
                    back_there(particles, params),
                    target,
                    params,
                    backwards(params),
                    place_errors(particles, params),
                    axis,
                ),
            )
        }),
{
    let path = path_of(particles, target, params, axis);
    let back = back_there(particles, params);
    let moved = place_errors(particles, params);
    lemma_clear(particles, params);
    lemma_last_kick(particles, params, target, axis);
    law_step_back_undoes_the_step(particles, params, target, axis);
    if path.v4().is_finite() {
        lemma_velocity(path);
        assert forall|j: int| 0 <= j < particles.len() && j != target implies (
        #[trigger] displaced::pair_of(particles, back, target, j, moved)).holds()
            && displaced::pair_of(particles, back, target, j, moved).is_in_range(params) by {
            assert(is_in_range(particles, params, target, j));
            lemma_pair(particles, params, target, j);
        }
        displaced::law_accelerations_are_near(
            particles,
            back,
            target,
            params,
            backwards(params),
            moved,
            axis,
        );
        let gap = displaced::acceleration_gap(
            particles,
            back,
            target,
            params,
            backwards(params),
            moved,
            axis,
        );
        estimate::lemma_product_of_more(
            size(path.half().number()),
            size(path.first.number() - path.last.number()),
            gap,
        );
    }
}

} // verus!
