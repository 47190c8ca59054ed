//! When particles touch: where they are no farther apart than their radii reach together, in exact
//! distances and radii, up to rounding.

use vstd::prelude::*;
use crate::binary32::Binary32;
use crate::bodies::Body;
use crate::collision;
use crate::collision::particle_radius;
use crate::estimate;
use crate::estimate::Estimate;
use crate::merging;
use crate::merging::Merging;
use crate::numbers;
use crate::radii;
use crate::rounding::product;
use crate::types::Particle;

verus! {

/// The square of the distance between two places, beside the exact one.
pub open spec fn distance_estimate(ax: Binary32, ay: Binary32, bx: Binary32, by: Binary32) -> Estimate {
    let dx = Estimate::of(bx).minus(Estimate::of(ax));
    let dy = Estimate::of(by).minus(Estimate::of(ay));
    dx.times(dx).plus(dy.times(dy))
}

/// The square of what the radii of two masses reach together, beside the exact one.
pub open spec fn reach_estimate(a: Binary32, b: Binary32, root_a: real, root_b: real) -> Estimate {
    let reach = radii::radius_estimate(a, root_a).plus(radii::radius_estimate(b, root_b));
    reach.times(reach)
}

/// The square of the distance is near the exact one.
proof fn lemma_distance_estimate(ax: Binary32, ay: Binary32, bx: Binary32, by: Binary32)
    ensures
        distance_estimate(ax, ay, bx, by).holds(),
        distance_estimate(ax, ay, bx, by).computed == (bx - ax) * (bx - ax) + (by - ay) * (by - ay),
        distance_estimate(ax, ay, bx, by).exact == product(
            bx.number() - ax.number(),
            bx.number() - ax.number(),
        ) + product(by.number() - ay.number(), by.number() - ay.number()),
{
    let dx = Estimate::of(bx).minus(Estimate::of(ax));
    let dy = Estimate::of(by).minus(Estimate::of(ay));
    estimate::law_estimates_hold(Estimate::of(bx), Estimate::of(ax));
    estimate::law_estimates_hold(Estimate::of(by), Estimate::of(ay));
    estimate::law_estimates_hold(dx, dx);
    estimate::law_estimates_hold(dy, dy);
    estimate::law_estimates_hold(dx.times(dx), dy.times(dy));
}

/// The square of what two radii reach is near the exact one.
proof fn lemma_reach_estimate(a: Binary32, b: Binary32, root_a: real, root_b: real)
    requires
        a.is_finite(),
        b.is_finite(),
        radii::is_root(root_a, a.number()),
        radii::is_root(root_b, b.number()),
    ensures
        reach_estimate(a, b, root_a, root_b).holds(),
        reach_estimate(a, b, root_a, root_b).computed == (particle_radius(a) + particle_radius(b))
            * (particle_radius(a) + particle_radius(b)),
        reach_estimate(a, b, root_a, root_b).exact == reach_squared(root_a, root_b),
{
    radii::law_radii_grow_with_the_root_of_the_mass(a, root_a);
    radii::law_radii_grow_with_the_root_of_the_mass(b, root_b);
    let (p, q) = (radii::radius_estimate(a, root_a), radii::radius_estimate(b, root_b));
    estimate::law_estimates_hold(p, q);
    estimate::law_estimates_hold(p.plus(q), p.plus(q));
    estimate::lemma_product_of_sum(45 as real / 100 as real, root_a, root_b);
}

/// The square of 0.45 times the sum of two roots.
pub open spec fn reach_squared(root_a: real, root_b: real) -> real {
    let reach = product(45 as real / 100 as real, root_a + root_b);
    product(reach, reach)
}

/// The exact square of the distance between two bodies.
pub open spec fn distance_squared(a: Body, b: Body) -> real {
    let (dx, dy) = (b.x.number() - a.x.number(), b.y.number() - a.y.number());
    product(dx, dx) + product(dy, dy)
}

/// How far contact can be from exact contact: what the squares of the distance and of the reach are
/// off by.
pub open spec fn contact_error(a: Body, b: Body, root_a: real, root_b: real) -> real {
    distance_estimate(a.x, a.y, b.x, b.y).error + reach_estimate(
        a.mass,
        b.mass,
        root_a,
        root_b,
    ).error
}

/// Neither the distance nor the reach of two bodies overflows.
pub open spec fn is_in_range(a: Body, b: Body) -> bool {
    let reach = particle_radius(a.mass) + particle_radius(b.mass);
    &&& a.mass.is_finite()
    &&& b.mass.is_finite()
    &&& ((b.x - a.x) * (b.x - a.x) + (b.y - a.y) * (b.y - a.y)).is_finite()
    &&& (reach * reach).is_finite()
}

/// Two bodies touch wherever the exact distance between them is less than 0.45 times the sum of the
/// roots of their masses, whatever their masses, and not where it is more; where it is just that, up
/// to rounding, they may or may not.
pub proof fn law_bodies_touch_within_their_radii(a: Body, b: Body, root_a: real, root_b: real)
    requires
        is_in_range(a, b),
        radii::is_root(root_a, a.mass.number()),
        radii::is_root(root_b, b.mass.number()),
    ensures
        distance_squared(a, b) + contact_error(a, b, root_a, root_b) <= reach_squared(
            root_a,
            root_b,
        ) ==> a.touches(b),
        distance_squared(a, b) > reach_squared(root_a, root_b) + contact_error(
            a,
            b,
            root_a,
            root_b,
        ) ==> !a.touches(b),
{
    lemma_distance_estimate(a.x, a.y, b.x, b.y);
    lemma_reach_estimate(a.mass, b.mass, root_a, root_b);
    numbers::law_comparisons_order_numbers(
        distance_estimate(a.x, a.y, b.x, b.y).computed,
        reach_estimate(a.mass, b.mass, root_a, root_b).computed,
    );
}

/// Two live particles touch wherever the exact distance between them is less than 0.45 times the
/// sum of the roots of their masses, whatever their masses, and not where it is more; where it is
/// just that, up to rounding, they may or may not. Nothing touches a dead particle.
pub proof fn law_particles_touch_within_their_radii(
    a: Particle,
    b: Particle,
    root_a: real,
    root_b: real,
)
    requires
        is_in_range(a.body(), b.body()),
        radii::is_root(root_a, a.mass.number()),
        radii::is_root(root_b, b.mass.number()),
    ensures
        b.alive != 0 && distance_squared(a.body(), b.body()) + contact_error(
            a.body(),
            b.body(),
            root_a,
            root_b,
        ) <= reach_squared(root_a, root_b) ==> a.touches(b),
        distance_squared(a.body(), b.body()) > reach_squared(root_a, root_b) + contact_error(
            a.body(),
            b.body(),
            root_a,
            root_b,
        ) ==> !a.touches(b),
        b.alive == 0 ==> !a.touches(b),
{
    lemma_distance_estimate(a.x, a.y, b.x, b.y);
    lemma_reach_estimate(a.mass, b.mass, root_a, root_b);
    numbers::law_comparisons_order_numbers(
        distance_estimate(a.x, a.y, b.x, b.y).computed,
        reach_estimate(a.mass, b.mass, root_a, root_b).computed,
    );
}

/// Some thing touches one behind it.
pub open spec fn has_contact<T: Merging>(things: Seq<T>, first: int) -> bool {
    exists|i: int, j: int|
        first <= i < j < things.len() && (#[trigger] things[i]).touches(#[trigger] things[j])
}

/// Merging leaves fewer things wherever one touches another.
proof fn lemma_contacts_merge<T: Merging>(things: Seq<T>, first: int, i: int, j: int)
    requires
        0 <= first <= i < j < things.len(),
        things[i].touches(things[j]),
    ensures
        merging::merged_from(things, first).len() < things.len(),
    decreases things.len() - first,
{
    merging::lemma_contact_bounds(things, first, first + 1);
    match merging::first_contact(things, first, first + 1) {
        Some(second) => {
            let next = merging::pair_merged(things, first, second);
            merging::law_merging_leaves_some(next, first);
            assert(next.len() == things.len() - 1);
        },
        None => {
            if i == first {
                assert(!things[first].touches(things[j]));
            }
            lemma_contacts_merge(things, first + 1, i, j);
        },
    }
}

/// Merging leaves fewer things if and only if some thing touches one behind it, and otherwise
/// changes nothing at all.
pub proof fn law_whatever_touches_merges<T: Merging>(things: Seq<T>)
    ensures
        merging::merged_from(things, 0).len() < things.len() <==> has_contact(things, 0),
        !has_contact(things, 0) ==> merging::merged_from(things, 0) == things,
{
    if has_contact(things, 0) {
        let (i, j) = choose|i: int, j: int|
            0 <= i < j < things.len() && (#[trigger] things[i]).touches(#[trigger] things[j]);
        lemma_contacts_merge(things, 0, i, j);
    } else {
        merging::law_things_apart_stay(things, 0);
    }
}

/// A position takes in the first thing behind it that it touches: the two become one in its place,
/// the last thing moves into the vacant place, all others stay, and merging goes on from the same
/// position.
pub proof fn law_a_position_takes_in_its_first_contact<T: Merging>(
    things: Seq<T>,
    first: int,
    second: int,
    next: Seq<T>,
)
    requires
        0 <= first < second < things.len(),
        things[first].touches(things[second]),
        forall|k: int| first < k < second ==> !things[first].touches(#[trigger] things[k]),
        next.len() == things.len() - 1,
        next[first] == things[first].merged(things[second]),
        second < next.len() ==> next[second] == things[next.len() as int],
        forall|k: int|
            0 <= k < next.len() && k != first && k != second ==> #[trigger] next[k] == things[k],
    ensures
        merging::merged_from(things, first) == merging::merged_from(next, first),
{
    merging::lemma_contact_bounds(things, first, first + 1);
    match merging::first_contact(things, first, first + 1) {
        Some(found) => {
            if found < second {
                assert(!things[first].touches(things[found]));
            } else if second < found {
                assert(!things[first].touches(things[second]));
            }
            assert(merging::pair_merged(things, first, second) == next);
        },
        None => {
            assert(!things[first].touches(things[second]));
        },
    }
}

/// A position that touches nothing behind it is done with, and merging goes on from the next one;
/// behind the last one there is nothing to do.
pub proof fn law_a_position_without_contact_is_done_with<T: Merging>(things: Seq<T>, first: int)
    requires
        0 <= first,
        forall|k: int| first < k < things.len() ==> !things[first].touches(#[trigger] things[k]),
    ensures
        merging::merged_from(things, first) == merging::merged_from(things, first + 1),
        first >= things.len() ==> merging::merged_from(things, first) == things,
{
    if first < things.len() {
        merging::lemma_contact_bounds(things, first, first + 1);
        match merging::first_contact(things, first, first + 1) {
            Some(found) => {
                assert(!things[first].touches(things[found]));
            },
            None => {},
        }
    }
}

/// A thing came from a merge of two that touched.
pub open spec fn is_merged<T: Merging>(thing: T) -> bool {
    exists|a: T, b: T| a.touches(b) && thing == #[trigger] a.merged(b)
}

/// What is left before a position has not changed.
proof fn lemma_settled<T: Merging>(things: Seq<T>, first: int, j: int)
    requires
        0 <= j < first,
        j < things.len(),
    ensures
        j < merging::merged_from(things, first).len(),
        merging::merged_from(things, first)[j] == things[j],
    decreases 2 * things.len() - first,
{
    if first < things.len() {
        merging::lemma_contact_bounds(things, first, first + 1);
        match merging::first_contact(things, first, first + 1) {
            Some(second) => {
                let next = merging::pair_merged(things, first, second);
                assert(next[j] == things[j]);
                lemma_settled(next, first, j);
            },
            None => {
                lemma_settled(things, first + 1, j);
            },
        }
    }
}

/// Whatever is left behind a position was there or came from a merge.
proof fn lemma_left<T: Merging>(things: Seq<T>, first: int, j: int)
    requires
        0 <= first <= j < merging::merged_from(things, first).len(),
    ensures
        is_merged(merging::merged_from(things, first)[j]) || exists|k: int|
            first <= k < things.len() && merging::merged_from(things, first)[j]
                == #[trigger] things[k],
    decreases 2 * things.len() - first,
{
    let left = merging::merged_from(things, first);
    if first < things.len() {
        merging::lemma_contact_bounds(things, first, first + 1);
        match merging::first_contact(things, first, first + 1) {
            Some(second) => {
                let merged = things[first].merged(things[second]);
                let next = merging::pair_merged(things, first, second);
                lemma_left(next, first, j);
                assert(is_merged(merged));
                if !is_merged(left[j]) {
                    let k = choose|k: int| first <= k < next.len() && left[j] == #[trigger] next[k];
                    assert(next[k] == merged || next[k] == things[k] || next[k]
                        == things[things.len() - 1]);
                }
            },
            None => {
                if j == first {
                    lemma_settled(things, first + 1, first);
                } else {
                    lemma_left(things, first + 1, j);
                }
            },
        }
    }
}

/// Two things that still touch after merging can only do so because the one behind came from a
/// merge itself, after the other had been done with: a position takes in all that it touches.
pub proof fn law_contacts_that_are_left_come_from_merges<T: Merging>(things: Seq<T>, first: int)
    requires
        0 <= first,
    ensures
        ({
            let left = merging::merged_from(things, first);
            forall|i: int, j: int|
                first <= i < j < left.len() && (#[trigger] left[i]).touches(#[trigger] left[j])
                    ==> is_merged(left[j])
        }),
    decreases 2 * things.len() - first,
{
    let left = merging::merged_from(things, first);
    if first < things.len() {
        merging::lemma_contact_bounds(things, first, first + 1);
        match merging::first_contact(things, first, first + 1) {
            Some(second) => {
                let next = merging::pair_merged(things, first, second);
                law_contacts_that_are_left_come_from_merges(next, first);
                assert(left == merging::merged_from(next, first));
            },
            None => {
                law_contacts_that_are_left_come_from_merges(things, first + 1);
                assert(left == merging::merged_from(things, first + 1));
                assert forall|i: int, j: int|
                    first <= i < j < left.len() && (#[trigger] left[i]).touches(
                        #[trigger] left[j],
                    ) implies is_merged(left[j]) by {
                    if i == first {
                        lemma_settled(things, first + 1, first);
                        lemma_left(things, first + 1, j);
                    }
                }
            },
        }
    }
}

/// Two live particles that overlap by more than rounding makes of it merge: a step of merging
/// leaves fewer particles.
pub proof fn law_overlapping_particles_merge(
    particles: Seq<Particle>,
    i: int,
    j: int,
    root_i: real,
    root_j: real,
)
    requires
        0 <= i < j < particles.len(),
        merging::all_are(particles, |particle: Particle| particle.alive != 0),
        is_in_range(particles[i].body(), particles[j].body()),
        radii::is_root(root_i, particles[i].mass.number()),
        radii::is_root(root_j, particles[j].mass.number()),
        distance_squared(particles[i].body(), particles[j].body()) + contact_error(
            particles[i].body(),
            particles[j].body(),
            root_i,
            root_j,
        ) <= reach_squared(root_i, root_j),
    ensures
        merging::merged_from(collision::live_of(particles), 0).len() < particles.len(),
{
    collision::law_live_particles_are_kept(particles);
    assert((|particle: Particle| particle.alive != 0)(particles[j]));
    law_particles_touch_within_their_radii(particles[i], particles[j], root_i, root_j);
    assert(has_contact(particles, 0));
    law_whatever_touches_merges(particles);
}

/// Two bodies that overlap by more than rounding makes of it merge: merging leaves fewer bodies.
pub proof fn law_overlapping_bodies_merge(
    bodies: Seq<Body>,
    i: int,
    j: int,
    root_i: real,
    root_j: real,
)
    requires
        0 <= i < j < bodies.len(),
        is_in_range(bodies[i], bodies[j]),
        radii::is_root(root_i, bodies[i].mass.number()),
        radii::is_root(root_j, bodies[j].mass.number()),
        distance_squared(bodies[i], bodies[j]) + contact_error(
            bodies[i],
            bodies[j],
            root_i,
            root_j,
        ) <= reach_squared(root_i, root_j),
    ensures
        merging::merged_from(bodies, 0).len() < bodies.len(),
{
    law_bodies_touch_within_their_radii(bodies[i], bodies[j], root_i, root_j);
    assert(has_contact(bodies, 0));
    law_whatever_touches_merges(bodies);
}

} // verus!
