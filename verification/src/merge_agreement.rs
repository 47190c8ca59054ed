//! Things of two kinds that merge in one order: where the contacts agree, so do the weights of what
//! is left, exactly, and their coordinates up to what rounding makes of them.

use vstd::prelude::*;
use crate::balance;
use crate::bodies::{Body, Coordinate};
use crate::collision;
use crate::estimate;
use crate::merging;
use crate::merging::Merging;
use crate::rounding;
use crate::rounding::{product, size};
use crate::types::Particle;

verus! {

/// Things of two kinds find the same contacts, all the way through the merging.
pub open spec fn contacts_agree<A: Merging, B: Merging>(a: Seq<A>, b: Seq<B>, first: int) -> bool
    decreases 2 * a.len() - first,
    when 0 <= first
{
    if first >= a.len() {
        true
    } else {
        proof {
            merging::lemma_contact_bounds(a, first, first + 1);
        }
        let contact = merging::first_contact(a, first, first + 1);
        &&& contact == merging::first_contact(b, first, first + 1)
        &&& match contact {
            Some(second) => contacts_agree(
                merging::pair_merged(a, first, second),
                merging::pair_merged(b, first, second),
                first,
            ),
            None => contacts_agree(a, b, first + 1),
        }
    }
}

/// How far what two pairs become can be apart, from how far the two that merge are.
pub open spec fn pair_gap<A: Merging, B: Merging>(
    a: A,
    c: A,
    b: B,
    d: B,
    first: real,
    second: real,
    coordinate: Coordinate,
) -> real {
    (a.loss(c, coordinate) + b.loss(d, coordinate) + product(size(a.weight().number()), first)
        + product(size(c.weight().number()), second)) / size(a.merged(c).weight().number())
}

/// How far the things that are left can be apart along a coordinate, from how far they were before
/// they merged.
pub open spec fn gaps_after<A: Merging, B: Merging>(
    a: Seq<A>,
    b: Seq<B>,
    first: int,
    gaps: Seq<real>,
    coordinate: Coordinate,
) -> Seq<real>
    decreases 2 * a.len() - first,
    when 0 <= first
{
    if first >= a.len() {
        gaps
    } else {
        proof {
            merging::lemma_contact_bounds(a, first, first + 1);
        }
        match merging::first_contact(a, first, first + 1) {
            Some(second) => {
                let gap = pair_gap(
                    a[first],
                    a[second],
                    b[first],
                    b[second],
                    gaps[first],
                    gaps[second],
                    coordinate,
                );
                gaps_after(
                    merging::pair_merged(a, first, second),
                    merging::pair_merged(b, first, second),
                    first,
                    merging::without(gaps.update(first, gap), second),
                    coordinate,
                )
            },
            None => gaps_after(a, b, first + 1, gaps, coordinate),
        }
    }
}

/// Things of two kinds weigh the same, one by one.
pub open spec fn same_weights<A: Merging, B: Merging>(a: Seq<A>, b: Seq<B>) -> bool {
    &&& a.len() == b.len()
    &&& forall|i: int| 0 <= i < a.len() ==> (#[trigger] a[i]).weight() == b[i].weight()
}

/// Things of two kinds are no farther apart along a coordinate, one by one, than said.
pub open spec fn are_near<A: Merging, B: Merging>(
    a: Seq<A>,
    b: Seq<B>,
    gaps: Seq<real>,
    coordinate: Coordinate,
) -> bool {
    &&& a.len() == b.len() == gaps.len()
    &&& forall|i: int|
        0 <= i < a.len() ==> size(
            (#[trigger] a[i]).along(coordinate).number() - b[i].along(coordinate).number(),
        ) <= gaps[i]
}

/// One merge keeps the weights the same.
proof fn lemma_pair_weighs_the_same<A: Merging, B: Merging>(
    a: Seq<A>,
    b: Seq<B>,
    first: int,
    second: int,
)
    requires
        0 <= first < second < a.len(),
        same_weights(a, b),
    ensures
        same_weights(
            merging::pair_merged(a, first, second),
            merging::pair_merged(b, first, second),
        ),
{
    let (c, d) = (merging::pair_merged(a, first, second), merging::pair_merged(b, first, second));
    let last = a.len() - 1;
    a[first].lemma_weights_add_up(a[second]);
    b[first].lemma_weights_add_up(b[second]);
    assert(a[first].weight() == b[first].weight() && a[second].weight() == b[second].weight());
    assert forall|i: int| 0 <= i < c.len() implies (#[trigger] c[i]).weight() == d[i].weight() by {
        if i == first {
            assert(c[i] == a[first].merged(a[second]) && d[i] == b[first].merged(b[second]));
        } else if i == second {
            assert(c[i] == a[last] && d[i] == b[last]);
            assert(a[last].weight() == b[last].weight());
        } else {
            assert(c[i] == a[i] && d[i] == b[i]);
            assert(a[i].weight() == b[i].weight());
        }
    }
}

/// Things of two kinds that weigh the same and find the same contacts end as many, in one order,
/// and weigh the same.
pub proof fn law_merges_weigh_the_same<A: Merging, B: Merging>(a: Seq<A>, b: Seq<B>, first: int)
    requires
        0 <= first,
        same_weights(a, b),
        contacts_agree(a, b, first),
    ensures
        same_weights(merging::merged_from(a, first), merging::merged_from(b, first)),
    decreases 2 * a.len() - first,
{
    if first < a.len() {
        merging::lemma_contact_bounds(a, first, first + 1);
        match merging::first_contact(a, first, first + 1) {
            Some(second) => {
                lemma_pair_weighs_the_same(a, b, first, second);
                law_merges_weigh_the_same(
                    merging::pair_merged(a, first, second),
                    merging::pair_merged(b, first, second),
                    first,
                );
            },
            None => law_merges_weigh_the_same(a, b, first + 1),
        }
    }
}

/// What two pairs become is near one another.
proof fn lemma_pair_gap<A: Merging, B: Merging>(
    a: A,
    c: A,
    b: B,
    d: B,
    first: real,
    second: real,
    coordinate: Coordinate,
)
    requires
        a.weight() == b.weight(),
        c.weight() == d.weight(),
        a.merged(c).weight().is_finite(),
        a.merged(c).along(coordinate).is_finite(),
        b.merged(d).along(coordinate).is_finite(),
        size(a.along(coordinate).number() - b.along(coordinate).number()) <= first,
        size(c.along(coordinate).number() - d.along(coordinate).number()) <= second,
    ensures
        size(
            a.merged(c).along(coordinate).number() - b.merged(d).along(coordinate).number(),
        ) <= pair_gap(a, c, b, d, first, second, coordinate),
{
    a.lemma_weights_add_up(c);
    b.lemma_weights_add_up(d);
    a.lemma_loss(c, coordinate);
    b.lemma_loss(d, coordinate);
    let (m, n, w) = (
        a.weight().number(),
        c.weight().number(),
        a.merged(c).weight().number(),
    );
    estimate::lemma_product_of_near(
        m,
        a.along(coordinate).number(),
        b.along(coordinate).number(),
        first,
    );
    estimate::lemma_product_of_near(
        n,
        c.along(coordinate).number(),
        d.along(coordinate).number(),
        second,
    );
    let (x, y) = (
        a.merged(c).along(coordinate).number(),
        b.merged(d).along(coordinate).number(),
    );
    let total = a.loss(c, coordinate) + b.loss(d, coordinate) + product(size(m), first) + product(
        size(n),
        second,
    );
    assert(size(product(w, x) - product(w, y)) <= total);
    lemma_weighted_difference(w, x, y, total);
}

/// What bounds the difference of two weighted numbers bounds that of the numbers.
proof fn lemma_weighted_difference(w: real, x: real, y: real, total: real)
    requires
        w != 0 as real,
        size(product(w, x) - product(w, y)) <= total,
    ensures
        size(x - y) <= total / size(w),
{
    let d = size(w);
    let z = x - y;
    estimate::lemma_difference_times(x, y, w);
    estimate::lemma_products_of_three(w, x, w);
    estimate::lemma_products_of_three(w, y, w);
    estimate::lemma_products_of_three(z, w, w);
    assert(size(product(z, d)) == size(product(z, w)));
    estimate::lemma_divided(total, d);
    estimate::lemma_multiples_are_bounded(z, total / d, d);
}

/// Things of two kinds that weigh the same, are near one another and find the same contacts end
/// near one another, where all that is left is finite.
pub proof fn law_merges_are_near<A: Merging, B: Merging>(
    a: Seq<A>,
    b: Seq<B>,
    first: int,
    gaps: Seq<real>,
    coordinate: Coordinate,
)
    requires
        0 <= first,
        same_weights(a, b),
        are_near(a, b, gaps, coordinate),
        contacts_agree(a, b, first),
        balance::all_finite(merging::merged_from(a, first), coordinate),
        balance::all_finite(merging::merged_from(b, first), coordinate),
    ensures
        are_near(
            merging::merged_from(a, first),
            merging::merged_from(b, first),
            gaps_after(a, b, first, gaps, coordinate),
            coordinate,
        ),
    decreases 2 * a.len() - first,
{
    if first < a.len() {
        merging::lemma_contact_bounds(a, first, first + 1);
        match merging::first_contact(a, first, first + 1) {
            Some(second) => {
                let (c, d) = (
                    merging::pair_merged(a, first, second),
                    merging::pair_merged(b, first, second),
                );
                let gap = pair_gap(
                    a[first],
                    a[second],
                    b[first],
                    b[second],
                    gaps[first],
                    gaps[second],
                    coordinate,
                );
                let next = merging::without(gaps.update(first, gap), second);
                let last = a.len() - 1;
                balance::law_moments_are_nearly_kept(c, first, coordinate);
                balance::law_moments_are_nearly_kept(d, first, coordinate);
                assert(c[first] == a[first].merged(a[second]));
                assert(d[first] == b[first].merged(b[second]));
                assert(a[first].weight() == b[first].weight());
                assert(a[second].weight() == b[second].weight());
                lemma_pair_gap(
                    a[first],
                    a[second],
                    b[first],
                    b[second],
                    gaps[first],
                    gaps[second],
                    coordinate,
                );
                assert forall|i: int| 0 <= i < c.len() implies size(
                    (#[trigger] c[i]).along(coordinate).number() - d[i].along(coordinate).number(),
                ) <= next[i] by {
                    if i == first {
                    } else if i == second {
                        assert(c[i] == a[last] && d[i] == b[last] && next[i] == gaps[last]);
                    } else {
                        assert(c[i] == a[i] && d[i] == b[i] && next[i] == gaps[i]);
                    }
                }
                lemma_pair_weighs_the_same(a, b, first, second);
                law_merges_are_near(c, d, first, next, coordinate);
            },
            None => law_merges_are_near(a, b, first + 1, gaps, coordinate),
        }
    }
}

/// The particles of a compute device and the bodies of a cloud on the host merge in one order:
/// live particles and the same bodies that find the same contacts on the way end as many, in the
/// same order, with the same masses, and with places, velocities and brightness that are no farther
/// apart than rounding makes of them, where those are finite.
pub proof fn law_particles_merge_as_bodies_do(
    particles: Seq<Particle>,
    bodies: Seq<Body>,
    coordinate: Coordinate,
)
    requires
        particles.len() == bodies.len(),
        forall|i: int|
            0 <= i < particles.len() ==> (#[trigger] particles[i]).alive != 0
                && particles[i].body() == bodies[i],
        contacts_agree(particles, bodies, 0),
    ensures
        ({
            let some = merging::merged_from(collision::live_of(particles), 0);
            let others = merging::merged_from(bodies, 0);
            let none = Seq::new(particles.len(), |i: int| 0 as real);
            &&& some.len() == others.len()
            &&& forall|i: int| 0 <= i < some.len() ==> (#[trigger] some[i]).mass == others[i].mass
            &&& balance::all_finite(some, coordinate) && balance::all_finite(
                others,
                coordinate,
            ) ==> are_near(
                some,
                others,
                gaps_after(particles, bodies, 0, none, coordinate),
                coordinate,
            )
        }),
{
    let none = Seq::new(particles.len(), |i: int| 0 as real);
    collision::law_live_particles_are_kept(particles);
    assert forall|i: int| 0 <= i < particles.len() implies (#[trigger] particles[i]).weight()
        == bodies[i].weight() && particles[i].along(coordinate) == bodies[i].along(coordinate) by {
        assert(particles[i].body() == bodies[i]);
    }
    law_merges_weigh_the_same(particles, bodies, 0);
    let some = merging::merged_from(particles, 0);
    let others = merging::merged_from(bodies, 0);
    assert forall|i: int| 0 <= i < some.len() implies (#[trigger] some[i]).mass
        == others[i].mass by {
        assert(some[i].weight() == others[i].weight());
    }
    if balance::all_finite(some, coordinate) && balance::all_finite(others, coordinate) {
        law_merges_are_near(particles, bodies, 0, none, coordinate);
    }
}

/// A live particle and another touch as their bodies do.
pub proof fn law_particles_touch_as_bodies_do(a: Particle, b: Particle)
    requires
        b.alive != 0,
    ensures
        a.touches(b) == a.body().touches(b.body()),
{
}

} // verus!
