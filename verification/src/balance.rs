//! What a cloud keeps: its mass, its momentum and the path of its centre of mass, up to what
//! rounding makes of them.
//!
//! Sums here are exact sums of the numbers that the particles hold. How far they can change is
//! itself an exact sum, of what each single rounding can be off by.

use vstd::prelude::*;
use crate::binary32::Binary32;
use crate::bodies::Coordinate;
use crate::estimate;
use crate::estimate::Estimate;
use crate::merging;
use crate::merging::Merging;
use crate::rounding::{product, size, slack};
use crate::rounding;

verus! {

/// The sum of the first terms.
pub open spec fn sum(count: int, term: spec_fn(int) -> real) -> real
    decreases count,
{
    if count <= 0 {
        0 as real
    } else {
        sum(count - 1, term) + term(count - 1)
    }
}

/// Equal terms have equal sums.
pub proof fn lemma_same_terms(count: int, f: spec_fn(int) -> real, g: spec_fn(int) -> real)
    requires
        forall|i: int| 0 <= i < count ==> #[trigger] f(i) == g(i),
    ensures
        sum(count, f) == sum(count, g),
    decreases count,
{
    if count > 0 {
        assert(f(count - 1) == g(count - 1));
        lemma_same_terms(count - 1, f, g);
    }
}

/// Sums of terms that are near one another are near one another.
pub proof fn lemma_near_terms(
    count: int,
    f: spec_fn(int) -> real,
    g: spec_fn(int) -> real,
    error: spec_fn(int) -> real,
)
    requires
        forall|i: int| 0 <= i < count ==> size(#[trigger] f(i) - g(i)) <= error(i),
    ensures
        size(sum(count, f) - sum(count, g)) <= sum(count, error),
    decreases count,
{
    if count > 0 {
        assert(size(f(count - 1) - g(count - 1)) <= error(count - 1));
        lemma_near_terms(count - 1, f, g, error);
    }
}

/// The sum of sums, one of them scaled.
pub proof fn lemma_sum_of_sums(
    count: int,
    f: spec_fn(int) -> real,
    factor: real,
    g: spec_fn(int) -> real,
)
    ensures
        sum(count, |i: int| f(i) + factor * g(i)) == sum(count, f) + factor * sum(count, g),
    decreases count,
{
    if count > 0 {
        lemma_sum_of_sums(count - 1, f, factor, g);
        let (s, t) = (sum(count - 1, g), g(count - 1));
        assert(factor * (s + t) == factor * s + factor * t) by (nonlinear_arith);
    } else {
        assert(factor * 0 as real == 0 as real) by (nonlinear_arith);
    }
}

/// A sum with one term changed.
pub proof fn lemma_one_term_changed(
    count: int,
    f: spec_fn(int) -> real,
    g: spec_fn(int) -> real,
    position: int,
)
    requires
        0 <= position < count,
        forall|i: int| 0 <= i < count && i != position ==> #[trigger] f(i) == g(i),
    ensures
        sum(count, g) == sum(count, f) - f(position) + g(position),
    decreases count,
{
    if position == count - 1 {
        lemma_same_terms(count - 1, f, g);
    } else {
        assert(f(count - 1) == g(count - 1));
        lemma_one_term_changed(count - 1, f, g, position);
    }
}

/// The sum over all pairs.
pub open spec fn sum_of_pairs(count: int, width: int, term: spec_fn(int, int) -> real) -> real {
    sum(count, |i: int| sum(width, |j: int| term(i, j)))
}

/// What any two do to each other cancels out.
pub proof fn lemma_pairs_cancel_out(count: int, term: spec_fn(int, int) -> real)
    requires
        forall|i: int, j: int|
            0 <= i < count && 0 <= j < count ==> #[trigger] term(i, j) == -term(j, i),
    ensures
        sum_of_pairs(count, count, term) == 0 as real,
    decreases count,
{
    if count > 0 {
        let last = count - 1;
        lemma_pairs_cancel_out(last, term);
        let row = |j: int| term(last, j);
        let column = |i: int| term(i, last);
        let inner = |i: int| sum(last, |j: int| term(i, j));
        let outer = |i: int| sum(count, |j: int| term(i, j));
        let split = |i: int| inner(i) + (1 as real) * column(i);
        assert forall|i: int| 0 <= i < last implies #[trigger] outer(i) == split(i) by {
            let terms = |j: int| term(i, j);
            assert(sum(count, terms) == sum(last, terms) + terms(last));
        }
        lemma_same_terms(last, outer, split);
        lemma_sum_of_sums(last, inner, 1 as real, column);
        lemma_same_terms(last, split, |i: int| inner(i) + (1 as real) * column(i));
        let opposite = |i: int| 0 as real + (-1 as real) * column(i);
        assert forall|i: int| 0 <= i < last implies #[trigger] row(i) == opposite(i) by {
            assert(term(last, i) == -term(i, last));
        }
        lemma_same_terms(last, row, opposite);
        let zero = |i: int| 0 as real;
        lemma_sum_of_sums(last, zero, -1 as real, column);
        lemma_same_terms(last, opposite, |i: int| zero(i) + (-1 as real) * column(i));
        lemma_zero_terms(last, zero);
        assert(term(last, last) == -term(last, last));
        assert(outer(last) == sum(last, row) + row(last));
        assert(sum(last, outer) == sum_of_pairs(last, last, term) + sum(last, column));
        assert(sum(last, row) == -sum(last, column));
        assert(sum(count, outer) == sum(last, outer) + outer(last));
    }
}

/// A sum of zeros is zero.
pub proof fn lemma_zero_terms(count: int, f: spec_fn(int) -> real)
    requires
        forall|i: int| 0 <= i < count ==> #[trigger] f(i) == 0 as real,
    ensures
        sum(count, f) == 0 as real,
    decreases count,
{
    if count > 0 {
        assert(f(count - 1) == 0 as real);
        lemma_zero_terms(count - 1, f);
    }
}

/// How far the weighted sum of two numbers can be off.
pub open spec fn weighing_error(x: Binary32, m: Binary32, y: Binary32, n: Binary32) -> real {
    slack(x * m) + slack(y * n) + slack(x * m + y * n)
}

/// A finite weighted sum is one of finite numbers and off by no more than said.
pub proof fn lemma_weighing(x: Binary32, m: Binary32, y: Binary32, n: Binary32)
    requires
        (x * m + y * n).is_finite(),
    ensures
        x.is_finite(),
        m.is_finite(),
        y.is_finite(),
        n.is_finite(),
        size(
            (x * m + y * n).number() - (m.number() * x.number() + n.number() * y.number()),
        ) <= weighing_error(x, m, y, n),
{
    rounding::law_sums_are_near(x * m, y * n);
    rounding::law_products_are_near(x, m);
    rounding::law_products_are_near(y, n);
    let (a, b, c, d) = (x.number(), m.number(), y.number(), n.number());
    assert(a * b == b * a && c * d == d * c) by (nonlinear_arith);
}

/// The exact sum of the weights.
pub open spec fn mass<T: Merging>(things: Seq<T>) -> real {
    sum(things.len() as int, |i: int| things[i].weight().number())
}

/// The exact sum of a coordinate, weighted: of the velocities, the momentum; of the places, the
/// centre times the mass.
pub open spec fn moment<T: Merging>(things: Seq<T>, coordinate: Coordinate) -> real {
    sum(things.len() as int, |i: int| merging::share(things[i], coordinate))
}

/// All weights, and all things along a coordinate, are finite.
pub open spec fn all_finite<T: Merging>(things: Seq<T>, coordinate: Coordinate) -> bool {
    forall|i: int|
        0 <= i < things.len() ==> (#[trigger] things[i]).weight().is_finite() && things[i].along(
            coordinate,
        ).is_finite()
}

/// How far the sum of the weights can change when things merge: what each sum of two weights can
/// be off by.
pub open spec fn mass_loss<T: Merging>(things: Seq<T>, first: int) -> real
    decreases 2 * things.len() - first,
    when 0 <= first
{
    if first >= things.len() {
        0 as real
    } else {
        proof {
            merging::lemma_contact_bounds(things, first, first + 1);
        }
        match merging::first_contact(things, first, first + 1) {
            Some(second) => slack(things[first].weight() + things[second].weight()) + mass_loss(
                merging::pair_merged(things, first, second),
                first,
            ),
            None => mass_loss(things, first + 1),
        }
    }
}

/// How far the weighted sum of a coordinate can change when things merge: the losses of all
/// merges.
pub open spec fn moment_loss<T: Merging>(things: Seq<T>, first: int, coordinate: Coordinate) -> real
    decreases 2 * things.len() - first,
    when 0 <= first
{
    if first >= things.len() {
        0 as real
    } else {
        proof {
            merging::lemma_contact_bounds(things, first, first + 1);
        }
        match merging::first_contact(things, first, first + 1) {
            Some(second) => things[first].loss(things[second], coordinate) + moment_loss(
                merging::pair_merged(things, first, second),
                first,
                coordinate,
            ),
            None => moment_loss(things, first + 1, coordinate),
        }
    }
}

/// What a merge of two does to a sum over all.
proof fn lemma_sum_after_merge<T: Merging>(
    things: Seq<T>,
    first: int,
    second: int,
    f: spec_fn(T) -> real,
)
    requires
        0 <= first < second < things.len(),
    ensures
        ({
            let next = merging::pair_merged(things, first, second);
            sum(next.len() as int, |i: int| f(next[i])) == sum(
                things.len() as int,
                |i: int| f(things[i]),
            ) - f(things[first]) - f(things[second]) + f(things[first].merged(things[second]))
        }),
{
    let next = merging::pair_merged(things, first, second);
    let merged = things[first].merged(things[second]);
    let last = things.len() - 1;
    let before = |i: int| f(things[i]);
    let moved = |i: int|
        if i == second {
            f(things[last])
        } else {
            f(things[i])
        };
    let after = |i: int| f(next[i]);
    if second < last {
        lemma_one_term_changed(last, before, moved, second);
    } else {
        lemma_same_terms(last, before, moved);
    }
    lemma_one_term_changed(last, moved, after, first);
    assert(sum(things.len() as int, before) == sum(last, before) + before(last));
    assert(next.len() == last);
}

/// Merging keeps the total weight up to the sum of the roundings, where all weights that are left
/// are finite; then all that there were are finite too.
pub proof fn law_mass_is_nearly_kept<T: Merging>(things: Seq<T>, first: int)
    requires
        0 <= first,
        merging::all_are(
            merging::merged_from(things, first),
            |thing: T| thing.weight().is_finite(),
        ),
    ensures
        merging::all_are(things, |thing: T| thing.weight().is_finite()),
        size(mass(merging::merged_from(things, first)) - mass(things)) <= mass_loss(things, first),
    decreases 2 * things.len() - first,
{
    if first < things.len() {
        merging::lemma_contact_bounds(things, first, first + 1);
        match merging::first_contact(things, first, first + 1) {
            Some(second) => {
                let next = merging::pair_merged(things, first, second);
                let (a, b) = (things[first], things[second]);
                law_mass_is_nearly_kept(next, first);
                assert(next[first] == a.merged(b));
                a.lemma_weights_add_up(b);
                rounding::law_sums_are_near(a.weight(), b.weight());
                assert forall|i: int| 0 <= i < things.len() implies (
                #[trigger] things[i]).weight().is_finite() by {
                    if i != first && i != second {
                        if i == things.len() - 1 {
                            assert(next[second] == things[i]);
                        } else {
                            assert(next[i] == things[i]);
                        }
                    }
                }
                lemma_sum_after_merge(things, first, second, |thing: T| thing.weight().number());
                lemma_same_terms(
                    things.len() as int,
                    |i: int| (|thing: T| thing.weight().number())(things[i]),
                    |i: int| things[i].weight().number(),
                );
                lemma_same_terms(
                    next.len() as int,
                    |i: int| (|thing: T| thing.weight().number())(next[i]),
                    |i: int| next[i].weight().number(),
                );
            },
            None => law_mass_is_nearly_kept(things, first + 1),
        }
    }
}

/// Merging keeps the weighted sum of a coordinate up to the losses of the merges, where all that
/// is left is finite; then all that there was is finite too.
pub proof fn law_moments_are_nearly_kept<T: Merging>(
    things: Seq<T>,
    first: int,
    coordinate: Coordinate,
)
    requires
        0 <= first,
        all_finite(merging::merged_from(things, first), coordinate),
    ensures
        all_finite(things, coordinate),
        size(
            moment(merging::merged_from(things, first), coordinate) - moment(things, coordinate),
        ) <= moment_loss(things, first, coordinate),
    decreases 2 * things.len() - first,
{
    if first < things.len() {
        merging::lemma_contact_bounds(things, first, first + 1);
        match merging::first_contact(things, first, first + 1) {
            Some(second) => {
                let next = merging::pair_merged(things, first, second);
                let (a, b) = (things[first], things[second]);
                law_moments_are_nearly_kept(next, first, coordinate);
                assert(next[first] == a.merged(b));
                a.lemma_weights_add_up(b);
                rounding::law_sums_are_near(a.weight(), b.weight());
                a.lemma_loss(b, coordinate);
                assert forall|i: int| 0 <= i < things.len() implies (
                #[trigger] things[i]).weight().is_finite() && things[i].along(
                    coordinate,
                ).is_finite() by {
                    if i != first && i != second {
                        if i == things.len() - 1 {
                            assert(next[second] == things[i]);
                        } else {
                            assert(next[i] == things[i]);
                        }
                    }
                }
                let f = |thing: T| merging::share(thing, coordinate);
                lemma_sum_after_merge(things, first, second, f);
                lemma_same_terms(
                    things.len() as int,
                    |i: int| f(things[i]),
                    |i: int| merging::share(things[i], coordinate),
                );
                lemma_same_terms(
                    next.len() as int,
                    |i: int| f(next[i]),
                    |i: int| merging::share(next[i], coordinate),
                );
            },
            None => law_moments_are_nearly_kept(things, first + 1, coordinate),
        }
    }
}

/// A number times a sum is the sum of the products.
pub proof fn lemma_scaled_sum(factor: real, count: int, f: spec_fn(int) -> real)
    ensures
        product(factor, sum(count, f)) == sum(count, |i: int| product(factor, f(i))),
    decreases count,
{
    if count > 0 {
        lemma_scaled_sum(factor, count - 1, f);
        estimate::lemma_product_of_sum(factor, sum(count - 1, f), f(count - 1));
    } else {
        estimate::lemma_product_of_nothing(factor);
    }
}

/// The sum of two sums.
pub proof fn lemma_sums_add_up(count: int, f: spec_fn(int) -> real, g: spec_fn(int) -> real)
    ensures
        sum(count, |i: int| f(i) + g(i)) == sum(count, f) + sum(count, g),
    decreases count,
{
    if count > 0 {
        lemma_sums_add_up(count - 1, f, g);
    }
}

/// What estimates, one for each thing and weighted, can be off by together.
pub open spec fn weighted_error<T: Merging>(things: Seq<T>, estimates: spec_fn(int) -> Estimate) -> real {
    sum(
        things.len() as int,
        |i: int| product(size(things[i].weight().number()), estimates(i).error),
    )
}

/// Where each coordinate changes by an estimated amount, the weighted sum changes by the weighted
/// amounts, up to what the estimates are off by.
pub proof fn lemma_moment_shifts<T: Merging>(
    before: Seq<T>,
    after: Seq<T>,
    coordinate: Coordinate,
    estimates: spec_fn(int) -> Estimate,
    shift: spec_fn(int) -> real,
)
    requires
        before.len() == after.len(),
        forall|i: int|
            0 <= i < before.len() ==> (#[trigger] after[i]).weight() == before[i].weight(),
        forall|i: int|
            0 <= i < before.len() ==> (#[trigger] estimates(i)).holds() && estimates(i).computed
                == after[i].along(coordinate) && estimates(i).computed.is_finite()
                && estimates(i).exact == before[i].along(coordinate).number() + shift(i),
    ensures
        size(
            moment(after, coordinate) - moment(before, coordinate) - sum(
                before.len() as int,
                |i: int| product(before[i].weight().number(), shift(i)),
            ),
        ) <= weighted_error(before, estimates),
{
    let n = before.len() as int;
    let old_share = |i: int| merging::share(before[i], coordinate);
    let new_share = |i: int| merging::share(after[i], coordinate);
    let moved = |i: int| product(before[i].weight().number(), shift(i));
    let exact = |i: int| old_share(i) + moved(i);
    let error = |i: int| product(size(before[i].weight().number()), estimates(i).error);
    assert forall|i: int| 0 <= i < n implies size(#[trigger] new_share(i) - exact(i)) <= error(i) by {
        let m = before[i].weight().number();
        let estimate = estimates(i);
        assert(after[i].weight() == before[i].weight());
        estimate::lemma_product_of_sum(m, before[i].along(coordinate).number(), shift(i));
        estimate::lemma_product_of_near(
            m,
            estimate.computed.number(),
            estimate.exact,
            estimate.error,
        );
    }
    lemma_near_terms(n, new_share, exact, error);
    lemma_sums_add_up(n, old_share, moved);
    lemma_same_terms(n, exact, |i: int| old_share(i) + moved(i));
}

/// Where each pair pulls with opposite forces, the weighted accelerations of all cancel out.
pub proof fn lemma_pulls_cancel_out<T: Merging>(
    things: Seq<T>,
    pull: spec_fn(int, int) -> real,
    time: real,
)
    requires
        forall|i: int, j: int|
            0 <= i < things.len() && 0 <= j < things.len() ==> product(
                things[i].weight().number(),
                #[trigger] pull(i, j),
            ) == -product(things[j].weight().number(), pull(j, i)),
    ensures
        sum(
            things.len() as int,
            |i: int|
                product(
                    things[i].weight().number(),
                    product(sum(things.len() as int, |j: int| pull(i, j)), time),
                ),
        ) == 0 as real,
{
    let n = things.len() as int;
    let force = |i: int, j: int| product(things[i].weight().number(), pull(i, j));
    assert forall|i: int, j: int| 0 <= i < n && 0 <= j < n implies #[trigger] force(i, j) == -force(
        j,
        i,
    ) by {
        assert(product(things[i].weight().number(), pull(i, j)) == -product(
            things[j].weight().number(),
            pull(j, i),
        ));
    }
    lemma_pairs_cancel_out(n, force);
    let total = |i: int| sum(n, |j: int| force(i, j));
    let scaled = |i: int| product(time, total(i));
    let terms = |i: int|
        product(
            things[i].weight().number(),
            product(sum(n, |j: int| pull(i, j)), time),
        );
    assert forall|i: int| 0 <= i < n implies #[trigger] terms(i) == scaled(i) by {
        let m = things[i].weight().number();
        let row = |j: int| pull(i, j);
        lemma_scaled_sum(m, n, row);
        lemma_same_terms(n, |j: int| product(m, row(j)), |j: int| force(i, j));
        estimate::lemma_product_of_product(m, sum(n, row), time);
        lemma_same_terms(n, row, |j: int| pull(i, j));
    }
    lemma_same_terms(n, terms, scaled);
    lemma_scaled_sum(time, n, total);
    lemma_same_terms(n, |i: int| product(time, total(i)), scaled);
    lemma_same_terms(n, total, |i: int| sum(n, |j: int| force(i, j)));
    estimate::lemma_product_of_nothing(time);
}

/// The weighted sum of a coordinate, times a number, is the sum of the weighted multiples.
pub proof fn lemma_covered<T: Merging>(things: Seq<T>, coordinate: Coordinate, time: real)
    ensures
        sum(
            things.len() as int,
            |i: int|
                product(
                    things[i].weight().number(),
                    product(things[i].along(coordinate).number(), time),
                ),
        ) == product(time, moment(things, coordinate)),
{
    let n = things.len() as int;
    let shares = |i: int| merging::share(things[i], coordinate);
    let covered = |i: int|
        product(
            things[i].weight().number(),
            product(things[i].along(coordinate).number(), time),
        );
    lemma_scaled_sum(time, n, shares);
    assert forall|i: int| 0 <= i < n implies #[trigger] covered(i) == product(time, shares(i)) by {
        estimate::lemma_product_of_product(
            things[i].weight().number(),
            things[i].along(coordinate).number(),
            time,
        );
    }
    lemma_same_terms(n, covered, |i: int| product(time, shares(i)));
}

} // verus!
