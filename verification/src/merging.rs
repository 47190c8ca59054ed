//! Merging of things that touch, in one fixed order, whatever they are.
//!
//! Positions are taken in ascending order. A position takes in the first thing behind it that it
//! touches, over and over, until it touches none; the last thing moves into the place of the one
//! that was taken in.

use vstd::prelude::*;
use vstd::arithmetic::div_mod::*;
use vstd::arithmetic::power2::*;
use crate::binary32;
use crate::binary32::Binary32;
use crate::bodies::Coordinate;
use crate::rounding::{product, size};

verus! {

/// Something that merges with others of its kind.
pub trait Merging: Sized {
    /// Whether it touches another one.
    spec fn touches(self, other: Self) -> bool;

    /// What the two become.
    spec fn merged(self, other: Self) -> Self;

    /// How heavy it is.
    spec fn weight(self) -> Binary32;

    /// A coordinate of its place or velocity, or its brightness.
    spec fn along(self, coordinate: Coordinate) -> Binary32;

    /// How much of the weighted sum of a coordinate rounding can cost when the two merge.
    spec fn loss(self, other: Self, coordinate: Coordinate) -> real;

    /// Weights add up.
    proof fn lemma_weights_add_up(self, other: Self)
        ensures
            self.merged(other).weight() == self.weight() + other.weight(),
    ;

    /// Where what two become is finite along a coordinate, so were they, it has some weight, and
    /// they keep the weighted sum of the coordinate up to the loss.
    proof fn lemma_loss(self, other: Self, coordinate: Coordinate)
        requires
            self.merged(other).weight().is_finite(),
            self.merged(other).along(coordinate).is_finite(),
        ensures
            self.along(coordinate).is_finite(),
            other.along(coordinate).is_finite(),
            self.merged(other).weight().number() != 0 as real,
            size(
                product(
                    self.merged(other).weight().number(),
                    self.merged(other).along(coordinate).number(),
                ) - (product(self.weight().number(), self.along(coordinate).number()) + product(
                    other.weight().number(),
                    other.along(coordinate).number(),
                )),
            ) <= self.loss(other, coordinate),
    ;
}

/// What a thing adds to the weighted sum of a coordinate, exactly.
pub open spec fn share<T: Merging>(thing: T, coordinate: Coordinate) -> real {
    product(thing.weight().number(), thing.along(coordinate).number())
}

/// The first position at or after `from` that the one at `first` touches.
pub open spec fn first_contact<T: Merging>(things: Seq<T>, first: int, from: int) -> Option<int>
    decreases things.len() - from,
{
    if from >= things.len() {
        None
    } else if things[first].touches(things[from]) {
        Some(from)
    } else {
        first_contact(things, first, from + 1)
    }
}

/// The sequence with one position vacated and the last thing moved into it.
pub open spec fn without<T>(things: Seq<T>, position: int) -> Seq<T> {
    things.update(position, things.last()).drop_last()
}

/// The sequence after those at two positions have merged into the first.
pub open spec fn pair_merged<T: Merging>(things: Seq<T>, first: int, second: int) -> Seq<T> {
    without(things.update(first, things[first].merged(things[second])), second)
}

/// The sequence after every position from `first` on has, in ascending order, taken in the first
/// thing behind it that it touches until it touches none.
pub open spec fn merged_from<T: Merging>(things: Seq<T>, first: int) -> Seq<T>
    decreases 2 * things.len() - first,
    when 0 <= first
{
    if first >= things.len() {
        things
    } else {
        proof {
            lemma_contact_bounds(things, first, first + 1);
        }
        match first_contact(things, first, first + 1) {
            Some(second) => merged_from(pair_merged(things, first, second), first),
            None => merged_from(things, first + 1),
        }
    }
}

/// A contact that the search finds is the first one.
pub proof fn lemma_contact_bounds<T: Merging>(things: Seq<T>, first: int, from: int)
    ensures
        first_contact(things, first, from) matches Some(second) ==> {
            &&& from <= second < things.len()
            &&& things[first].touches(things[second])
            &&& forall|k: int| from <= k < second ==> !things[first].touches(#[trigger] things[k])
        },
        first_contact(things, first, from) is None ==> forall|k: int|
            from <= k < things.len() ==> !things[first].touches(#[trigger] things[k]),
    decreases things.len() - from,
{
    if from < things.len() && !things[first].touches(things[from]) {
        lemma_contact_bounds(things, first, from + 1);
    }
}

/// Merging leaves no more things than there were, and at least one of any.
pub proof fn law_merging_leaves_some<T: Merging>(things: Seq<T>, first: int)
    requires
        0 <= first,
    ensures
        merged_from(things, first).len() <= things.len(),
        things.len() > 0 ==> merged_from(things, first).len() > 0,
    decreases 2 * things.len() - first,
{
    if first < things.len() {
        lemma_contact_bounds(things, first, first + 1);
        match first_contact(things, first, first + 1) {
            Some(second) => law_merging_leaves_some(pair_merged(things, first, second), first),
            None => law_merging_leaves_some(things, first + 1),
        }
    }
}

/// Things none of which touches one behind it stay as they are.
pub proof fn law_things_apart_stay<T: Merging>(things: Seq<T>, first: int)
    requires
        0 <= first,
        forall|i: int, j: int|
            first <= i < j < things.len() ==> !(#[trigger] things[i]).touches(#[trigger] things[j]),
    ensures
        merged_from(things, first) == things,
    decreases things.len() - first,
{
    if first < things.len() {
        lemma_contact_bounds(things, first, first + 1);
        law_things_apart_stay(things, first + 1);
    }
}

/// Everything in a sequence is of a kind.
pub open spec fn all_are<T>(things: Seq<T>, kind: spec_fn(T) -> bool) -> bool {
    forall|i: int| 0 <= i < things.len() ==> kind(#[trigger] things[i])
}

/// What holds of all things, and of whatever two such things become, holds of all that are left.
pub proof fn law_merging_keeps_kinds<T: Merging>(things: Seq<T>, first: int, kind: spec_fn(T) -> bool)
    requires
        0 <= first,
        all_are(things, kind),
        forall|a: T, b: T| kind(a) && kind(b) ==> kind(#[trigger] a.merged(b)),
    ensures
        all_are(merged_from(things, first), kind),
    decreases 2 * things.len() - first,
{
    if first < things.len() {
        lemma_contact_bounds(things, first, first + 1);
        match first_contact(things, first, first + 1) {
            Some(second) => {
                lemma_pair_keeps_kinds(things, first, second, kind);
                law_merging_keeps_kinds(pair_merged(things, first, second), first, kind);
            },
            None => law_merging_keeps_kinds(things, first + 1, kind),
        }
    }
}

/// One merge leaves things of the same kind.
proof fn lemma_pair_keeps_kinds<T: Merging>(
    things: Seq<T>,
    first: int,
    second: int,
    kind: spec_fn(T) -> bool,
)
    requires
        0 <= first < second < things.len(),
        all_are(things, kind),
        kind(things[first].merged(things[second])),
    ensures
        all_are(pair_merged(things, first, second), kind),
{
    let next = pair_merged(things, first, second);
    let merged = things[first].merged(things[second]);
    assert forall|i: int| 0 <= i < next.len() implies kind(#[trigger] next[i]) by {
        assert(next[i] == merged || next[i] == things[i] || next[i] == things[things.len() - 1]);
    }
}

/// The exact sum of the weights, in units of two to the minus 149.
pub open spec fn total_weight<T: Merging>(things: Seq<T>) -> int
    decreases things.len(),
{
    if things.len() == 0 {
        0
    } else {
        total_weight(things.drop_last()) + things.last().weight().value()
    }
}

/// A weight is a whole number of two to the `q`.
pub open spec fn is_multiple(weight: Binary32, q: nat) -> bool {
    weight.is_finite() && !weight.is_negative() && weight.units() % pow2(q) == 0
}

/// Every weight is a whole number of two to the `q`, and together they need no more than 24 bits
/// beyond it.
pub open spec fn weights_are_short<T: Merging>(things: Seq<T>, q: nat) -> bool {
    &&& forall|i: int| 0 <= i < things.len() ==> is_multiple((#[trigger] things[i]).weight(), q)
    &&& total_weight(things) <= 0x100_0000 * pow2(q)
}

/// Merging keeps the total weight, exactly, where 24 bits hold every partial sum.
pub proof fn law_weight_is_conserved<T: Merging>(things: Seq<T>, first: int, q: nat)
    requires
        0 <= first,
        q <= 252,
        weights_are_short(things, q),
    ensures
        total_weight(merged_from(things, first)) == total_weight(things),
        weights_are_short(merged_from(things, first), q),
    decreases 2 * things.len() - first,
{
    if first < things.len() {
        lemma_contact_bounds(things, first, first + 1);
        match first_contact(things, first, first + 1) {
            Some(second) => {
                lemma_pair_keeps_weight(things, first, second, q);
                law_weight_is_conserved(pair_merged(things, first, second), first, q);
            },
            None => law_weight_is_conserved(things, first + 1, q),
        }
    }
}

/// One merge keeps the total weight.
proof fn lemma_pair_keeps_weight<T: Merging>(things: Seq<T>, first: int, second: int, q: nat)
    requires
        0 <= first < second < things.len(),
        q <= 252,
        weights_are_short(things, q),
    ensures
        total_weight(pair_merged(things, first, second)) == total_weight(things),
        weights_are_short(pair_merged(things, first, second), q),
{
    let (a, b) = (things[first].weight(), things[second].weight());
    let merged = things[first].merged(things[second]);
    let next = pair_merged(things, first, second);
    let w = pow2(q);
    lemma_pow2_pos(q);
    things[first].lemma_weights_add_up(things[second]);
    lemma_total_without(things, second);
    lemma_total_without(things.update(first, merged), second);
    lemma_total_update(things, first, merged);
    let rest = without(things, second);
    assert(rest[first] == things[first]);
    assert(is_multiple(a, q) && is_multiple(b, q));
    assert forall|i: int| 0 <= i < rest.len() implies (#[trigger] rest[i]).weight().value() >= 0 by {
        assert(is_multiple(things[i].weight(), q));
        assert(is_multiple(things[things.len() - 1].weight(), q));
    }
    lemma_total_covers(rest, first);
    lemma_fundamental_div_mod(a.units() as int, w as int);
    lemma_fundamental_div_mod(b.units() as int, w as int);
    let (ka, kb) = (a.units() / w, b.units() / w);
    let k = ka + kb;
    assert(a.value() + b.value() == k * w) by (nonlinear_arith)
        requires
            a.value() == w * ka,
            b.value() == w * kb,
            k == ka + kb;
    assert(k <= 0x100_0000) by (nonlinear_arith)
        requires
            k * w <= 0x100_0000 * w,
            w > 0;
    binary32::law_short_sums_are_exact(a, b, k, q);
    assert(is_multiple(merged.weight(), q)) by {
        assert(merged.weight().units() == k * w);
        lemma_mod_multiples_basic(k as int, w as int);
    }
    assert forall|i: int| 0 <= i < next.len() implies is_multiple((#[trigger] next[i]).weight(), q) by {
        assert(next[i] == merged || next[i] == things[i] || next[i] == things[things.len() - 1]);
    }
}

/// Replacing one thing changes the total weight by the difference of the two weights.
proof fn lemma_total_update<T: Merging>(things: Seq<T>, position: int, thing: T)
    requires
        0 <= position < things.len(),
    ensures
        total_weight(things.update(position, thing)) == total_weight(things)
            - things[position].weight().value() + thing.weight().value(),
    decreases things.len(),
{
    let updated = things.update(position, thing);
    if position == things.len() - 1 {
        assert(updated.drop_last() == things.drop_last());
    } else {
        assert(updated.drop_last() == things.drop_last().update(position, thing));
        lemma_total_update(things.drop_last(), position, thing);
    }
}

/// Taking one thing out lowers the total weight by its weight.
proof fn lemma_total_without<T: Merging>(things: Seq<T>, position: int)
    requires
        0 <= position < things.len(),
    ensures
        total_weight(without(things, position)) == total_weight(things)
            - things[position].weight().value(),
{
    let moved = things.update(position, things.last());
    lemma_total_update(things, position, things.last());
    assert(moved.last() == things.last());
}

/// The total of weights none of which is negative is no less than any of them.
proof fn lemma_total_covers<T: Merging>(things: Seq<T>, position: int)
    requires
        forall|i: int| 0 <= i < things.len() ==> (#[trigger] things[i]).weight().value() >= 0,
        0 <= position < things.len(),
    ensures
        total_weight(things) >= things[position].weight().value(),
    decreases things.len(),
{
    let front = things.drop_last();
    assert forall|i: int| 0 <= i < front.len() implies (#[trigger] front[i]).weight().value() >= 0 by {
        assert(front[i] == things[i]);
    }
    assert(things[things.len() - 1].weight().value() >= 0);
    if position < front.len() {
        lemma_total_covers(front, position);
    } else if front.len() > 0 {
        lemma_total_covers(front, 0);
        assert(front[0].weight().value() >= 0);
    } else {
        assert(total_weight(front) == 0);
    }
}

/// Two sequences with the same weights have the same total weight.
pub(crate) proof fn lemma_total_of_same_weights<T: Merging>(a: Seq<T>, b: Seq<T>)
    requires
        a.len() == b.len(),
        forall|i: int| 0 <= i < a.len() ==> (#[trigger] a[i]).weight() == b[i].weight(),
    ensures
        total_weight(a) == total_weight(b),
    decreases a.len(),
{
    if a.len() > 0 {
        assert(a[a.len() - 1].weight() == b[a.len() - 1].weight());
        lemma_total_of_same_weights(a.drop_last(), b.drop_last());
    }
}

} // verus!
