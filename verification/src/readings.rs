//! What the statistics say of the particles that were read back.

use vstd::prelude::*;
use vstd::arithmetic::power2::*;
use crate::binary32::{Binary32, HALF, ZERO};
use crate::estimate;
use crate::gpu::{is_live, Record};
use crate::gpu_state;
use crate::gpu_state::Statistics;
use crate::interface::HUNDRED;
use crate::numbers;
use crate::rounding;
use crate::rounding::{product, size, slack};

verus! {

/// A record is that of a live particle where its mark is one half or more.
pub proof fn law_live_records_are_marked(record: Record)
    requires
        record.alive.is_finite(),
    ensures
        is_live(record) == (record.alive.number() >= 1 as real / 2 as real),
{
    numbers::law_plain_numbers();
    numbers::law_comparisons_order_numbers(Binary32::from_bits(HALF), record.alive);
}

/// So many of the first particles live as are left when the others are taken out.
proof fn lemma_live_are_counted(records: Seq<Record>, upto: int)
    requires
        0 <= upto <= records.len(),
    ensures
        gpu_state::live_among_first(records, upto) == records.take(upto).filter(
            |record: Record| is_live(record),
        ).len(),
    decreases upto,
{
    reveal(Seq::filter);
    if upto > 0 {
        lemma_live_are_counted(records, upto - 1);
        assert(records.take(upto).drop_last() == records.take(upto - 1));
    }
}

/// The heaviest of the first particles is one of them, and none of them is heavier.
proof fn lemma_heaviest(records: Seq<Record>, upto: int)
    requires
        0 <= upto <= records.len(),
        forall|i: int|
            0 <= i < records.len() && is_live(#[trigger] records[i]) ==> !records[i].mass.is_nan(),
    ensures
        match gpu_state::heaviest_among_first(records, upto) {
            Some(best) => {
                &&& exists|i: int| 0 <= i < upto && #[trigger] records[i] == best && is_live(best)
                &&& forall|i: int|
                    0 <= i < upto && is_live(#[trigger] records[i]) ==> records[i].mass.at_most(
                        best.mass,
                    )
            },
            None => forall|i: int| 0 <= i < upto ==> !is_live(#[trigger] records[i]),
        },
    decreases upto,
{
    if upto > 0 {
        lemma_heaviest(records, upto - 1);
        let record = records[upto - 1];
        match gpu_state::heaviest_among_first(records, upto - 1) {
            Some(best) => {
                if is_live(record) && best.mass.less(record.mass) {
                    assert forall|i: int| 0 <= i < upto && is_live(#[trigger] records[i]) implies
                        records[i].mass.at_most(record.mass) by {
                        if i < upto - 1 {
                            assert(records[i].mass.at_most(best.mass));
                        }
                    }
                    assert(records[upto - 1] == record);
                } else {
                    let i = choose|i: int|
                        0 <= i < upto - 1 && #[trigger] records[i] == best && is_live(best);
                    assert(records[i] == best);
                }
            },
            None => {
                assert(records[upto - 1] == record);
            },
        }
    }
}

/// The statistics count the live particles among those that were read back, and show the heaviest
/// of them: no live particle is heavier than the largest mass, and one of them has that mass and
/// lies at the place that is shown. Where none lives, all of it is zero. Masses are numbers.
pub proof fn law_the_heaviest_particle_is_shown(
    before: Statistics,
    records: Seq<Record>,
    total_mass: Binary32,
    now: Binary32,
)
    requires
        records.len() <= usize::MAX,
        forall|i: int|
            0 <= i < records.len() && is_live(#[trigger] records[i]) ==> !records[i].mass.is_nan(),
    ensures
        ({
            let after = before.sampled(records, total_mass, now);
            &&& after.live == records.filter(|record: Record| is_live(record)).len()
            &&& forall|i: int|
                0 <= i < records.len() && is_live(#[trigger] records[i]) ==> {
                    &&& records[i].mass.at_most(after.largest_mass)
                    &&& exists|j: int|
                        0 <= j < records.len() && is_live(#[trigger] records[j])
                            && records[j].mass == after.largest_mass && records[j].x
                            == after.largest_x && records[j].y == after.largest_y
                }
            &&& (forall|i: int| 0 <= i < records.len() ==> !is_live(#[trigger] records[i])) ==> {
                &&& after.largest_mass == Binary32::from_bits(ZERO)
                &&& after.largest_x == Binary32::from_bits(ZERO)
                &&& after.largest_y == Binary32::from_bits(ZERO)
            }
            &&& after.sampled_at == Some(now)
        }),
{
    let n = records.len() as int;
    reveal(Seq::filter);
    lemma_live_are_counted(records, n);
    assert(records.take(n) == records);
    lemma_heaviest(records, n);
    lemma_count_is_bounded(records, n);
    let after = before.sampled(records, total_mass, now);
    assert forall|i: int| 0 <= i < records.len() && is_live(#[trigger] records[i]) implies {
        &&& records[i].mass.at_most(after.largest_mass)
        &&& exists|j: int|
            0 <= j < records.len() && is_live(#[trigger] records[j]) && records[j].mass
                == after.largest_mass && records[j].x == after.largest_x && records[j].y
                == after.largest_y
    } by {
        let best = gpu_state::heaviest_among_first(records, n)->0;
        let j = choose|j: int| 0 <= j < n && #[trigger] records[j] == best && is_live(best);
        assert(is_live(records[j]));
    }
}

/// How far a percentage, times the whole, can be from a hundred times the part.
pub open spec fn percent_error(part: Binary32, whole: Binary32) -> real {
    let fraction = part / whole;
    product(
        slack(fraction * Binary32::from_bits(HUNDRED)) + product(100 as real, slack(fraction)),
        size(whole.number()),
    )
}

/// A percentage of a whole is a hundred times the part over the whole, up to rounding.
pub proof fn law_percentages_are_hundredths(part: Binary32, whole: Binary32)
    requires
        part.is_finite(),
        whole.is_finite(),
        (part / whole * Binary32::from_bits(HUNDRED)).is_finite(),
    ensures
        size(
            product((part / whole * Binary32::from_bits(HUNDRED)).number(), whole.number())
                - product(100 as real, part.number()),
        ) <= percent_error(part, whole),
{
    let fraction = part / whole;
    let percent = fraction * Binary32::from_bits(HUNDRED);
    lemma2_to64();
    numbers::lemma_bits(HUNDRED, 17, 0x2_0000);
    estimate::lemma_products_are_near(fraction, Binary32::from_bits(HUNDRED));
    estimate::lemma_quotients_are_near(part, whole);
    let (p, f, w, m, h) = (
        percent.number(),
        fraction.number(),
        whole.number(),
        part.number(),
        100 as real,
    );
    let (e, d) = (slack(percent), slack(fraction));
    estimate::lemma_products_of_three(w, p, p);
    estimate::lemma_products_of_three(w, product(f, h), h);
    estimate::lemma_product_of_near(w, p, product(f, h), e);
    estimate::lemma_product_of_near(h, product(f, w), m, product(d, size(w)));
    lemma_regrouped(w, f, h, e, d);
}

/// Products in another order.
proof fn lemma_regrouped(w: real, f: real, h: real, e: real, d: real)
    requires
        h >= 0 as real,
    ensures
        product(product(f, h), w) == product(h, product(f, w)),
        product(size(w), e) + product(size(h), product(d, size(w))) == product(
            e + product(h, d),
            size(w),
        ),
{
    reveal(product);
    let s = size(w);
    assert((f * h) * w == h * (f * w)) by (nonlinear_arith);
    assert(s * e + h * (d * s) == (e + h * d) * s) by (nonlinear_arith);
}

/// The largest mass is shown in percent of the mass that the simulation started with: times that
/// mass, it is a hundred times the largest mass, up to rounding.
pub proof fn law_the_largest_mass_is_shown_in_percent(
    before: Statistics,
    records: Seq<Record>,
    total_mass: Binary32,
    now: Binary32,
)
    requires
        total_mass.is_finite(),
        before.sampled(records, total_mass, now).largest_mass.is_finite(),
        before.sampled(records, total_mass, now).largest_percent.is_finite(),
    ensures
        ({
            let after = before.sampled(records, total_mass, now);
            size(
                product(after.largest_percent.number(), total_mass.number()) - product(
                    100 as real,
                    after.largest_mass.number(),
                ),
            ) <= percent_error(after.largest_mass, total_mass)
        }),
{
    law_percentages_are_hundredths(
        before.sampled(records, total_mass, now).largest_mass,
        total_mass,
    );
}

/// How far a rate, times the time, can be from the change.
pub open spec fn rate_error(rate: Binary32, change: Binary32, time: Binary32) -> real {
    product(slack(rate), size(time.number())) + slack(change) + product(
        size(rate.number()),
        slack(time),
    )
}

/// A rate times the time that has passed since the earlier sample is the change, up to rounding:
/// negative where there is less than before. Where no time has passed, or there was no earlier
/// sample, it is zero.
pub proof fn law_rates_are_changes_over_time(
    before: Binary32,
    after: Binary32,
    earlier: Option<Binary32>,
    now: Binary32,
)
    ensures
        ({
            let rate = gpu_state::rate(before, after, earlier, now);
            &&& earlier is None ==> rate.number() == 0 as real
            &&& earlier matches Some(time) ==> (now - time).is_finite() && (after
                - before).is_finite() && rate.is_finite() ==> {
                &&& (now - time).number() > 0 as real ==> size(
                    product(rate.number(), now.number() - time.number()) - (after.number()
                        - before.number()),
                ) <= rate_error(rate, after - before, now - time)
                &&& (now - time).number() <= 0 as real ==> rate.number() == 0 as real
            }
        }),
{
    estimate::lemma_zero();
    let rate = gpu_state::rate(before, after, earlier, now);
    match earlier {
        None => {},
        Some(time) => {
            let (change, passed) = (after - before, now - time);
            if passed.is_finite() && change.is_finite() && rate.is_finite() {
                numbers::law_plain_numbers();
                numbers::law_comparisons_order_numbers(Binary32::from_bits(ZERO), passed);
                rounding::law_differences_are_near(now, time);
                rounding::law_differences_are_near(after, before);
                if passed.number() > 0 as real {
                    estimate::lemma_quotients_are_near(change, passed);
                    estimate::lemma_product_of_near(
                        rate.number(),
                        passed.number(),
                        now.number() - time.number(),
                        slack(passed),
                    );
                }
            }
        },
    }
}

/// The rates of the statistics are those of the number of live particles and of the largest mass,
/// from the sample before.
pub proof fn law_statistics_show_signed_rates(
    before: Statistics,
    records: Seq<Record>,
    total_mass: Binary32,
    now: Binary32,
)
    requires
        before.live <= 0x100_0000,
        records.len() <= 0x100_0000,
    ensures
        ({
            let after = before.sampled(records, total_mass, now);
            let change = Binary32::counted(after.live as nat) - Binary32::counted(
                before.live as nat,
            );
            &&& after.live <= records.len()
            &&& before.sampled_at matches Some(time) ==> (now - time).is_finite() && (now
                - time).number() > 0 as real && change.is_finite() && after.count_rate.is_finite()
                ==> size(
                product(after.count_rate.number(), now.number() - time.number()) - (
                after.live as real - before.live as real),
            ) <= rate_error(after.count_rate, change, now - time)
            &&& before.sampled_at matches Some(time) ==> (now - time).is_finite() && (now
                - time).number() > 0 as real && (after.largest_mass
                - before.largest_mass).is_finite() && after.mass_rate.is_finite() ==> size(
                product(after.mass_rate.number(), now.number() - time.number()) - (
                after.largest_mass.number() - before.largest_mass.number()),
            ) <= rate_error(after.mass_rate, after.largest_mass - before.largest_mass, now - time)
        }),
{
    let after = before.sampled(records, total_mass, now);
    lemma_count_is_bounded(records, records.len() as int);
    numbers::law_counts_are_exact(before.live as nat);
    numbers::law_counts_are_exact(after.live as nat);
    law_rates_are_changes_over_time(
        Binary32::counted(before.live as nat),
        Binary32::counted(after.live as nat),
        before.sampled_at,
        now,
    );
    law_rates_are_changes_over_time(
        before.largest_mass,
        after.largest_mass,
        before.sampled_at,
        now,
    );
}

/// No more particles live than there are.
proof fn lemma_count_is_bounded(records: Seq<Record>, upto: int)
    requires
        0 <= upto,
    ensures
        gpu_state::live_among_first(records, upto) <= upto,
    decreases upto,
{
    if upto > 0 {
        lemma_count_is_bounded(records, upto - 1);
    }
}

} // verus!
