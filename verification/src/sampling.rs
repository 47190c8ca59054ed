//! When particles leave points behind them, which, and how long those stay.

use vstd::prelude::*;
use vstd::arithmetic::power2::*;
use crate::binary32::{Binary32, ONE};
use crate::bodies::Body;
use crate::collision::particle_radius;
use crate::frame::TRAIL_SAMPLE_INTERVAL;
use crate::gpu::{is_live, Record};
use crate::gpu_state;
use crate::numbers;
use crate::rounding;
use crate::rounding::{size, slack};
use crate::timekeeping;
use crate::trails;
use crate::trails::{TrailPoint, Trails, TRAIL_MAX_AGE};

verus! {

/// The time since the last sample after so many samples.
pub open spec fn worn(waited: Binary32, samples: nat) -> Binary32
    decreases samples,
{
    if samples == 0 {
        waited
    } else {
        worn(waited, (samples - 1) as nat) - Binary32::from_bits(TRAIL_SAMPLE_INTERVAL)
    }
}

/// How far that can be from the exact difference.
pub open spec fn wearing_error(waited: Binary32, samples: nat) -> real
    decreases samples,
{
    if samples == 0 {
        0 as real
    } else {
        wearing_error(waited, (samples - 1) as nat) + slack(worn(waited, samples)) + slack(
            Binary32::from_bits(TRAIL_SAMPLE_INTERVAL),
        )
    }
}

/// Every sample uses up 1/45, up to rounding.
proof fn lemma_samples_cost_their_time(waited: Binary32, samples: nat)
    requires
        worn(waited, samples).is_finite(),
    ensures
        waited.is_finite(),
        size(
            worn(waited, samples).number() + samples as real / 45 as real - waited.number(),
        ) <= wearing_error(waited, samples),
    decreases samples,
{
    if samples > 0 {
        let before = worn(waited, (samples - 1) as nat);
        rounding::law_differences_are_near(before, Binary32::from_bits(TRAIL_SAMPLE_INTERVAL));
        lemma_samples_cost_their_time(waited, (samples - 1) as nat);
        timekeeping::law_times_are_as_documented();
        assert(samples as real == (samples - 1) as real + 1 as real);
    }
}

/// Using up the first interval first is using up one more.
proof fn lemma_worn_from_the_start(waited: Binary32, samples: nat)
    ensures
        worn(waited - Binary32::from_bits(TRAIL_SAMPLE_INTERVAL), samples) == worn(
            waited,
            samples + 1,
        ),
    decreases samples,
{
    reveal_with_fuel(worn, 2);
    if samples > 0 {
        lemma_worn_from_the_start(waited, (samples - 1) as nat);
    }
}

/// Samples are taken as long as they are due, and each uses up its interval.
proof fn lemma_samples(waited: Binary32)
    requires
        waited.is_finite(),
        waited.at_most(Binary32::from_bits(ONE)),
    ensures
        trails::time_after_samples(waited) == worn(waited, trails::samples_due(waited)),
        trails::time_after_samples(waited).is_finite(),
        !trails::sample_is_due(trails::time_after_samples(waited)),
    decreases waited.magnitude(),
{
    if trails::sample_is_due(waited) {
        let next = waited - Binary32::from_bits(TRAIL_SAMPLE_INTERVAL);
        trails::lemma_interval_shrinks(waited);
        lemma_samples(next);
        lemma_worn_from_the_start(waited, trails::samples_due(next));
    }
}

/// Particles are sampled every 1/45: what is left of the time since the last sample and 1/45 for
/// every sample of a frame are the time that had passed, up to rounding, and what is left is less
/// than the time between two samples.
pub proof fn law_samples_are_taken_when_they_are_due(waited: Binary32)
    requires
        waited.is_finite(),
        waited.number() <= 1 as real,
    ensures
        ({
            let samples = trails::samples_in_frame(waited);
            let left = trails::time_after_frame(waited);
            &&& left.is_finite()
            &&& size(left.number() + samples as real / 45 as real - waited.number())
                <= wearing_error(waited, samples)
            &&& left.number() < Binary32::from_bits(TRAIL_SAMPLE_INTERVAL).number()
            &&& waited.number() < Binary32::from_bits(TRAIL_SAMPLE_INTERVAL).number() ==> samples
                == 0
        }),
{
    let interval = Binary32::from_bits(TRAIL_SAMPLE_INTERVAL);
    numbers::law_plain_numbers();
    numbers::law_comparisons_order_numbers(waited, Binary32::from_bits(ONE));
    timekeeping::law_times_are_as_documented();
    lemma_samples(waited);
    let samples = trails::samples_in_frame(waited);
    let left = trails::time_after_frame(waited);
    numbers::law_comparisons_order_numbers(interval, left);
    numbers::law_comparisons_order_numbers(interval, waited);
    lemma_samples_cost_their_time(waited, samples);
}

/// A trail point is young as long as it is not 40 old, up to rounding.
pub proof fn law_points_expire_at_40(point: TrailPoint, now: Binary32)
    requires
        (now - point.creation_time).is_finite(),
    ensures
        ({
            let age = now.number() - point.creation_time.number();
            let error = slack(now - point.creation_time);
            &&& age + error < 40 as real ==> trails::is_young(point, now)
                && !gpu_state::has_expired(point, now)
            &&& age - error >= 40 as real ==> !trails::is_young(point, now)
                && gpu_state::has_expired(point, now)
        }),
{
    let limit = Binary32::from_bits(TRAIL_MAX_AGE);
    rounding::law_differences_are_near(now, point.creation_time);
    lemma2_to64();
    numbers::lemma_bits(TRAIL_MAX_AGE, 18, 0x4_0000);
    numbers::law_comparisons_order_numbers(now - point.creation_time, limit);
    numbers::law_comparisons_order_numbers(limit, now - point.creation_time);
}

/// Of points that were left one after the other, just the young ones stay, in their order.
pub proof fn law_just_the_young_points_stay(points: Seq<TrailPoint>, now: Binary32)
    requires
        trails::in_order(points),
        now.is_finite(),
    ensures
        ({
            let left = trails::unexpired(points, now);
            let gone = points.len() - left.len();
            &&& 0 <= gone
            &&& left == points.skip(gone)
            &&& forall|i: int|
                0 <= i < points.len() ==> (trails::is_young(#[trigger] points[i], now) <==> i
                    >= gone)
        }),
    decreases points.len(),
{
    let left = trails::unexpired(points, now);
    let gone = points.len() - left.len();
    trails::law_latest_points_are_left(points, now);
    trails::law_no_expired_point_is_left(points, now);
    assert forall|i: int| gone <= i < points.len() implies trails::is_young(
        #[trigger] points[i],
        now,
    ) by {
        assert(left[i - gone] == points[i]);
    }
    lemma_old_points_go(points, now);
}

/// Points before the first young one are not young.
proof fn lemma_old_points_go(points: Seq<TrailPoint>, now: Binary32)
    ensures
        forall|i: int|
            0 <= i < points.len() - trails::unexpired(points, now).len() ==> !trails::is_young(
                #[trigger] points[i],
                now,
            ),
    decreases points.len(),
{
    if points.len() > 0 && !trails::is_young(points[0], now) {
        let rest = points.skip(1);
        lemma_old_points_go(rest, now);
        assert forall|i: int|
            0 <= i < points.len() - trails::unexpired(points, now).len() implies !trails::is_young(
            #[trigger] points[i],
            now,
        ) by {
            if i > 0 {
                assert(points[i] == rest[i - 1]);
            }
        }
    }
}

/// A point marks the place of a body at a time, as large and as bright as the body.
pub open spec fn marks(point: TrailPoint, body: Body, now: Binary32) -> bool {
    &&& point.x == body.x
    &&& point.y == body.y
    &&& point.radius == particle_radius(body.mass)
    &&& point.brightness == body.brightness
    &&& point.creation_time == now
}

/// Points over and over.
proof fn lemma_repeated(points: Seq<TrailPoint>, times: nat)
    ensures
        trails::repeated(points, times).len() == times * points.len(),
        forall|k: int, i: int|
            0 <= k < times && 0 <= i < points.len() ==> #[trigger] trails::repeated(
                points,
                times,
            )[k * points.len() + i] == points[i],
    decreases times,
{
    if times > 0 {
        let less = (times - 1) as nat;
        lemma_repeated(points, less);
        let n = points.len() as int;
        let before = trails::repeated(points, less);
        let all = trails::repeated(points, times);
        assert(times * n == less * n + n) by (nonlinear_arith)
            requires
                times == less + 1,
        ;
        assert forall|k: int, i: int| 0 <= k < times && 0 <= i < points.len() implies
            #[trigger] all[k * points.len() + i] == points[i] by {
            if k < less {
                assert(k * n + i < less * n) by (nonlinear_arith)
                    requires
                        0 <= k < less,
                        0 <= i < n,
                ;
                assert(0 <= k * n) by (nonlinear_arith)
                    requires
                        0 <= k,
                        0 < n,
                ;
                assert(before[k * points.len() + i] == points[i]);
            } else {
                assert(k == less);
            }
        }
    } else {
        assert(0 * points.len() == 0);
    }
}

/// A frame lets the time of the trails pass, removes the points that have expired, and lets every
/// particle leave a point at the time now, as often as samples are due.
pub proof fn law_trails_follow_the_particles(
    before: Trails,
    after: Trails,
    particles: Seq<Body>,
    frame_time: Binary32,
)
    requires
        after.follows(before, particles, frame_time),
        trails::in_order(before.points@),
        after.clock.now().is_finite(),
    ensures
        ({
            let now = after.clock.now();
            let n = particles.len() as int;
            let samples = trails::samples_in_frame(before.clock.saved() + frame_time);
            let kept = after.points@.len() - samples * n;
            &&& size(now.number() - (before.clock.now().number() + frame_time.number())) <= slack(
                now,
            )
            &&& 0 <= kept <= before.points@.len()
            &&& after.points@.take(kept) == before.points@.skip(before.points@.len() - kept)
            &&& forall|i: int|
                0 <= i < before.points@.len() ==> (trails::is_young(
                    #[trigger] before.points@[i],
                    now,
                ) <==> i >= before.points@.len() - kept)
            &&& forall|k: int, i: int|
                0 <= k < samples && 0 <= i < n ==> marks(
                    #[trigger] after.points@[kept + (k * n + i)],
                    particles[i],
                    now,
                )
            &&& after.clock.saved() == trails::time_after_frame(
                before.clock.saved() + frame_time,
            )
        }),
{
    let now = after.clock.now();
    let n = particles.len() as int;
    let samples = trails::samples_in_frame(before.clock.saved() + frame_time);
    let points = trails::points_of(particles, now);
    let young = trails::unexpired(before.points@, now);
    rounding::law_sums_are_near(before.clock.now(), frame_time);
    law_just_the_young_points_stay(before.points@, now);
    lemma_repeated(points, samples);
    let all = trails::repeated(points, samples);
    assert(after.points@ == young + all);
    let kept = young.len() as int;
    assert(after.points@.take(kept) == young);
    assert forall|k: int, i: int| 0 <= k < samples && 0 <= i < n implies marks(
        #[trigger] after.points@[kept + (k * n + i)],
        particles[i],
        now,
    ) by {
        assert(all[k * points.len() + i] == points[i]);
        assert(0 <= k * n + i < all.len()) by (nonlinear_arith)
            requires
                0 <= k < samples,
                0 <= i < n,
                all.len() == samples * n,
        ;
    }
}

/// The points that live particles of a graphics device leave are those of the live ones, in order,
/// each at its place, as large and as bright as the particle, at the time now.
pub proof fn law_live_records_leave_points(records: Seq<Record>, now: Binary32)
    ensures
        ({
            let live = records.filter(|record: Record| is_live(record));
            let points = gpu_state::points_of_first(records, now, records.len() as int);
            &&& points.len() == live.len()
            &&& forall|i: int|
                0 <= i < live.len() ==> {
                    let point = #[trigger] points[i];
                    &&& point.x == live[i].x
                    &&& point.y == live[i].y
                    &&& point.radius == particle_radius(live[i].mass)
                    &&& point.brightness == live[i].brightness
                    &&& point.creation_time == now
                }
        }),
{
    lemma_points(records, now, records.len() as int);
    assert(records.take(records.len() as int) == records);
}

/// The points of the first live particles.
proof fn lemma_points(records: Seq<Record>, now: Binary32, upto: int)
    requires
        0 <= upto <= records.len(),
    ensures
        ({
            let live = records.take(upto).filter(|record: Record| is_live(record));
            let points = gpu_state::points_of_first(records, now, upto);
            &&& points.len() == live.len()
            &&& forall|i: int|
                0 <= i < live.len() ==> {
                    let point = #[trigger] points[i];
                    &&& point.x == live[i].x
                    &&& point.y == live[i].y
                    &&& point.radius == particle_radius(live[i].mass)
                    &&& point.brightness == live[i].brightness
                    &&& point.creation_time == now
                }
        }),
    decreases upto,
{
    reveal(Seq::filter);
    if upto > 0 {
        lemma_points(records, now, upto - 1);
        assert(records.take(upto).drop_last() == records.take(upto - 1));
    }
}

/// Where there is not enough room for all trail points, the latest stay, as many as there is room
/// for.
pub proof fn law_the_latest_points_fit(points: Seq<TrailPoint>, capacity: int)
    requires
        0 <= capacity,
    ensures
        ({
            let kept = gpu_state::latest(points, capacity);
            &&& kept.len() == if points.len() <= capacity {
                points.len() as int
            } else {
                capacity
            }
            &&& kept == points.skip(points.len() - kept.len())
        }),
{
    assert(points.skip(0) == points);
}

} // verus!
