//! Trails: places where particles have been, which fade and expire.
//!
//! Trail points are independent of the particles. When particles merge, what they left behind
//! stays.

use std::collections::VecDeque;
use vstd::prelude::*;
use vstd::arithmetic::power2::*;
use crate::binary32;
use crate::binary32::{Binary32, ONE, ZERO};
use crate::bodies::Body;
use crate::collision::particle_radius;
use crate::frame::{FRAME_TIME_MAX, TRAIL_SAMPLE_INTERVAL};
use crate::magnitude;

verus! {

/// The age at which a trail point expires: 40.
pub const TRAIL_MAX_AGE: u32 = 0x4220_0000;

/// A place where a particle has been.
#[derive(Clone, Copy, Debug, PartialEq)]
pub struct TrailPoint {
    pub x: Binary32,
    pub y: Binary32,
    pub radius: Binary32,
    pub brightness: Binary32,
    pub creation_time: Binary32,
}

/// The trail point that a body leaves.
pub open spec fn point_of(body: Body, now: Binary32) -> TrailPoint {
    TrailPoint {
        x: body.x,
        y: body.y,
        radius: particle_radius(body.mass),
        brightness: body.brightness,
        creation_time: now,
    }
}

/// The trail points that all bodies leave.
pub open spec fn points_of(bodies: Seq<Body>, now: Binary32) -> Seq<TrailPoint> {
    bodies.map(|i: int, body: Body| point_of(body, now))
}

/// Lets every particle leave a trail point.
pub fn add_trail_points(trails: &mut VecDeque<TrailPoint>, particles: &[Body], trail_clock: Binary32)
    ensures
        final(trails)@ == old(trails)@ + points_of(particles@, trail_clock),
{
    trails.reserve(particles.len());
    let ghost before = trails@;
    let mut i: usize = 0;
    while i < particles.len()
        invariant
            i <= particles.len(),
            trails@ == before + points_of(particles@, trail_clock).take(i as int),
        decreases particles.len() - i,
    {
        let particle = particles[i];
        trails.push_back(
            TrailPoint {
                x: particle.x,
                y: particle.y,
                radius: particle_radius(particle.mass),
                brightness: particle.brightness,
                creation_time: trail_clock,
            },
        );
        i = i + 1;
        assert(points_of(particles@, trail_clock).take(i as int) == points_of(
            particles@,
            trail_clock,
        ).take(i - 1).push(point_of(particle, trail_clock)));
    }
    assert(points_of(particles@, trail_clock).take(i as int) == points_of(particles@, trail_clock));
}

/// Whether a trail point is young enough to stay.
#[verifier::allow_in_spec]
pub fn is_young(point: TrailPoint, now: Binary32) -> bool
    returns
        (now - point.creation_time).less(Binary32::from_bits(TRAIL_MAX_AGE)),
{
    (now - point.creation_time).less(Binary32::from_bits(TRAIL_MAX_AGE))
}

/// The trail points from the first young one on.
pub open spec fn unexpired(trails: Seq<TrailPoint>, now: Binary32) -> Seq<TrailPoint>
    decreases trails.len(),
{
    if trails.len() == 0 || is_young(trails[0], now) {
        trails
    } else {
        unexpired(trails.skip(1), now)
    }
}

/// Removes trail points from the front until the first is young enough to stay.
pub fn remove_expired_trails(trails: &mut VecDeque<TrailPoint>, trail_clock: Binary32)
    ensures
        final(trails)@ == unexpired(old(trails)@, trail_clock),
{
    while trails.len() > 0 && !is_young(trails[0], trail_clock)
        invariant
            unexpired(trails@, trail_clock) == unexpired(old(trails)@, trail_clock),
        decreases trails.len(),
    {
        let ghost before = trails@;
        trails.pop_front();
        assert(trails@ == before.skip(1));
    }
}

/// What is left of the trails are the latest points, in their order.
pub proof fn law_latest_points_are_left(trails: Seq<TrailPoint>, now: Binary32)
    ensures
        unexpired(trails, now).len() <= trails.len(),
        unexpired(trails, now) == trails.skip(trails.len() - unexpired(trails, now).len()),
    decreases trails.len(),
{
    if trails.len() > 0 && !is_young(trails[0], now) {
        let rest = trails.skip(1);
        law_latest_points_are_left(rest, now);
        let left = unexpired(rest, now);
        assert(trails.skip(trails.len() - left.len()) == rest.skip(rest.len() - left.len()));
    } else {
        assert(trails.skip(0) == trails);
    }
}

/// The points were left one after the other.
pub open spec fn in_order(trails: Seq<TrailPoint>) -> bool {
    &&& forall|i: int| 0 <= i < trails.len() ==> (#[trigger] trails[i]).creation_time.is_finite()
    &&& forall|i: int, j: int|
        0 <= i <= j < trails.len() ==> (#[trigger] trails[i]).creation_time.at_most(
            (#[trigger] trails[j]).creation_time,
        )
}

/// Among points that were left one after the other, all that are not removed are young.
pub proof fn law_no_expired_point_is_left(trails: Seq<TrailPoint>, now: Binary32)
    requires
        in_order(trails),
        now.is_finite(),
    ensures
        forall|i: int|
            0 <= i < unexpired(trails, now).len() ==> is_young(
                #[trigger] unexpired(trails, now)[i],
                now,
            ),
    decreases trails.len(),
{
    if trails.len() > 0 {
        if is_young(trails[0], now) {
            assert(unexpired(trails, now) == trails);
            assert forall|i: int| 0 <= i < trails.len() implies is_young(#[trigger] trails[i], now) by {
                binary32::law_subtraction_reverses_order(
                    now,
                    trails[0].creation_time,
                    trails[i].creation_time,
                );
            }
        } else {
            let rest = trails.skip(1);
            assert forall|i: int| 0 <= i < rest.len() implies (
            #[trigger] rest[i]).creation_time.is_finite() by {
                assert(rest[i] == trails[i + 1]);
            }
            assert forall|i: int, j: int| 0 <= i <= j < rest.len() implies (
            #[trigger] rest[i]).creation_time.at_most((#[trigger] rest[j]).creation_time) by {
                assert(rest[i] == trails[i + 1]);
                assert(rest[j] == trails[j + 1]);
            }
            law_no_expired_point_is_left(rest, now);
            assert(unexpired(trails, now) == unexpired(rest, now));
        }
    }
}

/// Points that are left at a time no earlier than all others keep the order.
pub proof fn law_added_points_keep_the_order(trails: Seq<TrailPoint>, bodies: Seq<Body>, now: Binary32)
    requires
        in_order(trails),
        now.is_finite(),
        forall|i: int| 0 <= i < trails.len() ==> (#[trigger] trails[i]).creation_time.at_most(now),
    ensures
        in_order(trails + points_of(bodies, now)),
        forall|i: int|
            0 <= i < (trails + points_of(bodies, now)).len() ==> (#[trigger] (trails + points_of(
                bodies,
                now,
            ))[i]).creation_time.at_most(now),
{
    let longer = trails + points_of(bodies, now);
    assert forall|i: int| 0 <= i < longer.len() implies {
        let time = (#[trigger] longer[i]).creation_time;
        time.is_finite() && time.at_most(now)
    } by {
        assert(longer[i] == trails[i] || longer[i].creation_time == now);
        if i < trails.len() {
            assert(longer[i] == trails[i]);
        }
    }
    assert forall|i: int, j: int| 0 <= i <= j < longer.len() implies (
    #[trigger] longer[i]).creation_time.at_most((#[trigger] longer[j]).creation_time) by {
        if j < trails.len() {
            assert(longer[i] == trails[i] && longer[j] == trails[j]);
        } else {
            assert(longer[j].creation_time == now);
            assert(longer[i].creation_time.at_most(now));
        }
    }
}

/// Whether enough time has passed for another sample.
#[verifier::allow_in_spec]
pub fn sample_is_due(saved: Binary32) -> bool
    returns
        Binary32::from_bits(TRAIL_SAMPLE_INTERVAL).at_most(saved),
{
    Binary32::from_bits(TRAIL_SAMPLE_INTERVAL).at_most(saved)
}

/// Taking a sample's interval away from a time of no more than one leaves less.
pub proof fn lemma_interval_shrinks(saved: Binary32)
    requires
        sample_is_due(saved),
        saved.at_most(Binary32::from_bits(ONE)),
    ensures
        ({
            let left = saved - Binary32::from_bits(TRAIL_SAMPLE_INTERVAL);
            &&& left.magnitude() < saved.magnitude()
            &&& left.at_most(Binary32::from_bits(ONE))
        }),
{
    reveal(Binary32::spec_sub);
    reveal(Binary32::spec_add);
    let interval = Binary32::from_bits(TRAIL_SAMPLE_INTERVAL);
    let one = Binary32::from_bits(ONE);
    assert(magnitude::units(0) == 0 * pow2(0));
    magnitude::lemma_units_order(0, TRAIL_SAMPLE_INTERVAL as nat);
    assert(!saved.is_negative());
    binary32::law_at_most_a_finite_number(saved, one);
    binary32::law_bits_order_numbers(saved, one);
    let c = saved.magnitude() as nat;
    magnitude::lemma_units_order(0, c);
    let n = (saved.units() - interval.units()) as nat;
    let left = saved - interval;
    assert(interval.opposite().value() == -interval.value());
    if n == 0 {
        binary32::lemma_signed(false, 0);
        assert(left == Binary32::signed(false, 0));
        binary32::law_bits_order_numbers(left, one);
    } else {
        let code = magnitude::round(n, 1);
        magnitude::lemma_round_exists(n, 1);
        magnitude::lemma_round_exact(c);
        magnitude::lemma_round_exists(magnitude::units(c), 1);
        magnitude::lemma_round_monotone(n, 1, code, magnitude::units(c), 1, c);
        if code == c {
            let below = (c - 1) as nat;
            magnitude::lemma_successor(below);
            lemma2_to64();
            if magnitude::quantum(below) < 125 {
                lemma_pow2_strictly_increases(magnitude::quantum(below), 125);
            }
            lemma_pow2_pos(120);
            lemma_pow2_adds(120, 5);
            assert(interval.units() == 0xB6_0B61 * pow2(120));
            assert(magnitude::rounds_to(n, 1, c));
            assert(magnitude::units(below) + magnitude::units(c) <= 2 * n);
            assert(2 * interval.units() <= pow2(magnitude::quantum(below)));
            assert(below / 0x80_0000 <= 126);
            assert(pow2(magnitude::quantum(below)) <= pow2(125));
            assert(pow2(5) == 32);
            let (i, p) = (interval.units(), pow2(120));
            assert(2 * i > p * 32) by (nonlinear_arith)
                requires
                    i == 0xB6_0B61 * p,
                    p > 0;
        }
        binary32::lemma_signed(false, code);
        assert(left == Binary32::signed(false, code));
        binary32::law_bits_order_numbers(left, one);
    }
}

/// How many samples are due.
pub open spec fn samples_due(saved: Binary32) -> nat
    decreases saved.magnitude(),
    when saved.at_most(Binary32::from_bits(ONE))
{
    if sample_is_due(saved) {
        proof {
            lemma_interval_shrinks(saved);
        }
        1 + samples_due(saved - Binary32::from_bits(TRAIL_SAMPLE_INTERVAL))
    } else {
        0
    }
}

/// The time saved up after the samples that are due.
pub open spec fn time_after_samples(saved: Binary32) -> Binary32
    decreases saved.magnitude(),
    when saved.at_most(Binary32::from_bits(ONE))
{
    if sample_is_due(saved) {
        proof {
            lemma_interval_shrinks(saved);
        }
        time_after_samples(saved - Binary32::from_bits(TRAIL_SAMPLE_INTERVAL))
    } else {
        saved
    }
}

/// The time of the trails.
pub struct TrailClock {
    now: Binary32,
    saved: Binary32,
}

impl TrailClock {
    /// The time since the start.
    pub closed spec fn now(self) -> Binary32 {
        self.now
    }

    /// The time since the last sample.
    pub closed spec fn saved(self) -> Binary32 {
        self.saved
    }

    /// No sample is overdue.
    #[verifier::type_invariant]
    spec fn no_sample_is_due(self) -> bool {
        self.saved.less(Binary32::from_bits(TRAIL_SAMPLE_INTERVAL))
    }

    /// A clock that starts.
    pub fn new() -> (clock: TrailClock)
        ensures
            clock.now() == Binary32::from_bits(ZERO),
            clock.saved() == Binary32::from_bits(ZERO),
    {
        proof {
            binary32::law_bits_order_numbers(
                Binary32::from_bits(ZERO),
                Binary32::from_bits(TRAIL_SAMPLE_INTERVAL),
            );
        }
        TrailClock { now: Binary32::from_bits(ZERO), saved: Binary32::from_bits(ZERO) }
    }

    /// The time since the start.
    pub fn time(&self) -> (now: Binary32)
        ensures
            now == self.now(),
    {
        self.now
    }

    /// Lets a frame pass and hands back how many samples are due.
    pub fn tick(&mut self, frame_time: Binary32) -> (samples: u32)
        requires
            frame_time.at_most(Binary32::from_bits(FRAME_TIME_MAX)),
        ensures
            final(self).now() == old(self).now() + frame_time,
            samples == samples_in_frame(old(self).saved() + frame_time),
            final(self).saved() == time_after_frame(old(self).saved() + frame_time),
    {
        proof {
            use_type_invariant(&*self);
            lemma_frame_fits(self.saved, frame_time);
        }
        let ghost sum = self.saved + frame_time;
        let mut saved = self.saved + frame_time;
        let mut samples: u32 = 0;
        while sample_is_due(saved)
            invariant
                sum.at_most(Binary32::from_bits(ONE)),
                saved.at_most(Binary32::from_bits(ONE)),
                samples + samples_due(saved) == samples_due(sum),
                time_after_samples(saved) == time_after_samples(sum),
                samples + saved.magnitude() <= sum.magnitude(),
            decreases saved.magnitude(),
        {
            proof {
                lemma_interval_shrinks(saved);
            }
            saved = saved - Binary32::from_bits(TRAIL_SAMPLE_INTERVAL);
            samples = samples + 1;
        }
        *self = TrailClock { now: self.now + frame_time, saved };
        samples
    }
}

/// The same points over and over.
pub open spec fn repeated(points: Seq<TrailPoint>, times: nat) -> Seq<TrailPoint>
    decreases times,
{
    if times == 0 {
        Seq::empty()
    } else {
        repeated(points, (times - 1) as nat) + points
    }
}

/// How many samples a frame takes after the given time without one.
pub open spec fn samples_in_frame(waited: Binary32) -> nat {
    if sample_is_due(waited) {
        samples_due(waited)
    } else {
        0
    }
}

/// The time since the last sample after the samples of a frame.
pub open spec fn time_after_frame(waited: Binary32) -> Binary32 {
    if sample_is_due(waited) {
        time_after_samples(waited)
    } else {
        waited
    }
}

/// The trails and their time.
pub struct Trails {
    pub points: VecDeque<TrailPoint>,
    pub clock: TrailClock,
}

impl Trails {
    /// No trails, at the start of their time.
    pub open spec fn is_fresh(self) -> bool {
        &&& self.points@ == Seq::<TrailPoint>::empty()
        &&& self.clock.now() == Binary32::from_bits(ZERO)
        &&& self.clock.saved() == Binary32::from_bits(ZERO)
    }

    /// What a frame of some time makes of the trails: old points expire, and the particles leave
    /// new ones as often as samples are due.
    pub open spec fn follows(self, before: Trails, particles: Seq<Body>, frame_time: Binary32) -> bool {
        let now = before.clock.now() + frame_time;
        let waited = before.clock.saved() + frame_time;
        &&& self.clock.now() == now
        &&& self.clock.saved() == time_after_frame(waited)
        &&& self.points@ == unexpired(before.points@, now) + repeated(
            points_of(particles, now),
            samples_in_frame(waited),
        )
    }

    /// No trails.
    pub fn new() -> (trails: Trails)
        ensures
            trails.is_fresh(),
    {
        Trails { points: VecDeque::new(), clock: TrailClock::new() }
    }

    /// Removes all trails and starts their time over.
    pub fn clear(&mut self)
        ensures
            final(self).is_fresh(),
    {
        self.points.clear();
        self.clock = TrailClock::new();
    }

    /// Lets a frame pass.
    pub fn pass(&mut self, particles: &[Body], frame_time: Binary32)
        requires
            frame_time.at_most(Binary32::from_bits(FRAME_TIME_MAX)),
        ensures
            final(self).follows(*old(self), particles@, frame_time),
    {
        let samples = self.clock.tick(frame_time);
        let now = self.clock.time();
        remove_expired_trails(&mut self.points, now);
        let ghost kept = self.points@;
        let ghost clock = self.clock;
        let mut taken: u32 = 0;
        while taken < samples
            invariant
                taken <= samples,
                self.clock == clock,
                self.points@ == kept + repeated(points_of(particles@, now), taken as nat),
            decreases samples - taken,
        {
            add_trail_points(&mut self.points, particles, now);
            taken = taken + 1;
            assert(self.points@ == kept + repeated(points_of(particles@, now), taken as nat));
        }
    }
}

/// The time since the last sample and the time of a frame together are no more than one.
proof fn lemma_frame_fits(saved: Binary32, frame_time: Binary32)
    requires
        saved.less(Binary32::from_bits(TRAIL_SAMPLE_INTERVAL)),
        frame_time.at_most(Binary32::from_bits(FRAME_TIME_MAX)),
    ensures
        (saved + frame_time).at_most(Binary32::from_bits(ONE)),
{
    reveal(Binary32::spec_add);
    let interval = Binary32::from_bits(TRAIL_SAMPLE_INTERVAL);
    let limit = Binary32::from_bits(FRAME_TIME_MAX);
    let one = Binary32::from_bits(ONE);
    let w = pow2(120);
    lemma2_to64();
    lemma_pow2_pos(120);
    lemma_pow2_adds(120, 2);
    lemma_pow2_adds(120, 6);
    assert(interval.units() == 0xB6_0B61 * w);
    assert(limit.units() == 0xCC_CCCD * (w * 4));
    assert(one.units() == 0x80_0000 * (w * 64));
    if saved.is_finite() && frame_time.is_finite() {
        binary32::law_bounded_sums_stay_bounded(saved, frame_time, one);
    } else {
        magnitude::lemma_units_order(TRAIL_SAMPLE_INTERVAL as nat, magnitude::INFINITY as nat);
        magnitude::lemma_units_order(FRAME_TIME_MAX as nat, magnitude::INFINITY as nat);
        magnitude::lemma_units_order(ONE as nat, magnitude::INFINITY as nat);
    }
}

} // verus!
