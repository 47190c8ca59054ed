//! What the display says of a cloud: its mass, its heaviest particle and its centre, in numbers.

use vstd::prelude::*;
use vstd::arithmetic::power2::*;
use crate::balance;
use crate::binary32::{Binary32, ZERO};
use crate::bodies;
use crate::bodies::{Body, Coordinate, EPSILON};
use crate::centring;
use crate::estimate;
use crate::interface;
use crate::interface::HUNDRED;
use crate::merging;
use crate::merging::Merging;
use crate::numbers;
use crate::readings;
use crate::rounding;
use crate::rounding::{product, size, slack};
use crate::wasm;

verus! {

/// The mass of some bodies is the sum of their masses, up to rounding.
pub proof fn law_masses_add_up(bodies: Seq<Body>)
    requires
        bodies::mass_of(bodies).is_finite(),
    ensures
        size(
            bodies::mass_of(bodies).number() - balance::sum(
                bodies.len() as int,
                |i: int| bodies[i].mass.number(),
            ),
        ) <= centring::mass_estimate(bodies, bodies.len() as int).error,
{
    centring::lemma_mass_estimate(bodies, bodies.len() as int);
    balance::lemma_same_terms(
        bodies.len() as int,
        |i: int| bodies[i].weight().number(),
        |i: int| bodies[i].mass.number(),
    );
}

/// The largest mass of some bodies is that of one of them, or zero, and none is heavier.
pub proof fn law_no_body_is_heavier_than_the_largest_mass(bodies: Seq<Body>, upto: int)
    requires
        0 <= upto <= bodies.len(),
        forall|i: int| 0 <= i < bodies.len() ==> !(#[trigger] bodies[i]).mass.is_nan(),
    ensures
        ({
            let largest = bodies::largest_of_first(bodies, upto);
            &&& Binary32::from_bits(ZERO).at_most(largest)
            &&& forall|i: int|
                0 <= i < upto ==> (#[trigger] bodies[i]).mass.at_most(largest)
            &&& largest == Binary32::from_bits(ZERO) || exists|i: int|
                0 <= i < upto && (#[trigger] bodies[i]).mass == largest
        }),
    decreases upto,
{
    if upto > 0 {
        law_no_body_is_heavier_than_the_largest_mass(bodies, upto - 1);
        let before = bodies::largest_of_first(bodies, upto - 1);
        let body = bodies[upto - 1];
        assert forall|i: int| 0 <= i < upto implies (#[trigger] bodies[i]).mass.at_most(
            before.max(body.mass),
        ) by {
            if i < upto - 1 {
                assert(bodies[i].mass.at_most(before));
            }
        }
        if !before.less(body.mass) && before != Binary32::from_bits(ZERO) {
            let i = choose|i: int| 0 <= i < upto - 1 && (#[trigger] bodies[i]).mass == before;
            assert(bodies[i].mass == before);
        } else {
            assert(bodies[upto - 1].mass == body.mass);
        }
    }
}

/// How far the mean of a coordinate times the exact mass can be from the exact weighted sum.
pub open spec fn mean_error(bodies: Seq<Body>, coordinate: Coordinate) -> real {
    let mean = bodies::mean_of(bodies, coordinate);
    product(slack(mean), size(bodies::mass_of(bodies).number())) + centring::moment_estimate(
        bodies,
        coordinate,
        bodies.len() as int,
    ).error + product(
        size(mean.number()),
        centring::mass_estimate(bodies, bodies.len() as int).error,
    )
}

/// The mean of a coordinate of some bodies times their mass is the sum of the coordinate times the
/// mass of each, up to rounding: that of the places is the centre of mass.
pub proof fn law_means_are_weighted_by_mass(bodies: Seq<Body>, coordinate: Coordinate)
    requires
        bodies::mass_of(bodies).is_finite(),
        bodies::moment_of_first(bodies, coordinate, bodies.len() as int).is_finite(),
        bodies::mean_of(bodies, coordinate).is_finite(),
    ensures
        size(
            product(
                bodies::mean_of(bodies, coordinate).number(),
                balance::sum(bodies.len() as int, |i: int| bodies[i].mass.number()),
            ) - balance::sum(
                bodies.len() as int,
                |i: int| product(bodies[i].mass.number(), bodies[i].along(coordinate).number()),
            ),
        ) <= mean_error(bodies, coordinate),
{
    let n = bodies.len() as int;
    let mean = bodies::mean_of(bodies, coordinate);
    let mass = bodies::mass_of(bodies);
    let moment = bodies::moment_of_first(bodies, coordinate, n);
    centring::lemma_moment_estimate(bodies, coordinate, n);
    law_masses_add_up(bodies);
    centring::lemma_mass_estimate(bodies, n);
    balance::lemma_same_terms(
        n,
        |i: int| merging::share(bodies[i], coordinate),
        |i: int| product(bodies[i].mass.number(), bodies[i].along(coordinate).number()),
    );
    estimate::lemma_quotients_are_near(moment, mass);
    estimate::lemma_product_of_near(
        mean.number(),
        mass.number(),
        balance::sum(n, |i: int| bodies[i].mass.number()),
        centring::mass_estimate(bodies, n).error,
    );
}

/// A scalar cloud is weightless where its mass is no more than two to the minus 23.
pub proof fn law_weightless_clouds_weigh_next_to_nothing(bodies: Seq<Body>)
    requires
        bodies::mass_of(bodies).is_finite(),
    ensures
        wasm::weightless(bodies) <==> bodies::mass_of(bodies).number() <= 1 as real
            / 0x80_0000 as real,
{
    lemma2_to64();
    lemma2_to64_rest();
    numbers::lemma_bits(EPSILON, 46, 0x4000_0000_0000);
    numbers::law_comparisons_order_numbers(bodies::mass_of(bodies), Binary32::from_bits(EPSILON));
}

/// The display shows how many particles there are, what they weigh, what the heaviest weighs and
/// what percentage of all that is, where the centre of mass is unless they weigh too little, and
/// what percentage started clockwise; the rest started counterclockwise.
pub proof fn law_readouts_say_what_there_is(
    particles: Seq<Body>,
    clockwise_fraction: Binary32,
    threshold: Binary32,
    weightless: bool,
)
    requires
        particles.len() <= usize::MAX,
    ensures
        ({
            let readout = interface::readout_of(
                particles,
                clockwise_fraction,
                threshold,
                weightless,
            );
            let clockwise = readout.clockwise_percent;
            &&& readout.particles == particles.len()
            &&& readout.total_mass == bodies::mass_of(particles)
            &&& readout.largest_mass == bodies::largest_of_first(
                particles,
                particles.len() as int,
            )
            &&& threshold.less(readout.total_mass) && readout.total_mass.is_finite()
                && readout.largest_mass.is_finite() && readout.largest_mass_percent.is_finite()
                ==> size(
                product(readout.largest_mass_percent.number(), readout.total_mass.number())
                    - product(100 as real, readout.largest_mass.number()),
            ) <= readings::percent_error(readout.largest_mass, readout.total_mass)
            &&& !threshold.less(readout.total_mass) ==> readout.largest_mass_percent.number()
                == 0 as real
            &&& !weightless ==> readout.center_of_mass == (
                bodies::mean_of(particles, Coordinate::X),
                bodies::mean_of(particles, Coordinate::Y),
            )
            &&& weightless ==> readout.center_of_mass.0.number() == 0 as real
                && readout.center_of_mass.1.number() == 0 as real
            &&& clockwise.is_finite() ==> size(
                clockwise.number() - product(clockwise_fraction.number(), 100 as real),
            ) <= slack(clockwise)
            &&& readout.counterclockwise_percent.is_finite() ==> size(
                clockwise.number() + readout.counterclockwise_percent.number() - 100 as real,
            ) <= slack(readout.counterclockwise_percent)
        }),
{
    let hundred = Binary32::from_bits(HUNDRED);
    let readout = interface::readout_of(particles, clockwise_fraction, threshold, weightless);
    lemma2_to64();
    numbers::lemma_bits(HUNDRED, 17, 0x2_0000);
    estimate::lemma_zero();
    if threshold.less(readout.total_mass) && readout.total_mass.is_finite()
        && readout.largest_mass.is_finite() && readout.largest_mass_percent.is_finite() {
        readings::law_percentages_are_hundredths(readout.largest_mass, readout.total_mass);
    }
    if readout.clockwise_percent.is_finite() {
        estimate::lemma_products_are_near(clockwise_fraction, hundred);
    }
    if readout.counterclockwise_percent.is_finite() {
        rounding::law_differences_are_near(hundred, readout.clockwise_percent);
    }
}

} // verus!
