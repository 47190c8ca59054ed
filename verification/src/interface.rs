//! The numbers and words of the display over a simulation.

use vstd::prelude::*;
use crate::binary32::{Binary32, ZERO};
use crate::bodies;
use crate::bodies::{Body, Coordinate, Pair, EPSILON};
use crate::simd::Particles;
use crate::wasm;

verus! {

/// One hundred.
pub const HUNDRED: u32 = 0x42C8_0000;

/// What the display says of a cloud.
#[derive(Clone, Copy, Debug, PartialEq)]
pub struct Readout {
    pub particles: usize,
    pub total_mass: Binary32,
    pub largest_mass: Binary32,
    pub largest_mass_percent: Binary32,
    pub center_of_mass: Pair,
    pub clockwise_percent: Binary32,
    pub counterclockwise_percent: Binary32,
}

/// What the display says of some particles, where no percentage is given for a total mass that is
/// not above a threshold, and no centre if the particles weigh too little.
pub open spec fn readout_of(
    particles: Seq<Body>,
    clockwise_fraction: Binary32,
    threshold: Binary32,
    weightless: bool,
) -> Readout {
    let hundred = Binary32::from_bits(HUNDRED);
    let total = bodies::mass_of(particles);
    let largest = bodies::largest_of_first(particles, particles.len() as int);
    Readout {
        particles: particles.len() as usize,
        total_mass: total,
        largest_mass: largest,
        largest_mass_percent: if threshold.less(total) {
            largest / total * hundred
        } else {
            Binary32::from_bits(ZERO)
        },
        center_of_mass: if weightless {
            bodies::nothing()
        } else {
            (
                bodies::mean_of(particles, Coordinate::X),
                bodies::mean_of(particles, Coordinate::Y),
            )
        },
        clockwise_percent: clockwise_fraction * hundred,
        counterclockwise_percent: hundred - clockwise_fraction * hundred,
    }
}

/// Puts a readout together.
fn read_out(
    particles: usize,
    total_mass: Binary32,
    largest_mass: Binary32,
    center_of_mass: Pair,
    clockwise_fraction: Binary32,
    threshold: Binary32,
) -> (readout: Readout)
    ensures
        readout == (Readout {
            particles,
            total_mass,
            largest_mass,
            largest_mass_percent: if threshold.less(total_mass) {
                largest_mass / total_mass * Binary32::from_bits(HUNDRED)
            } else {
                Binary32::from_bits(ZERO)
            },
            center_of_mass,
            clockwise_percent: clockwise_fraction * Binary32::from_bits(HUNDRED),
            counterclockwise_percent: Binary32::from_bits(HUNDRED) - clockwise_fraction
                * Binary32::from_bits(HUNDRED),
        }),
{
    let hundred = Binary32::from_bits(HUNDRED);
    let clockwise_percent = clockwise_fraction * hundred;
    let largest_mass_percent = if threshold.less(total_mass) {
        largest_mass / total_mass * hundred
    } else {
        Binary32::from_bits(ZERO)
    };
    Readout {
        particles,
        total_mass,
        largest_mass,
        largest_mass_percent,
        center_of_mass,
        clockwise_percent,
        counterclockwise_percent: hundred - clockwise_percent,
    }
}

/// What the display says of a cloud that is laid out for eight-lane arithmetic.
pub fn simd_readout(particles: &Particles, clockwise_fraction: Binary32) -> (readout: Readout)
    requires
        particles.well_formed(),
    ensures
        readout == readout_of(
            particles@,
            clockwise_fraction,
            Binary32::from_bits(ZERO),
            bodies::mass_of(particles@).same(Binary32::from_bits(ZERO)),
        ),
{
    read_out(
        particles.len(),
        particles.total_mass(),
        particles.largest_mass(),
        particles.center_of_mass(),
        clockwise_fraction,
        Binary32::from_bits(ZERO),
    )
}

/// What the display says of a cloud for machines without vector arithmetic.
pub fn wasm_readout(particles: &[Body], clockwise_fraction: Binary32) -> (readout: Readout)
    ensures
        readout == readout_of(
            particles@,
            clockwise_fraction,
            Binary32::from_bits(EPSILON),
            wasm::weightless(particles@),
        ),
{
    read_out(
        particles.len(),
        wasm::total_mass(particles),
        wasm::largest_mass(particles),
        wasm::center_of_mass(particles),
        clockwise_fraction,
        Binary32::from_bits(EPSILON),
    )
}

/// The word for whether the simulation is paused.
pub fn simulation_state(paused: bool) -> (word: &'static str)
    ensures
        word@ == if paused {
            "PAUSED"@
        } else {
            "RUNNING"@
        },
{
    if paused {
        "PAUSED"
    } else {
        "RUNNING"
    }
}

/// The word for whether the trails are shown.
pub fn trail_state(trails_enabled: bool) -> (word: &'static str)
    ensures
        word@ == if trails_enabled {
            "VISIBLE"@
        } else {
            "HIDDEN"@
        },
{
    if trails_enabled {
        "VISIBLE"
    } else {
        "HIDDEN"
    }
}

} // verus!
