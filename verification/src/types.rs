//! The records that the host and a compute device share.

use vstd::prelude::*;
use crate::binary32::Binary32;

verus! {

/// One particle, as it lies in device memory.
#[derive(Clone, Copy, Debug, PartialEq)]
pub struct Particle {
    pub x: Binary32,
    pub y: Binary32,
    pub vx: Binary32,
    pub vy: Binary32,
    pub mass: Binary32,
    pub brightness: Binary32,
    pub alive: u32,
    pub padding: u32,
}

/// The parameters of one simulation step.
#[derive(Clone, Copy, Debug, PartialEq)]
pub struct SimParams {
    pub count: u32,
    pub dt: Binary32,
    pub gravity: Binary32,
    pub softening_squared: Binary32,
}

impl Particle {
    /// The record whose bytes are all zero: a dead particle.
    #[verifier::allow_in_spec]
    pub fn zeroed() -> Particle
        returns
            (Particle {
                x: Binary32::from_bits(0),
                y: Binary32::from_bits(0),
                vx: Binary32::from_bits(0),
                vy: Binary32::from_bits(0),
                mass: Binary32::from_bits(0),
                brightness: Binary32::from_bits(0),
                alive: 0,
                padding: 0,
            }),
    {
        let zero = Binary32::from_bits(0);
        Particle { x: zero, y: zero, vx: zero, vy: zero, mass: zero, brightness: zero, alive: 0, padding: 0 }
    }
}

} // verus!
