use gravity::binary32::Binary32;
use gravity::types::{Particle, SimParams};
use std::mem::{align_of, size_of};

#[test]
fn device_layout_is_stable() {
    assert_eq!(size_of::<Particle>(), 32);
    assert_eq!(align_of::<Particle>(), 4);
    assert_eq!(size_of::<SimParams>(), 16);
}

#[test]
fn zeroed_particles_are_dead() {
    let zeroed = Particle::zeroed();
    assert_eq!(zeroed.alive, 0);
    assert_eq!(zeroed.padding, 0);
    assert_eq!(zeroed.mass.to_bits(), 0);
    assert_eq!(zeroed.x, Binary32::from_bits(0));
}
