//! A simulation on the host: a cloud, its trails, the controls and the time saved up.

use vstd::prelude::*;
use crate::binary32::{Binary32, ZERO};
use crate::bodies;
use crate::bodies::{Body, Pair, EPSILON};
use crate::frame;
use crate::frame::{
    is_due, saved_up, Controls, FRAME_PHYSICS_MAX, FRAME_TIME_MAX, PHYSICS_DT,
};
use crate::interface;
use crate::interface::{simd_readout, wasm_readout, Readout};
use crate::simd;
use crate::simd::{update_system_simd, Particles};
use crate::trails::Trails;
use crate::wasm;
use crate::wasm::update_system;

verus! {

/// A particle cloud that advances in steps.
pub trait Cloud: Sized {
    /// Its parts fit together.
    spec fn valid(&self) -> bool;

    /// Its particles.
    spec fn all(&self) -> Seq<Body>;

    /// The particles after one step.
    spec fn stepped(particles: Seq<Body>) -> Seq<Body>;

    /// How many steps a frame takes at the most.
    spec fn step_limit() -> nat;

    /// How many steps a frame takes at the most.
    fn max_physics_steps_per_frame() -> (most: u32)
        ensures
            most == Self::step_limit(),
    ;

    /// Advances the particles by one step.
    fn step(&mut self)
        requires
            old(self).valid(),
        ensures
            final(self).valid(),
            final(self).all() == Self::stepped(old(self).all()),
    ;

    /// The particles, in order.
    fn particles(&self) -> (particles: Vec<Body>)
        requires
            self.valid(),
        ensures
            particles@ == self.all(),
    ;
}

/// A cloud laid out for eight-lane arithmetic.
pub struct SimdCloud {
    particles: Particles,
    acceleration_x: Vec<Binary32>,
    acceleration_y: Vec<Binary32>,
}

impl SimdCloud {
    /// A cloud of the given particles.
    pub fn new(particles: Particles) -> (cloud: SimdCloud)
        requires
            particles.well_formed(),
        ensures
            cloud.valid(),
            cloud.all() == particles@,
    {
        SimdCloud { particles, acceleration_x: Vec::new(), acceleration_y: Vec::new() }
    }

    /// What the display says of the cloud.
    pub fn readout(&self, clockwise_fraction: Binary32) -> (readout: Readout)
        requires
            self.valid(),
        ensures
            readout == interface::readout_of(
                self.all(),
                clockwise_fraction,
                Binary32::from_bits(ZERO),
                bodies::mass_of(self.all()).same(Binary32::from_bits(ZERO)),
            ),
    {
        simd_readout(&self.particles, clockwise_fraction)
    }
}

impl Cloud for SimdCloud {
    closed spec fn valid(&self) -> bool {
        self.particles.well_formed()
    }

    closed spec fn all(&self) -> Seq<Body> {
        self.particles@
    }

    open spec fn stepped(particles: Seq<Body>) -> Seq<Body> {
        simd::updated(particles, Binary32::from_bits(PHYSICS_DT))
    }

    open spec fn step_limit() -> nat {
        8
    }

    fn max_physics_steps_per_frame() -> (most: u32) {
        8
    }

    fn step(&mut self) {
        update_system_simd(
            &mut self.particles,
            &mut self.acceleration_x,
            &mut self.acceleration_y,
            Binary32::from_bits(PHYSICS_DT),
        );
    }

    fn particles(&self) -> (particles: Vec<Body>) {
        self.particles.to_bodies()
    }
}

/// A cloud for machines without vector arithmetic.
pub struct WasmCloud {
    particles: Vec<Body>,
    accelerations: Vec<Pair>,
}

impl WasmCloud {
    /// A cloud of the given particles.
    pub fn new(particles: Vec<Body>) -> (cloud: WasmCloud)
        ensures
            cloud.valid(),
            cloud.all() == particles@,
    {
        WasmCloud { particles, accelerations: Vec::new() }
    }

    /// What the display says of the cloud.
    pub fn readout(&self, clockwise_fraction: Binary32) -> (readout: Readout)
        ensures
            readout == interface::readout_of(
                self.all(),
                clockwise_fraction,
                Binary32::from_bits(EPSILON),
                wasm::weightless(self.all()),
            ),
    {
        wasm_readout(self.particles.as_slice(), clockwise_fraction)
    }
}

impl Cloud for WasmCloud {
    closed spec fn valid(&self) -> bool {
        true
    }

    closed spec fn all(&self) -> Seq<Body> {
        self.particles@
    }

    open spec fn stepped(particles: Seq<Body>) -> Seq<Body> {
        wasm::updated(particles, Binary32::from_bits(PHYSICS_DT))
    }

    open spec fn step_limit() -> nat {
        4
    }

    fn max_physics_steps_per_frame() -> (most: u32) {
        4
    }

    fn step(&mut self) {
        update_system(
            &mut self.particles,
            &mut self.accelerations,
            Binary32::from_bits(PHYSICS_DT),
        );
    }

    fn particles(&self) -> (particles: Vec<Body>) {
        let mut copies: Vec<Body> = Vec::with_capacity(self.particles.len());
        let mut i: usize = 0;
        while i < self.particles.len()
            invariant
                i <= self.particles.len(),
                copies@ == self.particles@.take(i as int),
            decreases self.particles.len() - i,
        {
            copies.push(self.particles[i]);
            i = i + 1;
        }
        copies
    }
}

/// The particles after so many steps.
pub open spec fn after_steps<C: Cloud>(particles: Seq<Body>, steps: nat) -> Seq<Body>
    decreases steps,
{
    if steps == 0 {
        particles
    } else {
        C::stepped(after_steps::<C>(particles, (steps - 1) as nat))
    }
}

/// A simulation.
pub struct Simulation<C> {
    pub cloud: C,
    pub trails: Trails,
    pub controls: Controls,
    /// The time saved up for physics steps.
    pub accumulated_time: Binary32,
}

impl<C: Cloud> Simulation<C> {
    /// A simulation that starts with a cloud.
    pub fn new(cloud: C, zoom: Binary32) -> (simulation: Simulation<C>)
        ensures
            simulation.cloud == cloud,
            simulation.trails.is_fresh(),
            simulation.controls == (Controls {
                paused: false,
                trails_enabled: false,
                time_scale: Binary32::from_bits(crate::binary32::ONE),
                zoom,
            }),
            simulation.accumulated_time == Binary32::from_bits(ZERO),
    {
        Simulation {
            cloud,
            trails: Trails::new(),
            controls: Controls::new(zoom),
            accumulated_time: Binary32::from_bits(ZERO),
        }
    }

    /// Starts over with another cloud. The controls stay.
    pub fn reset(&mut self, cloud: C)
        ensures
            final(self).cloud == cloud,
            final(self).trails.is_fresh(),
            final(self).controls == old(self).controls,
            final(self).accumulated_time == Binary32::from_bits(ZERO),
    {
        self.cloud = cloud;
        self.trails.clear();
        self.accumulated_time = Binary32::from_bits(ZERO);
    }

    /// What a frame of some time makes of a simulation: nothing while it is paused, and else the
    /// steps that are due, and trails.
    pub open spec fn passes(self, before: Simulation<C>, frame_time: Binary32) -> bool {
        let passed = frame_time.min(Binary32::from_bits(FRAME_TIME_MAX));
        let saved = saved_up(
            before.accumulated_time,
            passed,
            Binary32::from_bits(FRAME_PHYSICS_MAX),
            before.controls.time_scale,
        );
        let steps = frame::steps_taken(saved, 0, C::step_limit());
        &&& self.controls == before.controls
        &&& if before.controls.paused {
            &&& self.cloud == before.cloud
            &&& self.trails == before.trails
            &&& self.accumulated_time == before.accumulated_time
        } else {
            &&& self.cloud.all() == after_steps::<C>(before.cloud.all(), steps)
            &&& self.accumulated_time == frame::time_left(saved, 0, C::step_limit())
            &&& self.trails.follows(before.trails, self.cloud.all(), passed)
        }
    }

    /// Lets a frame pass. While paused, nothing changes.
    pub fn advance(&mut self, frame_time: Binary32)
        requires
            old(self).cloud.valid(),
        ensures
            final(self).cloud.valid(),
            final(self).controls == old(self).controls,
            old(self).controls.paused ==> {
                &&& final(self).cloud == old(self).cloud
                &&& final(self).trails == old(self).trails
                &&& final(self).accumulated_time == old(self).accumulated_time
            },
            !old(self).controls.paused ==> ({
                let passed = frame_time.min(Binary32::from_bits(FRAME_TIME_MAX));
                let saved = saved_up(
                    old(self).accumulated_time,
                    passed,
                    Binary32::from_bits(FRAME_PHYSICS_MAX),
                    old(self).controls.time_scale,
                );
                let steps = frame::steps_taken(saved, 0, C::step_limit());
                &&& final(self).cloud.all() == after_steps::<C>(old(self).cloud.all(), steps)
                &&& final(self).accumulated_time == frame::time_left(saved, 0, C::step_limit())
                &&& final(self).trails.follows(old(self).trails, final(self).cloud.all(), passed)
            }),
            final(self).passes(*old(self), frame_time),
    {
        let frame_time = frame_time.min(Binary32::from_bits(FRAME_TIME_MAX));
        if self.controls.paused {
            return;
        }
        let ghost before = self.cloud.all();
        let most = C::max_physics_steps_per_frame();
        let saved = saved_up(
            self.accumulated_time,
            frame_time,
            Binary32::from_bits(FRAME_PHYSICS_MAX),
            self.controls.time_scale,
        );
        let ghost controls = self.controls;
        let ghost trails = self.trails;
        self.accumulated_time = saved;
        let mut completed_steps: u32 = 0;
        while completed_steps < most && is_due(self.accumulated_time)
            invariant
                most == C::step_limit(),
                completed_steps <= most,
                self.cloud.valid(),
                self.cloud.all() == after_steps::<C>(before, completed_steps as nat),
                self.controls == controls,
                self.trails == trails,
                frame::steps_taken(saved, 0, most as nat) == frame::steps_taken(
                    self.accumulated_time,
                    completed_steps as nat,
                    most as nat,
                ),
                frame::time_left(saved, 0, most as nat) == frame::time_left(
                    self.accumulated_time,
                    completed_steps as nat,
                    most as nat,
                ),
            decreases most - completed_steps,
        {
            self.cloud.step();
            self.accumulated_time = self.accumulated_time - Binary32::from_bits(PHYSICS_DT);
            completed_steps = completed_steps + 1;
        }
        if completed_steps == most {
            self.accumulated_time = Binary32::from_bits(ZERO);
        }
        let particles = self.cloud.particles();
        self.trails.pass(particles.as_slice(), frame_time);
    }
}

} // verus!
