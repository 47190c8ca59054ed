//! What happens from one frame to the next: controls, and how much time the physics and the
//! trails are given.

use vstd::prelude::*;
use crate::binary32;
use crate::binary32::{Binary32, HALF, ONE, TWO, ZERO};
use crate::magnitude;
use crate::spawn::SPAWN_RADIUS;

verus! {

/// The time of one physics step: 1/120.
pub const PHYSICS_DT: u32 = 0x3C08_8889;

/// The smallest time scale: 0.125.
pub const TIME_SCALE_MIN: u32 = 0x3E00_0000;

/// The largest time scale: 4.
pub const TIME_SCALE_MAX: u32 = 0x4080_0000;

/// The smallest zoom: 0.05.
pub const ZOOM_MIN: u32 = 0x3D4C_CCCD;

/// The largest zoom: 5.
pub const ZOOM_MAX: u32 = 0x40A0_0000;

/// What one notch of the mouse wheel multiplies the zoom by: 1.03.
pub const ZOOM_BASE: u32 = 0x3F83_D70A;

/// Minus one.
pub const MINUS_ONE: u32 = 0xBF80_0000;

/// The initial view shows 2.25 times the radius of the cloud.
pub const VIEW_MARGIN: u32 = 0x4010_0000;

/// The longest time that a frame counts for: 0.1.
pub const FRAME_TIME_MAX: u32 = 0x3DCC_CCCD;

/// The longest time that the physics takes from one frame: 0.05.
pub const FRAME_PHYSICS_MAX: u32 = 0x3D4C_CCCD;

/// The time between two samples of the trails: 1/45.
pub const TRAIL_SAMPLE_INTERVAL: u32 = 0x3CB6_0B61;

/// The keys that the simulation listens to.
#[derive(Clone, Copy, Debug, PartialEq, Eq, Structural)]
pub enum Key {
    /// Pause or resume.
    Space,
    /// Show or hide the trails.
    T,
    /// Double the time scale.
    Up,
    /// Halve the time scale.
    Down,
}

/// What the user controls.
#[derive(Clone, Copy, Debug, PartialEq)]
pub struct Controls {
    pub paused: bool,
    pub trails_enabled: bool,
    pub time_scale: Binary32,
    pub zoom: Binary32,
}

/// Twice a time scale, up to the largest.
#[verifier::allow_in_spec]
pub fn faster(time_scale: Binary32) -> Binary32
    returns
        (time_scale * Binary32::from_bits(TWO)).min(Binary32::from_bits(TIME_SCALE_MAX)),
{
    (time_scale * Binary32::from_bits(TWO)).min(Binary32::from_bits(TIME_SCALE_MAX))
}

/// Half a time scale, down to the smallest.
#[verifier::allow_in_spec]
pub fn slower(time_scale: Binary32) -> Binary32
    returns
        (time_scale * Binary32::from_bits(HALF)).max(Binary32::from_bits(TIME_SCALE_MIN)),
{
    (time_scale * Binary32::from_bits(HALF)).max(Binary32::from_bits(TIME_SCALE_MIN))
}

/// How far the mouse wheel has turned, one notch at the most.
pub fn wheel_notch(wheel: Binary32) -> (notch: Binary32)
    ensures
        notch == wheel.clamp(Binary32::from_bits(MINUS_ONE), Binary32::from_bits(ONE)),
{
    proof {
        lemma_limits();
    }
    wheel.clamp(Binary32::from_bits(MINUS_ONE), Binary32::from_bits(ONE))
}

/// The limits are in order.
proof fn lemma_limits()
    ensures
        Binary32::from_bits(MINUS_ONE).at_most(Binary32::from_bits(ONE)),
        Binary32::from_bits(ZOOM_MIN).at_most(Binary32::from_bits(ZOOM_MAX)),
{
    binary32::law_bits_order_numbers(Binary32::from_bits(ZOOM_MIN), Binary32::from_bits(ZOOM_MAX));
}

/// The zoom multiplied by a factor, within its limits.
pub fn zoomed(zoom: Binary32, factor: Binary32) -> (after: Binary32)
    ensures
        after == (zoom * factor).clamp(Binary32::from_bits(ZOOM_MIN), Binary32::from_bits(ZOOM_MAX)),
{
    proof {
        lemma_limits();
    }
    (zoom * factor).clamp(Binary32::from_bits(ZOOM_MIN), Binary32::from_bits(ZOOM_MAX))
}

/// The zoom at which the cloud fits into a window.
#[verifier::allow_in_spec]
pub fn initial_zoom(width: Binary32, height: Binary32) -> Binary32
    returns
        width.min(height) / (Binary32::from_bits(SPAWN_RADIUS) * Binary32::from_bits(VIEW_MARGIN)),
{
    width.min(height) / (Binary32::from_bits(SPAWN_RADIUS) * Binary32::from_bits(VIEW_MARGIN))
}

impl Controls {
    /// The controls that a simulation starts with.
    pub fn new(zoom: Binary32) -> (controls: Controls)
        ensures
            controls == (Controls {
                paused: false,
                trails_enabled: false,
                time_scale: Binary32::from_bits(ONE),
                zoom,
            }),
    {
        Controls { paused: false, trails_enabled: false, time_scale: Binary32::from_bits(ONE), zoom }
    }

    /// The controls after a key has been pressed.
    pub fn pressed(self, key: Key) -> (after: Controls)
        ensures
            after == match key {
                Key::Space => Controls { paused: !self.paused, ..self },
                Key::T => Controls { trails_enabled: !self.trails_enabled, ..self },
                Key::Up => Controls { time_scale: faster(self.time_scale), ..self },
                Key::Down => Controls { time_scale: slower(self.time_scale), ..self },
            },
    {
        match key {
            Key::Space => Controls { paused: !self.paused, ..self },
            Key::T => Controls { trails_enabled: !self.trails_enabled, ..self },
            Key::Up => Controls { time_scale: faster(self.time_scale), ..self },
            Key::Down => Controls { time_scale: slower(self.time_scale), ..self },
        }
    }

    /// The controls after the mouse wheel has turned and [`ZOOM_BASE`] has been raised to the
    /// power of the [`wheel_notch`].
    pub fn scrolled(self, factor: Binary32) -> (after: Controls)
        ensures
            after == (Controls {
                zoom: (self.zoom * factor).clamp(
                    Binary32::from_bits(ZOOM_MIN),
                    Binary32::from_bits(ZOOM_MAX),
                ),
                ..self
            }),
    {
        Controls { zoom: zoomed(self.zoom, factor), ..self }
    }
}

/// Whether the time saved up is enough for a step.
#[verifier::allow_in_spec]
pub fn is_due(saved: Binary32) -> bool
    returns
        Binary32::from_bits(PHYSICS_DT).at_most(saved),
{
    Binary32::from_bits(PHYSICS_DT).at_most(saved)
}

/// How many steps a frame takes, of which `done` have been taken: as many as the time saved up is
/// enough for, `most` at the most.
pub open spec fn steps_taken(saved: Binary32, done: nat, most: nat) -> nat
    decreases most - done,
{
    if done < most && is_due(saved) {
        steps_taken(saved - Binary32::from_bits(PHYSICS_DT), done + 1, most)
    } else {
        done
    }
}

/// The time saved up after the steps of a frame. A frame that took as many steps as it may
/// forgets the rest.
pub open spec fn time_left(saved: Binary32, done: nat, most: nat) -> Binary32
    decreases most - done,
{
    if done < most && is_due(saved) {
        time_left(saved - Binary32::from_bits(PHYSICS_DT), done + 1, most)
    } else if done == most {
        Binary32::from_bits(ZERO)
    } else {
        saved
    }
}

/// The time saved up before the steps of a frame.
#[verifier::allow_in_spec]
pub fn saved_up(saved: Binary32, frame_time: Binary32, limit: Binary32, time_scale: Binary32) -> Binary32
    returns
        saved + frame_time.min(limit) * time_scale,
{
    saved + frame_time.min(limit) * time_scale
}

/// The number of steps that a frame takes, and the time saved up after them.
pub fn plan_steps(saved: Binary32, most: u32) -> (plan: (u32, Binary32))
    ensures
        plan.0 == steps_taken(saved, 0, most as nat),
        plan.1 == time_left(saved, 0, most as nat),
{
    let mut left = saved;
    let mut done: u32 = 0;
    while done < most && is_due(left)
        invariant
            done <= most,
            steps_taken(saved, 0, most as nat) == steps_taken(left, done as nat, most as nat),
            time_left(saved, 0, most as nat) == time_left(left, done as nat, most as nat),
        decreases most - done,
    {
        left = left - Binary32::from_bits(PHYSICS_DT);
        done = done + 1;
    }
    if done == most {
        left = Binary32::from_bits(ZERO);
    }
    (done, left)
}

/// A frame takes no more steps than it may.
pub proof fn law_steps_are_bounded(saved: Binary32, done: nat, most: nat)
    requires
        done <= most,
    ensures
        done <= steps_taken(saved, done, most) <= most,
    decreases most - done,
{
    if done < most && is_due(saved) {
        law_steps_are_bounded(saved - Binary32::from_bits(PHYSICS_DT), done + 1, most);
    }
}

/// After a frame there is not enough time saved up for another step.
pub proof fn law_no_step_is_left_over(saved: Binary32, done: nat, most: nat)
    requires
        done <= most,
    ensures
        !is_due(time_left(saved, done, most)),
    decreases most - done,
{
    if done < most && is_due(saved) {
        law_no_step_is_left_over(saved - Binary32::from_bits(PHYSICS_DT), done + 1, most);
    } else if done == most {
        binary32::law_bits_order_numbers(
            Binary32::from_bits(PHYSICS_DT),
            Binary32::from_bits(ZERO),
        );
    }
}

/// Whether a time scale lies within its limits.
pub open spec fn time_scale_is_in_range(time_scale: Binary32) -> bool {
    &&& Binary32::from_bits(TIME_SCALE_MIN).at_most(time_scale)
    &&& time_scale.at_most(Binary32::from_bits(TIME_SCALE_MAX))
}

/// A time scale within its limits has bits within those of the limits.
pub(crate) proof fn lemma_time_scale_bits(time_scale: Binary32)
    requires
        time_scale_is_in_range(time_scale),
    ensures
        TIME_SCALE_MIN <= time_scale.bits <= TIME_SCALE_MAX,
{
    assert(!time_scale.is_negative()) by {
        assert(magnitude::units(0) == 0 * vstd::arithmetic::power2::pow2(0));
        magnitude::lemma_units_order(0, TIME_SCALE_MIN as nat);
    }
    binary32::law_at_most_a_finite_number(time_scale, Binary32::from_bits(TIME_SCALE_MAX));
    binary32::law_bits_order_numbers(Binary32::from_bits(TIME_SCALE_MIN), time_scale);
    binary32::law_bits_order_numbers(time_scale, Binary32::from_bits(TIME_SCALE_MAX));
}

/// Changing the time scale keeps it within its limits.
pub proof fn law_time_scale_stays_in_range(time_scale: Binary32)
    requires
        time_scale_is_in_range(time_scale),
    ensures
        time_scale_is_in_range(faster(time_scale)),
        time_scale_is_in_range(slower(time_scale)),
{
    lemma_time_scale_bits(time_scale);
    let low = Binary32::from_bits(TIME_SCALE_MIN);
    let high = Binary32::from_bits(TIME_SCALE_MAX);
    binary32::law_doubling_is_exact(time_scale);
    binary32::law_halving_is_exact(time_scale);
    let twice = time_scale * Binary32::from_bits(TWO);
    let half = time_scale * Binary32::from_bits(HALF);
    binary32::law_bits_order_numbers(low, twice);
    binary32::law_bits_order_numbers(half, high);
    binary32::law_bits_order_numbers(low, high);
}

/// Halving undoes doubling, and doubling undoes halving, as long as no limit is in the way.
pub proof fn law_doubling_and_halving_undo_each_other(time_scale: Binary32)
    requires
        time_scale_is_in_range(time_scale),
    ensures
        time_scale.at_most(Binary32::from_bits(TWO)) ==> slower(faster(time_scale)) == time_scale,
        Binary32::from_bits(0x3E80_0000).at_most(time_scale) ==> faster(slower(time_scale))
            == time_scale,
{
    lemma_time_scale_bits(time_scale);
    let low = Binary32::from_bits(TIME_SCALE_MIN);
    let high = Binary32::from_bits(TIME_SCALE_MAX);
    let twice = time_scale * Binary32::from_bits(TWO);
    let half = time_scale * Binary32::from_bits(HALF);
    binary32::law_doubling_is_exact(time_scale);
    binary32::law_halving_is_exact(time_scale);
    binary32::law_halving_is_exact(twice);
    binary32::law_doubling_is_exact(half);
    binary32::law_bits_order_numbers(time_scale, Binary32::from_bits(TWO));
    binary32::law_bits_order_numbers(Binary32::from_bits(0x3E80_0000), time_scale);
    binary32::law_bits_order_numbers(high, twice);
    binary32::law_bits_order_numbers(half, low);
    binary32::law_bits_order_numbers(time_scale, low);
    binary32::law_bits_order_numbers(high, time_scale);
}

/// A zoom by a number stays within its limits.
pub proof fn law_zoom_stays_in_range(zoom: Binary32, factor: Binary32)
    requires
        !(zoom * factor).is_nan(),
    ensures
        ({
            let after = (zoom * factor).clamp(
                Binary32::from_bits(ZOOM_MIN),
                Binary32::from_bits(ZOOM_MAX),
            );
            &&& Binary32::from_bits(ZOOM_MIN).at_most(after)
            &&& after.at_most(Binary32::from_bits(ZOOM_MAX))
        }),
{
    lemma_limits();
}

} // verus!
