//! Gravity between the particles of a cloud.
//!
//! Particles attract one another, drift, and merge where they touch. The library holds what a
//! simulation decides and computes; windows, devices, random numbers and transcendental functions
//! are up to the program around it.
//!
//! Numbers are binary32 floating-point numbers, held as their bits in [`binary32::Binary32`], whose
//! operations are integer arithmetic and proved to round as IEEE 754 prescribes. So the contracts
//! of everything above them are exact, down to the last bit.
//!
//! - [`magnitude`] and [`binary32`]: the numbers and the laws of their arithmetic.
//! - [`numbers`], [`rounding`] and [`estimate`]: which real numbers they stand for, and how far results
//!   can be from the exact ones.
//! - [`types`], [`error`], [`collision`], [`merging`]: the particles of a compute device and how
//!   particles merge.
//! - [`mod@reference`], [`cuda`], [`session`]: a step on the host; the host's side of a compute
//!   device; a whole session with such a device.
//! - [`bodies`], [`simd`], [`wasm`], [`simulation`]: clouds on the host, for eight-lane arithmetic
//!   and without it.
//! - [`balance`], [`bodies_balance`], [`reference_balance`], [`wasm_balance`], [`simd_balance`],
//!   [`simd_estimate`]: what a step keeps, up to rounding.
//! - [`softening`], [`finiteness`], [`moderation`], [`displaced`] and [`reversal`]: what keeps
//!   particles finite, what small moves change, and what a step back undoes.
//! - [`pull_accuracy`], [`acceleration_accuracy`], [`step_accuracy`], [`accuracy`], [`time_accuracy`] and
//!   [`merge_means`]: how accurate pulls, steps, contact, places on the screen, the time of frames and
//!   merging are, in plain numbers.
//! - [`agreement`] and [`merge_agreement`]: how far the clouds and the particles of a compute device
//!   can be apart.
//! - [`gpu`], [`gpu_layout`], [`gpu_state`], [`bytes`]: the host's side of a graphics device.
//! - [`spawn`], [`frame`], [`trails`], [`appearance`], [`interface`]: how a cloud starts, how time
//!   passes, and what there is to see.
//! - [`newton`], [`bodies_newton`], [`verlet`] and [`reference_newton`]: every single particle moves as
//!   Newton's law of gravitation says.
//! - [`radii`] and [`contact`]: how large particles are, when they touch, and what merges then.
//! - [`timekeeping`], [`session_time`], [`session_run`], [`cloud_frames`], [`gpu_frames`] and [`controls`]:
//!   where the time goes, what a whole frame does, and what the controls change.
//! - [`sampling`], [`readings`], [`totals`] and [`gpu_words`]: what trails and displays are told of the
//!   particles.
//! - [`projection`] and [`looks`]: where things are on the screen, and what they look like.
//! - [`spawn_motion`], [`spawn_range`], [`centring`] and [`transition_range`]: how a fresh cloud moves,
//!   what ranges it lies in, where its centre is, and how far a body can turn.

pub mod acceleration_accuracy;
pub mod accuracy;
pub mod agreement;
pub mod appearance;
pub mod balance;
pub mod binary32;
pub mod bodies;
pub mod bodies_balance;
pub mod bodies_newton;
pub mod bytes;
pub mod centring;
pub mod cloud_frames;
pub mod collision;
pub mod contact;
pub mod controls;
pub mod cuda;
pub mod displaced;
pub mod error;
pub mod estimate;
pub mod finiteness;
pub mod frame;
pub mod gpu;
pub mod gpu_frames;
pub mod gpu_layout;
pub mod gpu_state;
pub mod gpu_words;
pub mod interface;
pub mod looks;
pub mod magnitude;
pub mod merge_agreement;
pub mod merge_means;
pub mod merging;
pub mod moderation;
pub mod newton;
pub mod numbers;
pub mod projection;
pub mod pull_accuracy;
pub mod radii;
pub mod readings;
pub mod reference;
pub mod reference_balance;
pub mod reference_newton;
pub mod reversal;
pub mod rounding;
pub mod sampling;
pub mod session;
pub mod session_run;
pub mod session_time;
pub mod simd;
pub mod simd_balance;
pub mod simd_estimate;
pub mod simulation;
pub mod softening;
pub mod spawn;
pub mod spawn_motion;
pub mod spawn_range;
pub mod step_accuracy;
pub mod time_accuracy;
pub mod timekeeping;
pub mod totals;
pub mod trails;
pub mod transition_range;
pub mod types;
pub mod verlet;
pub mod wasm;
pub mod wasm_balance;
