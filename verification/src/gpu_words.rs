//! What the words that a graphics device is handed stand for, and that they fit into its buffers.

use vstd::prelude::*;
use vstd::arithmetic::power2::*;
use crate::binary32::Binary32;
use crate::bodies::{Body, GRAVITATIONAL_CONSTANT};
use crate::gpu;
use crate::gpu_layout;
use crate::gpu_layout::Buffer;
use crate::gpu_state::State;
use crate::numbers;
use crate::radii;
use crate::rounding::{size, slack};
use crate::session::SOFTENING_SQUARED;
use crate::timekeeping;
use crate::trails::TrailPoint;

verus! {

/// The parameters of a step say how many particles take part, that a step lasts 1/120, that the
/// gravitational constant is 15, the square of the softening length 9 and the scale of radii 0.45;
/// nothing else.
pub proof fn law_step_parameters_are_as_documented(count: u32)
    ensures
        ({
            let words = gpu::sim_params(count);
            let scale = Binary32::from_bits(words[5]);
            &&& words.len() == 12
            &&& words[0] == count
            &&& timekeeping::is_step_time(Binary32::from_bits(words[2]))
            &&& Binary32::from_bits(words[3]).number() == 15 as real
            &&& Binary32::from_bits(words[4]).number() == 9 as real
            &&& size(scale.number() - 45 as real / 100 as real) <= slack(scale)
            &&& words[1] == 0
            &&& forall|i: int| 6 <= i < 12 ==> #[trigger] words[i] == 0
        }),
{
    timekeeping::law_times_are_as_documented();
    radii::law_radii_scale_as_documented();
    lemma2_to64();
    numbers::lemma_bits(GRAVITATIONAL_CONSTANT, 20, 0x10_0000);
    numbers::lemma_bits(SOFTENING_SQUARED, 20, 0x10_0000);
    numbers::lemma_bits(crate::collision::PARTICLE_RADIUS_SCALE, 25, 0x200_0000);
}

/// Before a step all particles are active and put out, and none has merged.
pub proof fn law_all_particles_are_active_before_a_step(count: u32)
    ensures
        ({
            let words = gpu::sim_control(count);
            &&& words.len() == 8
            &&& words[0] == count
            &&& words[1] == count
            &&& forall|i: int| 2 <= i < 8 ==> #[trigger] words[i] == 0
        }),
{
}

/// The parameters for drawing say how large the window is, how it is zoomed, what mass the
/// simulation started with, how many particles and trail points there are, and what time it is for
/// the trails.
pub proof fn law_drawing_is_told_what_there_is(state: State)
    requires
        state.well_formed(),
        state.width <= 0x100_0000,
        state.height <= 0x100_0000,
    ensures
        ({
            let words = state.render_params();
            &&& words.len() == 8
            &&& Binary32::from_bits(words[0]).number() == state.width as real
            &&& Binary32::from_bits(words[1]).number() == state.height as real
            &&& Binary32::from_bits(words[2]) == state.controls.zoom
            &&& Binary32::from_bits(words[3]) == state.total_mass
            &&& words[4] == state.count
            &&& words[5] == state.trails@.len()
            &&& Binary32::from_bits(words[6]) == state.trail_clock
            &&& words[7] == 0
        }),
{
    numbers::law_counts_are_exact(state.width as nat);
    numbers::law_counts_are_exact(state.height as nat);
    assert(state.count * 90 <= 900_000) by (nonlinear_arith)
        requires
            state.count <= 10_000,
    ;
}

/// Every particle has eight words: its place, its velocity, its mass and its brightness, one for a
/// live particle, and zero.
pub proof fn law_particles_have_eight_words_each(particles: Seq<Body>, position: int)
    requires
        0 <= position < particles.len(),
    ensures
        ({
            let words = gpu::first_records(particles, particles.len() as int);
            let start = 8 * position;
            &&& words.len() == 8 * particles.len()
            &&& Binary32::from_bits(words[start]) == particles[position].x
            &&& Binary32::from_bits(words[start + 1]) == particles[position].y
            &&& Binary32::from_bits(words[start + 2]) == particles[position].velocity_x
            &&& Binary32::from_bits(words[start + 3]) == particles[position].velocity_y
            &&& Binary32::from_bits(words[start + 4]) == particles[position].mass
            &&& Binary32::from_bits(words[start + 5]) == particles[position].brightness
            &&& Binary32::from_bits(words[start + 6]).number() == 1 as real
            &&& words[start + 7] == 0
        }),
{
    let words = gpu::first_records(particles, particles.len() as int);
    let start = 8 * position;
    gpu::lemma_records(particles, particles.len() as int);
    numbers::law_plain_numbers();
    let record = words.subrange(start, start + 8);
    assert(record == gpu::record(particles[position]));
    assert(words[start] == record[0] && words[start + 1] == record[1] && words[start + 2]
        == record[2] && words[start + 3] == record[3]);
    assert(words[start + 4] == record[4] && words[start + 5] == record[5] && words[start + 6]
        == record[6] && words[start + 7] == record[7]);
}

/// Every trail point has eight words: its place, its radius, its brightness, its time, and zeros.
pub proof fn law_trail_points_have_eight_words_each(points: Seq<TrailPoint>, position: int)
    requires
        0 <= position < points.len(),
    ensures
        ({
            let words = gpu::first_trail_records(points, points.len() as int);
            let start = 8 * position;
            &&& words.len() == 8 * points.len()
            &&& Binary32::from_bits(words[start]) == points[position].x
            &&& Binary32::from_bits(words[start + 1]) == points[position].y
            &&& Binary32::from_bits(words[start + 2]) == points[position].radius
            &&& Binary32::from_bits(words[start + 3]) == points[position].brightness
            &&& Binary32::from_bits(words[start + 4]) == points[position].creation_time
            &&& words[start + 5] == 0
            &&& words[start + 6] == 0
            &&& words[start + 7] == 0
        }),
{
    let words = gpu::first_trail_records(points, points.len() as int);
    let start = 8 * position;
    lemma_trail_records(points, points.len() as int, position);
    let record = words.subrange(start, start + 8);
    assert(record == gpu::trail_record(points[position]));
    assert(words[start] == record[0] && words[start + 1] == record[1] && words[start + 2]
        == record[2] && words[start + 3] == record[3]);
    assert(words[start + 4] == record[4] && words[start + 5] == record[5] && words[start + 6]
        == record[6] && words[start + 7] == record[7]);
}

/// Where the words of a trail point lie.
proof fn lemma_trail_records(points: Seq<TrailPoint>, upto: int, position: int)
    requires
        0 <= upto <= points.len(),
    ensures
        gpu::first_trail_records(points, upto).len() == 8 * upto,
        0 <= position < upto ==> gpu::first_trail_records(points, upto).subrange(
            8 * position,
            8 * position + 8,
        ) == gpu::trail_record(points[position]),
    decreases upto,
{
    if upto > 0 {
        lemma_trail_records(points, upto - 1, position);
        let before = gpu::first_trail_records(points, upto - 1);
        let words = gpu::first_trail_records(points, upto);
        if 0 <= position < upto - 1 {
            assert(words.subrange(8 * position, 8 * position + 8) == before.subrange(
                8 * position,
                8 * position + 8,
            ));
        } else if position == upto - 1 {
            assert(words.subrange(8 * position, 8 * position + 8) == gpu::trail_record(
                points[position],
            ));
        }
    }
}

/// A particle that was handed back is read from the eight words of its record.
pub proof fn law_records_are_read_word_by_word(words: Seq<u32>, position: int)
    requires
        0 <= position < words.len() / 8,
    ensures
        ({
            let records = gpu::records_of(words);
            let start = 8 * position;
            &&& records.len() == words.len() / 8
            &&& records[position].x == Binary32::from_bits(words[start])
            &&& records[position].y == Binary32::from_bits(words[start + 1])
            &&& records[position].mass == Binary32::from_bits(words[start + 4])
            &&& records[position].brightness == Binary32::from_bits(words[start + 5])
            &&& records[position].alive == Binary32::from_bits(words[start + 6])
        }),
{
}

/// What a device is handed fills its buffers, four bytes for each word: parameters, control,
/// particles and, at the most, trails; and the metadata of the grid has a word for each bucket, two
/// for each particle, and four.
pub proof fn law_words_fit_into_their_buffers(count: u32, state: State, particles: Seq<Body>)
    requires
        state.well_formed(),
        particles.len() == state.count,
    ensures
        4 * gpu::sim_params(count).len() == Buffer::SimParams.bytes(state.count as int),
        4 * gpu::sim_control(count).len() == Buffer::SimControl.bytes(state.count as int),
        4 * state.render_params().len() == Buffer::RenderParams.bytes(state.count as int),
        forall|side: bool|
            4 * gpu::first_records(particles, particles.len() as int).len() == #[trigger]
            Buffer::Particles(side).bytes(state.count as int),
        Buffer::Staging.bytes(state.count as int) == Buffer::Particles(true).bytes(
            state.count as int,
        ),
        4 * gpu::first_trail_records(state.trails@, state.trails@.len() as int).len()
            <= Buffer::Trails.bytes(state.count as int),
        4 * (32768 + 2 * state.count + 4) <= Buffer::CollisionMeta.bytes(state.count as int),
{
    gpu::lemma_records(particles, particles.len() as int);
    lemma_trail_records(state.trails@, state.trails@.len() as int, 0);
}

/// A program of the simulation and one of the collision grid read the particles of one buffer and
/// write the other one, both with the parameters of the step; a program that draws reads the
/// particles that it is to draw and the trails.
pub proof fn law_programs_read_one_buffer_and_write_the_other(source: bool)
    ensures
        gpu_layout::sim_group(source) == seq![
            Buffer::SimParams,
            Buffer::Particles(source),
            Buffer::Particles(!source),
            Buffer::SimControl,
        ],
        gpu_layout::collision_group(source) == seq![
            Buffer::SimParams,
            Buffer::Particles(source),
            Buffer::CollisionMeta,
            Buffer::Particles(!source),
            Buffer::SimControl,
        ],
        gpu_layout::render_group(source) == seq![
            Buffer::RenderParams,
            Buffer::Particles(source),
            Buffer::Trails,
        ],
{
}

} // verus!
