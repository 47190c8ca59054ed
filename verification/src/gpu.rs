//! The records that a graphics device is handed.

use vstd::prelude::*;
use vstd::arithmetic::div_mod::*;
use crate::binary32::{Binary32, HALF, ONE, ZERO};
use crate::bodies;
use crate::bodies::{centre, Body, GRAVITATIONAL_CONSTANT};
use crate::bytes;
use crate::bytes::cast_words;
use crate::collision::PARTICLE_RADIUS_SCALE;
use crate::frame::PHYSICS_DT;
use crate::session::SOFTENING_SQUARED;
use crate::spawn;
use crate::spawn::{initial_tangential_speed, spawn_particles, Sample, SPAWN_RADIUS};
use crate::trails::TrailPoint;
use crate::wasm::total_mass;

verus! {

/// The number of words of a record.
pub const RECORD_WORDS: usize = 8;

/// The number of groups of `size` that cover so many items, of which the low 32 bits count.
pub open spec fn groups(items: usize, size: u32) -> int {
    (items as u32 + size - 1) / size as int
}

/// The number of workgroups of `divisor` invocations that cover `value` items.
pub fn ceil_div(value: usize, divisor: u32) -> (groups: u32)
    requires
        divisor > 0,
    ensures
        groups == self::groups(value, divisor),
{
    let items = value as u32;
    let whole = items / divisor;
    let rest = items % divisor;
    proof {
        lemma_fundamental_div_mod(items as int, divisor as int);
        lemma_mod_bound(items as int, divisor as int);
        if rest == 0 {
            lemma_fundamental_div_mod_converse(
                items + divisor - 1,
                divisor as int,
                whole as int,
                divisor - 1,
            );
        } else {
            assert(divisor * (whole + 1) == divisor * whole + divisor) by (nonlinear_arith);
            lemma_fundamental_div_mod_converse(
                items + divisor - 1,
                divisor as int,
                whole + 1,
                rest - 1,
            );
            assert(whole < u32::MAX) by (nonlinear_arith)
                requires
                    items == divisor * whole + rest,
                    rest > 0,
                    divisor > 0,
                    items <= u32::MAX;
        }
    }
    if rest == 0 {
        whole
    } else {
        whole + 1
    }
}

/// The groups cover the items, and one group fewer would not.
pub proof fn law_groups_cover_the_items(items: usize, size: u32)
    requires
        size > 0,
    ensures
        groups(items, size) * size >= items as u32,
        items as u32 > 0 ==> (groups(items, size) - 1) * size < items as u32,
{
    let n = items as u32 as int;
    let s = size as int;
    let g = groups(items, size);
    lemma_fundamental_div_mod(n + s - 1, s);
    lemma_mod_bound(n + s - 1, s);
    assert(g * s == s * g) by (nonlinear_arith);
    assert((g - 1) * s == s * g - s) by (nonlinear_arith);
}

/// The tangential speed at a distance from the centre.
pub fn tangential_speed(distance: Binary32) -> (speed: Binary32)
    ensures
        speed == initial_tangential_speed((distance / Binary32::from_bits(SPAWN_RADIUS)).root()),
{
    initial_tangential_speed((distance / Binary32::from_bits(SPAWN_RADIUS)).sqrt())
}

/// The words of a live particle: place, velocity, mass, brightness, one, zero.
pub open spec fn record(body: Body) -> Seq<u32> {
    seq![
        body.x.bits,
        body.y.bits,
        body.velocity_x.bits,
        body.velocity_y.bits,
        body.mass.bits,
        body.brightness.bits,
        ONE,
        ZERO,
    ]
}

/// The words of so many live particles, one after the other.
pub open spec fn first_records(particles: Seq<Body>, upto: int) -> Seq<u32>
    decreases upto,
{
    if upto <= 0 {
        Seq::empty()
    } else {
        first_records(particles, upto - 1) + record(particles[upto - 1])
    }
}

/// The words of the particles that a graphics device starts with, one particle for each sample,
/// all clockwise and seen from their centre of mass; and the mass of all of them together.
pub fn create_particles(samples: &[Sample]) -> (created: (Vec<u32>, Binary32))
    ensures
        ({
            let all = spawn::spawned(samples@, samples@.len() as int);
            &&& created.0@ == first_records(bodies::centred(all), all.len() as int)
            &&& created.1 == bodies::mass_of(all)
        }),
{
    let mut particles = spawn_particles(samples, samples.len());
    let total = total_mass(particles.as_slice());
    centre(&mut particles, total);
    let mut data: Vec<u32> = Vec::new();
    let mut i: usize = 0;
    while i < particles.len()
        invariant
            i <= particles.len(),
            data@ == first_records(particles@, i as int),
        decreases particles.len() - i,
    {
        let body = particles[i];
        let ghost before = data@;
        data.push(body.x.to_bits());
        data.push(body.y.to_bits());
        data.push(body.velocity_x.to_bits());
        data.push(body.velocity_y.to_bits());
        data.push(body.mass.to_bits());
        data.push(body.brightness.to_bits());
        data.push(ONE);
        data.push(ZERO);
        assert(data@ == before + record(body));
        i = i + 1;
    }
    (data, total)
}

/// The parameters of a step, as words: count, padding, time step, gravitational constant, square
/// of the softening length, radius scale, padding.
pub open spec fn sim_params(count: u32) -> Seq<u32> {
    seq![
        count,
        0,
        PHYSICS_DT,
        GRAVITATIONAL_CONSTANT,
        SOFTENING_SQUARED,
        PARTICLE_RADIUS_SCALE,
        0,
        0,
        0,
        0,
        0,
        0,
    ]
}

/// The bytes of the parameters of a step.
pub fn sim_params_bytes(count: u32) -> (bytes: Vec<u8>)
    ensures
        bytes::hold(bytes@, sim_params(count)),
{
    let words: Vec<u32> = vec![
        count,
        0,
        PHYSICS_DT,
        GRAVITATIONAL_CONSTANT,
        SOFTENING_SQUARED,
        PARTICLE_RADIUS_SCALE,
        0,
        0,
        0,
        0,
        0,
        0,
    ];
    assert(words@ == sim_params(count));
    cast_words(words.as_slice())
}

/// The control record before a step, as words: active count, output count, merge count, padding.
pub open spec fn sim_control(count: u32) -> Seq<u32> {
    seq![count, count, 0, 0, 0, 0, 0, 0]
}

/// The bytes of the control record before a step.
pub fn sim_control_bytes(count: u32) -> (bytes: Vec<u8>)
    ensures
        bytes::hold(bytes@, sim_control(count)),
{
    let words: Vec<u32> = vec![count, count, 0, 0, 0, 0, 0, 0];
    assert(words@ == sim_control(count));
    cast_words(words.as_slice())
}

/// The bytes of some words.
pub fn record_bytes(words: &[u32]) -> (bytes: Vec<u8>)
    ensures
        bytes::hold(bytes@, words@),
{
    cast_words(words)
}

/// The words of a trail point: place, radius, brightness, time, padding.
pub open spec fn trail_record(point: TrailPoint) -> Seq<u32> {
    seq![
        point.x.bits,
        point.y.bits,
        point.radius.bits,
        point.brightness.bits,
        point.creation_time.bits,
        0,
        0,
        0,
    ]
}

/// The words of so many trail points, one after the other.
pub open spec fn first_trail_records(trails: Seq<TrailPoint>, upto: int) -> Seq<u32>
    decreases upto,
{
    if upto <= 0 {
        Seq::empty()
    } else {
        first_trail_records(trails, upto - 1) + trail_record(trails[upto - 1])
    }
}

/// A particle that a graphics device has handed back.
#[derive(Clone, Copy, Debug, PartialEq)]
pub struct Record {
    pub x: Binary32,
    pub y: Binary32,
    pub mass: Binary32,
    pub brightness: Binary32,
    /// At least one half for a live particle.
    pub alive: Binary32,
}

/// Whether a particle that was handed back lives.
#[verifier::allow_in_spec]
pub fn is_live(record: Record) -> bool
    returns
        Binary32::from_bits(HALF).at_most(record.alive),
{
    Binary32::from_bits(HALF).at_most(record.alive)
}

/// The particle whose record starts at a word.
pub open spec fn record_at(words: Seq<u32>, start: int) -> Record {
    Record {
        x: Binary32::from_bits(words[start]),
        y: Binary32::from_bits(words[start + 1]),
        mass: Binary32::from_bits(words[start + 4]),
        brightness: Binary32::from_bits(words[start + 5]),
        alive: Binary32::from_bits(words[start + 6]),
    }
}

/// The particles of all whole records; words left over at the end are ignored.
pub open spec fn records_of(words: Seq<u32>) -> Seq<Record> {
    Seq::new(words.len() / RECORD_WORDS as nat, |i: int| record_at(words, RECORD_WORDS * i))
}

/// Reads the particles of all whole records.
pub fn read_records(words: &[u32]) -> (records: Vec<Record>)
    ensures
        records@ == records_of(words@),
{
    let count = words.len() / RECORD_WORDS;
    let mut records: Vec<Record> = Vec::with_capacity(count);
    let mut i: usize = 0;
    while i < count
        invariant
            i <= count == words@.len() / RECORD_WORDS as nat,
            RECORD_WORDS * count <= words.len(),
            records@ == records_of(words@).take(i as int),
        decreases count - i,
    {
        let start = RECORD_WORDS * i;
        records.push(
            Record {
                x: Binary32::from_bits(words[start]),
                y: Binary32::from_bits(words[start + 1]),
                mass: Binary32::from_bits(words[start + 4]),
                brightness: Binary32::from_bits(words[start + 5]),
                alive: Binary32::from_bits(words[start + 6]),
            },
        );
        i = i + 1;
    }
    assert(records@ == records_of(words@));
    records
}

/// The words of a cloud read back are its particles, all live.
pub proof fn law_written_particles_are_read_back(particles: Seq<Body>)
    ensures
        ({
            let read = records_of(first_records(particles, particles.len() as int));
            &&& read.len() == particles.len()
            &&& forall|i: int|
                0 <= i < particles.len() ==> {
                    &&& (#[trigger] read[i]).x == particles[i].x
                    &&& read[i].y == particles[i].y
                    &&& read[i].mass == particles[i].mass
                    &&& read[i].brightness == particles[i].brightness
                    &&& is_live(read[i])
                }
        }),
{
    let words = first_records(particles, particles.len() as int);
    lemma_records(particles, particles.len() as int);
    crate::binary32::law_bits_order_numbers(Binary32::from_bits(HALF), Binary32::from_bits(ONE));
    let read = records_of(words);
    assert forall|i: int| 0 <= i < particles.len() implies {
        &&& (#[trigger] read[i]).x == particles[i].x
        &&& read[i].y == particles[i].y
        &&& read[i].mass == particles[i].mass
        &&& read[i].brightness == particles[i].brightness
        &&& is_live(read[i])
    } by {
        assert(words.subrange(8 * i, 8 * i + 8) == record(particles[i]));
        assert(words[8 * i] == words.subrange(8 * i, 8 * i + 8)[0]);
        assert(words[8 * i + 1] == words.subrange(8 * i, 8 * i + 8)[1]);
        assert(words[8 * i + 4] == words.subrange(8 * i, 8 * i + 8)[4]);
        assert(words[8 * i + 5] == words.subrange(8 * i, 8 * i + 8)[5]);
        assert(words[8 * i + 6] == words.subrange(8 * i, 8 * i + 8)[6]);
    }
}

/// Where each record lies.
pub(crate) proof fn lemma_records(particles: Seq<Body>, upto: int)
    requires
        0 <= upto <= particles.len(),
    ensures
        first_records(particles, upto).len() == 8 * upto,
        forall|i: int|
            0 <= i < upto ==> first_records(particles, upto).subrange(8 * i, 8 * i + 8) == record(
                #[trigger] particles[i],
            ),
    decreases upto,
{
    if upto > 0 {
        lemma_records(particles, upto - 1);
        let before = first_records(particles, upto - 1);
        let words = first_records(particles, upto);
        assert forall|i: int| 0 <= i < upto implies words.subrange(8 * i, 8 * i + 8) == record(
            #[trigger] particles[i],
        ) by {
            if i < upto - 1 {
                assert(words.subrange(8 * i, 8 * i + 8) == before.subrange(8 * i, 8 * i + 8));
            } else {
                assert(words.subrange(8 * i, 8 * i + 8) == record(particles[i]));
            }
        }
    }
}

} // verus!
