# gravity

A cloud of particles under its own gravity. Particles attract one another, drift, and merge where
they touch. The library in `src/` is written in Verus: every function has a contract, and every
contract is proved. The programs in `app/` put clouds into windows.

## Numbers

All quantities are binary32 floating-point numbers, held as their bits. `src/magnitude.rs` says what
it means for an exact result to round to nearest, ties to even, as a statement about integers, and
`src/binary32.rs` proves that addition, subtraction, multiplication, division, remainder, square
root and the conversions do just that. The contracts of everything else are stated over these
operations and are exact, down to the last bit. The price is speed: an operation takes some dozen
integer operations.

Powers, sines and cosines are left to the machine, and so are random numbers; the library takes
them as arguments.

## Modules

| Module | What it holds |
|---|---|
| `magnitude`, `binary32` | numbers, rounding, the laws of arithmetic |
| `rounding`, `estimate` | how far results can be from the exact ones |
| `merging` | merging of whatever touches, in one fixed order, and what it conserves |
| `types`, `error`, `collision`, `reference` | particles of a compute device, a step on the host |
| `cuda`, `session` | the host's side of a compute device, and a session with one |
| `bodies`, `simd`, `wasm`, `simulation` | clouds on the host, with eight-lane arithmetic and without |
| `balance` and the modules whose names end in it, `simd_estimate` | what a step keeps, up to rounding |
| `softening`, `finiteness`, `displaced`, `reversal` | what keeps particles finite, what small moves change, and what a step back undoes |
| `agreement`, `merge_agreement` | how far the clouds and the particles of a compute device can be apart |
| `gpu`, `gpu_layout`, `gpu_state`, `bytes` | the host's side of a graphics device |
| `spawn`, `frame`, `trails`, `appearance`, `interface` | the start of a cloud, time, controls, and what there is to see |
| `spawn_range`, `centring`, `transition_range` | the ranges of a fresh cloud, its centre, and how far a body can turn |

A device is driven by plans. The library hands out the next action, the program carries it out and
hands back what came of it.

Two functions are believed rather than proved, both in `bytes`: the casts between words and bytes
of the `bytemuck` crate, whose byte order is that of the machine.

## Laws

What holds of the library as a whole stands next to the functions it is about, as public proof
functions whose names begin with `law_`. Among them: only live particles are left after a step; a
step on a compute device takes the particles to where a step on the host takes them, provided that
its kernels compute as the host does; a lone particle moves straight on; particles start inside the
disk, with masses and speeds in their ranges; no step is left over after a frame; no expired trail
point is left.

Some laws hold in exact arithmetic and up to rounding in this one: a step keeps mass and momentum
and carries the centre of mass along; the clouds accelerate alike; particles merge as bodies do; a
fresh cloud rests around its centre; a step back returns. They are stated over the exact real
numbers that the particles hold, and their bounds are sums of what the single roundings can be off
by, which is two to the minus 24 of a result and half of the least number.

## Programs

The first argument picks the program: `simd` (the default), `wasm`, `cuda` or `gpu`.

- `cuda` loads its kernels from the PTX file that the environment variable `GRAVITY_CUDA_PTX` names.
- `gpu` loads its shaders from the directory `shaders`.

| Input | Action |
|---|---|
| `Space` | pause or resume |
| `R` | start over |
| `T` | show or hide trails |
| Up, Down | double or halve the time scale (0.125 to 4) |
| Mouse wheel | zoom (0.05 to 5) |
