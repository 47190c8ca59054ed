//! How the memory and the programs of a graphics device are laid out: buffers, what each binding
//! of a program expects, and which buffer is bound to it.

use vstd::prelude::*;

verus! {

/// The number of buckets of the collision grid.
pub const COLLISION_GRID_SIZE: usize = 32768;

/// The size of the collision grid's metadata: the buckets, two words per particle of the largest
/// cloud, and four words.
pub const COLLISION_META_SIZE: u64 = 211_088;

/// The size of the record of a particle.
pub const PARTICLE_STRIDE: u64 = 32;

/// The size of the record of a trail point.
pub const TRAIL_STRIDE: u64 = 32;

/// The largest number of particles of a cloud.
pub const MAX_PARTICLE_COUNT: usize = 10_000;

/// How many samples of the whole cloud the trails hold.
pub const TRAIL_MAX_SAMPLES: usize = 90;

/// A buffer.
#[derive(Clone, Copy, Debug, PartialEq, Eq, Structural)]
pub enum Buffer {
    /// One of the two particle buffers.
    Particles(bool),
    SimParams,
    SimControl,
    RenderParams,
    CollisionMeta,
    Staging,
    Trails,
}

/// What a buffer is used for.
#[derive(Clone, Copy, Debug, PartialEq, Eq, Structural)]
pub struct Usage {
    pub storage: bool,
    pub uniform: bool,
    pub copy_source: bool,
    pub copy_destination: bool,
    pub map_read: bool,
}

impl Buffer {
    /// What the buffer is used for.
    #[verifier::allow_in_spec]
    pub fn usage(self) -> Usage
        returns
            (match self {
                Buffer::Particles(_) => Usage {
                    storage: true,
                    uniform: false,
                    copy_source: true,
                    copy_destination: true,
                    map_read: false,
                },
                Buffer::SimParams | Buffer::RenderParams => Usage {
                    storage: false,
                    uniform: true,
                    copy_source: false,
                    copy_destination: true,
                    map_read: false,
                },
                Buffer::SimControl | Buffer::CollisionMeta | Buffer::Trails => Usage {
                    storage: true,
                    uniform: false,
                    copy_source: false,
                    copy_destination: true,
                    map_read: false,
                },
                Buffer::Staging => Usage {
                    storage: false,
                    uniform: false,
                    copy_source: false,
                    copy_destination: true,
                    map_read: true,
                },
            }),
    {
        match self {
            Buffer::Particles(_) => Usage {
                storage: true,
                uniform: false,
                copy_source: true,
                copy_destination: true,
                map_read: false,
            },
            Buffer::SimParams | Buffer::RenderParams => Usage {
                storage: false,
                uniform: true,
                copy_source: false,
                copy_destination: true,
                map_read: false,
            },
            Buffer::SimControl | Buffer::CollisionMeta | Buffer::Trails => Usage {
                storage: true,
                uniform: false,
                copy_source: false,
                copy_destination: true,
                map_read: false,
            },
            Buffer::Staging => Usage {
                storage: false,
                uniform: false,
                copy_source: false,
                copy_destination: true,
                map_read: true,
            },
        }
    }

    /// The size of the buffer, in bytes, for a cloud of so many particles.
    pub open spec fn bytes(self, count: int) -> int {
        match self {
            Buffer::Particles(_) | Buffer::Staging => count * PARTICLE_STRIDE,
            Buffer::SimParams => 48,
            Buffer::SimControl | Buffer::RenderParams => 32,
            Buffer::CollisionMeta => COLLISION_META_SIZE as int,
            Buffer::Trails => count * TRAIL_MAX_SAMPLES * TRAIL_STRIDE,
        }
    }

    /// The size of the buffer, in bytes, for a cloud of so many particles.
    pub fn size(self, count: usize) -> (size: u64)
        requires
            count <= MAX_PARTICLE_COUNT,
        ensures
            size == self.bytes(count as int),
    {
        match self {
            Buffer::Particles(_) | Buffer::Staging => count as u64 * PARTICLE_STRIDE,
            Buffer::SimParams => 48,
            Buffer::SimControl | Buffer::RenderParams => 32,
            Buffer::CollisionMeta => COLLISION_META_SIZE,
            Buffer::Trails => {
                let points = count * TRAIL_MAX_SAMPLES;
                points as u64 * TRAIL_STRIDE
            },
        }
    }

    /// The name of the buffer.
    pub fn label(self) -> (label: &'static str)
        ensures
            label@ == match self {
                Buffer::Particles(false) => "particles A"@,
                Buffer::Particles(true) => "particles B"@,
                Buffer::SimParams => "simulation parameters"@,
                Buffer::SimControl => "simulation control"@,
                Buffer::RenderParams => "render parameters"@,
                Buffer::CollisionMeta => "collision grid metadata"@,
                Buffer::Staging => "particle readback"@,
                Buffer::Trails => "trail storage"@,
            },
    {
        match self {
            Buffer::Particles(false) => "particles A",
            Buffer::Particles(true) => "particles B",
            Buffer::SimParams => "simulation parameters",
            Buffer::SimControl => "simulation control",
            Buffer::RenderParams => "render parameters",
            Buffer::CollisionMeta => "collision grid metadata",
            Buffer::Staging => "particle readback",
            Buffer::Trails => "trail storage",
        }
    }
}

/// Which kind of program sees a binding.
#[derive(Clone, Copy, Debug, PartialEq, Eq, Structural)]
pub enum Visibility {
    Compute,
    Vertex,
}

/// What a binding expects.
#[derive(Clone, Copy, Debug, PartialEq, Eq, Structural)]
pub enum BindingKind {
    Uniform,
    Storage { read_only: bool },
}

/// One binding of a layout.
#[derive(Clone, Copy, Debug, PartialEq, Eq, Structural)]
pub struct LayoutEntry {
    pub binding: u32,
    pub visibility: Visibility,
    pub kind: BindingKind,
}

/// A uniform of a compute program.
#[verifier::allow_in_spec]
pub fn uniform_entry(binding: u32) -> LayoutEntry
    returns
        (LayoutEntry { binding, visibility: Visibility::Compute, kind: BindingKind::Uniform }),
{
    LayoutEntry { binding, visibility: Visibility::Compute, kind: BindingKind::Uniform }
}

/// A storage buffer of a compute program.
#[verifier::allow_in_spec]
pub fn storage_entry(binding: u32, read_only: bool) -> LayoutEntry
    returns
        (LayoutEntry {
            binding,
            visibility: Visibility::Compute,
            kind: BindingKind::Storage { read_only },
        }),
{
    LayoutEntry {
        binding,
        visibility: Visibility::Compute,
        kind: BindingKind::Storage { read_only },
    }
}

/// What the programs of the simulation expect: parameters, source, destination, control.
pub open spec fn sim_entries() -> Seq<LayoutEntry> {
    seq![
        uniform_entry(0),
        storage_entry(1, false),
        storage_entry(2, false),
        storage_entry(3, false),
    ]
}

/// What the programs of the simulation expect.
pub fn sim_layout() -> (entries: Vec<LayoutEntry>)
    ensures
        entries@ == sim_entries(),
{
    vec![
        uniform_entry(0),
        storage_entry(1, false),
        storage_entry(2, false),
        storage_entry(3, false),
    ]
}

/// What the programs of the collision grid expect: parameters, source, metadata, destination,
/// control.
pub open spec fn collision_entries() -> Seq<LayoutEntry> {
    seq![
        uniform_entry(0),
        storage_entry(1, true),
        storage_entry(2, false),
        storage_entry(3, false),
        storage_entry(4, false),
    ]
}

/// What the programs of the collision grid expect.
pub fn collision_layout() -> (entries: Vec<LayoutEntry>)
    ensures
        entries@ == collision_entries(),
{
    vec![
        uniform_entry(0),
        storage_entry(1, true),
        storage_entry(2, false),
        storage_entry(3, false),
        storage_entry(4, false),
    ]
}

/// What the programs that draw expect: parameters, particles, trails.
pub open spec fn render_entries() -> Seq<LayoutEntry> {
    seq![
        LayoutEntry { binding: 0, visibility: Visibility::Vertex, kind: BindingKind::Uniform },
        LayoutEntry {
            binding: 1,
            visibility: Visibility::Vertex,
            kind: BindingKind::Storage { read_only: true },
        },
        LayoutEntry {
            binding: 2,
            visibility: Visibility::Vertex,
            kind: BindingKind::Storage { read_only: true },
        },
    ]
}

/// What the programs that draw expect.
pub fn render_layout() -> (entries: Vec<LayoutEntry>)
    ensures
        entries@ == render_entries(),
{
    vec![
        LayoutEntry { binding: 0, visibility: Visibility::Vertex, kind: BindingKind::Uniform },
        LayoutEntry {
            binding: 1,
            visibility: Visibility::Vertex,
            kind: BindingKind::Storage { read_only: true },
        },
        LayoutEntry {
            binding: 2,
            visibility: Visibility::Vertex,
            kind: BindingKind::Storage { read_only: true },
        },
    ]
}

/// The buffers bound for a program of the simulation that reads one particle buffer.
pub open spec fn sim_group(source: bool) -> Seq<Buffer> {
    seq![Buffer::SimParams, Buffer::Particles(source), Buffer::Particles(!source), Buffer::SimControl]
}

/// The buffers bound for a program of the simulation, in order of their bindings.
pub fn make_sim_bind_group(source: bool) -> (buffers: Vec<Buffer>)
    ensures
        buffers@ == sim_group(source),
{
    vec![
        Buffer::SimParams,
        Buffer::Particles(source),
        Buffer::Particles(!source),
        Buffer::SimControl,
    ]
}

/// The buffers bound for a program of the collision grid that reads one particle buffer.
pub open spec fn collision_group(source: bool) -> Seq<Buffer> {
    seq![
        Buffer::SimParams,
        Buffer::Particles(source),
        Buffer::CollisionMeta,
        Buffer::Particles(!source),
        Buffer::SimControl,
    ]
}

/// The buffers bound for a program of the collision grid, in order of their bindings.
pub fn make_collision_bind_group(source: bool) -> (buffers: Vec<Buffer>)
    ensures
        buffers@ == collision_group(source),
{
    vec![
        Buffer::SimParams,
        Buffer::Particles(source),
        Buffer::CollisionMeta,
        Buffer::Particles(!source),
        Buffer::SimControl,
    ]
}

/// The buffers bound for a program that draws one particle buffer.
pub open spec fn render_group(particles: bool) -> Seq<Buffer> {
    seq![Buffer::RenderParams, Buffer::Particles(particles), Buffer::Trails]
}

/// The buffers bound for a program that draws, in order of their bindings.
pub fn make_render_bind_group(particles: bool) -> (buffers: Vec<Buffer>)
    ensures
        buffers@ == render_group(particles),
{
    vec![Buffer::RenderParams, Buffer::Particles(particles), Buffer::Trails]
}

/// Every binding of a layout gets a buffer that can be used as it expects.
pub open spec fn fits(entries: Seq<LayoutEntry>, buffers: Seq<Buffer>) -> bool {
    &&& entries.len() == buffers.len()
    &&& forall|i: int|
        0 <= i < entries.len() ==> {
            &&& (#[trigger] entries[i]).binding == i
            &&& match entries[i].kind {
                BindingKind::Uniform => buffers[i].usage().uniform,
                BindingKind::Storage { .. } => buffers[i].usage().storage,
            }
        }
}

/// No buffer is bound twice.
pub open spec fn all_differ(buffers: Seq<Buffer>) -> bool {
    forall|i: int, j: int|
        0 <= i < j < buffers.len() ==> #[trigger] buffers[i] != #[trigger] buffers[j]
}

/// The buffers that are bound fit the layouts, and none is bound twice, so nothing that is read
/// through one binding is written through another.
pub proof fn law_bind_groups_fit_their_layouts(source: bool)
    ensures
        fits(sim_entries(), sim_group(source)),
        fits(collision_entries(), collision_group(source)),
        fits(render_entries(), render_group(source)),
        all_differ(sim_group(source)),
        all_differ(collision_group(source)),
        all_differ(render_group(source)),
{
}

/// A compute program.
#[derive(Clone, Copy, Debug, PartialEq, Eq, Structural)]
pub enum Kernel {
    Integrate,
    MergeSerial,
    Clear,
    BuildGrid,
    Propose,
    MergeCompact,
    Finalize,
    Finish,
}

impl Kernel {
    /// The name of the program's pipeline.
    pub fn label(self) -> (label: &'static str)
        ensures
            label@ == match self {
                Kernel::Integrate => "integrate pipeline"@,
                Kernel::MergeSerial => "serial collision merge pipeline"@,
                Kernel::Clear => "collision clear"@,
                Kernel::BuildGrid => "collision grid"@,
                Kernel::Propose => "collision proposals"@,
                Kernel::MergeCompact => "collision merge"@,
                Kernel::Finalize => "collision finalize"@,
                Kernel::Finish => "finish pipeline"@,
            },
    {
        match self {
            Kernel::Integrate => "integrate pipeline",
            Kernel::MergeSerial => "serial collision merge pipeline",
            Kernel::Clear => "collision clear",
            Kernel::BuildGrid => "collision grid",
            Kernel::Propose => "collision proposals",
            Kernel::MergeCompact => "collision merge",
            Kernel::Finalize => "collision finalize",
            Kernel::Finish => "finish pipeline",
        }
    }

    /// The function of its module that the program starts in.
    pub fn entry_point(self) -> (name: &'static str)
        ensures
            name@ == match self {
                Kernel::Integrate => "integrate"@,
                Kernel::MergeSerial => "merge_serial"@,
                Kernel::Clear => "clear"@,
                Kernel::BuildGrid => "build_grid"@,
                Kernel::Propose => "propose"@,
                Kernel::MergeCompact => "merge_compact"@,
                Kernel::Finalize => "finalize"@,
                Kernel::Finish => "finish"@,
            },
    {
        match self {
            Kernel::Integrate => "integrate",
            Kernel::MergeSerial => "merge_serial",
            Kernel::Clear => "clear",
            Kernel::BuildGrid => "build_grid",
            Kernel::Propose => "propose",
            Kernel::MergeCompact => "merge_compact",
            Kernel::Finalize => "finalize",
            Kernel::Finish => "finish",
        }
    }

    /// Whether the program works on the collision grid, with its module and its layout.
    #[verifier::allow_in_spec]
    pub fn uses_grid(self) -> bool
        returns
            (match self {
                Kernel::Integrate | Kernel::MergeSerial | Kernel::Finish => false,
                _ => true,
            }),
    {
        match self {
            Kernel::Integrate | Kernel::MergeSerial | Kernel::Finish => false,
            _ => true,
        }
    }
}

/// The function that colors what a vertex function has placed.
pub fn fragment_entry(trails: bool) -> (name: &'static str)
    ensures
        name@ == if trails {
            "trail_fragment"@
        } else {
            "particle_fragment"@
        },
{
    if trails {
        "trail_fragment"
    } else {
        "particle_fragment"
    }
}

/// The function that places what is drawn.
pub fn vertex_entry(trails: bool) -> (name: &'static str)
    ensures
        name@ == if trails {
            "trail_vertex"@
        } else {
            "particle_vertex"@
        },
{
    if trails {
        "trail_vertex"
    } else {
        "particle_vertex"
    }
}

/// Which of the formats that a surface offers is used: the first that is in the sRGB color space,
/// or else the first.
pub fn choose_format(is_srgb: &[bool]) -> (choice: usize)
    requires
        is_srgb.len() > 0,
    ensures
        choice < is_srgb.len(),
        forall|i: int| 0 <= i < choice ==> !#[trigger] is_srgb@[i],
        !is_srgb@[choice as int] ==> {
            &&& choice == 0
            &&& forall|i: int| 0 <= i < is_srgb.len() ==> !#[trigger] is_srgb@[i]
        },
{
    let mut i: usize = 0;
    while i < is_srgb.len()
        invariant
            i <= is_srgb.len(),
            forall|k: int| 0 <= k < i ==> !#[trigger] is_srgb@[k],
        decreases is_srgb.len() - i,
    {
        if is_srgb[i] {
            return i;
        }
        i = i + 1;
    }
    0
}

} // verus!
