//! What a compute device backend refuses.

use vstd::prelude::*;

verus! {

/// A request that the backend refuses.
#[derive(Clone, Copy, Debug, PartialEq, Eq, Structural)]
pub enum CudaError {
    /// The backend holds another number of particles than the request speaks of.
    CountMismatch { active: usize, requested: usize },
}

} // verus!
