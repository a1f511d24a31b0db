//! Multi-way sequence merging with provenance.
//!
//! Given `K` ordered sequences of items, the library folds them into a single
//! ordered sequence in which every element carries the set of source indices
//! it came from, such that restricting the output to any one source index
//! reproduces that source exactly.
//!
//! Items are plain `u64` keys, so the contracts rest on nothing but integer
//! equality. A caller whose elements are richer (or who wants a custom,
//! shallower notion of equality) assigns one key per equivalence class of
//! its elements and merges the keys; the projection table then leads from
//! each merged entry back to the element it came from in each source.

use vstd::prelude::*;

pub mod align;
pub mod cfgs;
pub mod merge;
pub mod project;
pub mod properties;
pub mod provenance;

pub use cfgs::{Cfgs, Error};
pub use merge::{multidiff, restrict, Chunk, ChunkModel};
pub use project::{multidiff_indexes, project};
pub use properties::{can_reconstruct_original, does_not_crash, equals_return_same, widen};
pub use provenance::ProvenanceSet;

verus! {

} // verus!
