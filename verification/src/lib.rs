//! Fixed-capacity, no-allocation garbage-collected heaps for environments
//! without an external allocator.
//!
//! Client code obtains opaque [`Pointer`] handles by requesting blocks of
//! machine words; a heap may relocate blocks during collection, but handles
//! stay valid because they name a block by identity, not by address. Three
//! collectors are provided: a non-reclaiming bump allocator
//! ([`OnceAndDoneHeap`]), a two-space copying collector ([`CopyingHeap`]),
//! and a two-generation collector with a promotion threshold
//! ([`GenerationalHeap`]).

mod evacuate;
pub mod copying;
pub mod generational;
pub mod laws;
pub mod model;
pub mod once;
pub mod ram;
pub mod table;
pub mod types;
pub mod util;

pub use crate::copying::CopyingHeap;
pub use crate::generational::GenerationalHeap;
pub use crate::once::OnceAndDoneHeap;
pub use crate::ram::RamHeap;
pub use crate::table::BlockTable;
pub use crate::types::BlockInfo;
pub use crate::types::HeapError;
pub use crate::types::Pointer;
pub use crate::types::Tracer;
pub use crate::util::independent_elements_from;
