//! Low-level memory allocators for environments without an operating-system
//! heap: a segregated-fit byte allocator with a two-level bitmap index, and a
//! dual-end bump allocator for the bootstrap phase.
use vstd::prelude::*;

pub mod byte_alloc;
pub mod early_alloc;
pub mod size_class;

pub use byte_alloc::LabByteAllocator;
pub use early_alloc::EarlyAllocator;

verus! {

/// The only failure an allocator reports: no free region can satisfy the
/// request.
#[derive(Clone, Copy, Debug, PartialEq, Eq, Structural)]
pub enum AllocError {
    NoMemory,
}

} // verus!
