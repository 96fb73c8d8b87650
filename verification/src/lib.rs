//! A persistent chunk allocator over a memory region with a fixed on-disk
//! layout.
//!
//! The region is a sequence of fixed-size blocks ("atoms"). Atom 0 holds the
//! region header (magic number, version, sizes, free-list root); the
//! remaining atoms are either handed out to callers or linked into a singly
//! linked list of free runs whose headers live inside the region itself, so
//! that the whole allocator state survives a round trip through the backing
//! bytes.

pub mod codec;
pub mod layout;
pub mod mmap;
pub mod rounding;
