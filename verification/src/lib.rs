//! A boundary-tag heap allocator over caller-supplied memory regions.
//!
//! Every block of a region starts with a fixed-size header, its boundary tag.
//! The tags of one region form a chain that is linked in both directions by
//! address. Allocation carves a block off the tail of the first free block
//! that is large enough; deallocation marks a block free and coalesces it with
//! free neighbours.
//!
//! The library keeps the books only: it works on addresses and byte counts and
//! never touches the memory that a region denotes. Each tag is a value that
//! carries the address at which its header lies, and the tags of a region are
//! kept in address order beside the managed memory.
//!
//! * [`memory_region`]: the spans of memory that are managed.
//! * [`boundary_tag`]: the header of a block, and how one tag is initialised,
//!   split and coalesced with a neighbour.
//! * [`chain_model`] and [`tag_chain`]: the chain of tags of one region, as a
//!   mathematical sequence and as the stored data.
//! * [`manager_model`] and [`memory_manager`]: the allocator over several
//!   regions, in the same two layers.

pub mod boundary_tag;
pub mod chain_model;
pub mod manager_model;
pub mod memory_manager;
pub mod memory_region;
pub mod tag_chain;
