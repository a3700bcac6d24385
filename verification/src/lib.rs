//! A two-level segregated fit allocator for an address range that the
//! allocator itself never reads or writes, such as device memory.
//!
//! The bookkeeping lives in an index-based arena of block records. Every
//! public operation is verified against a mathematical model of the pool:
//! the address-ordered chain of regions and the per-class free lists.

pub mod allocator;
pub mod bits;
pub mod block;
mod consistency;
mod free_list;
pub mod mapping;
mod merge;
pub mod model;
mod split;

pub use crate::allocator::AllocError;
pub use crate::allocator::SpeedAllocator;
pub use crate::block::BlockHeader;
pub use crate::block::BlockState;
pub use crate::mapping::BlockMap;
