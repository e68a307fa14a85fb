//! Dynamic 2-D rectangle packing for texture atlases.
//!
//! Two shelf-packing engines place axis-aligned rectangles on a fixed
//! surface and reclaim the space of the ones that are given back:
//! [`allocator2::AtlasAllocator`] tracks every rectangle on its own, and
//! [`BucketedAtlasAllocator`] groups them into reference-counted bins.

pub mod alloc_id;
pub mod allocator2;
pub mod bucketed;
pub mod geometry;
pub mod sizing;

pub use alloc_id::{AllocId, Allocation, AllocatorOptions};
pub use bucketed::BucketedAtlasAllocator;
pub use geometry::{point2, size2, Point, Rectangle, Region, Size};
