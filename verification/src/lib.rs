//! Buddy allocators: a heap with per-unit metadata, and a frame allocator.

pub mod bits;
pub mod blocks;
pub mod frame;
pub mod frame_laws;
pub mod frame_model;
pub mod frame_rules;
pub mod heap_rules;
pub mod laws;
pub mod layout;
pub mod locked;
pub mod metadata_heap;
pub mod model;
pub mod region;
pub mod sorted;
pub mod table;

pub use bits::prev_power_of_two;
pub use frame::FrameAllocator;
pub use layout::{Layout, LayoutError};
pub use locked::LockedMetadataHeap;
pub use metadata_heap::{AllocError, InitError, MetadataHeap, PageOrder, PageRun};
