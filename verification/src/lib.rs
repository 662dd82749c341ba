//! A two-tier kernel heap: a buddy allocator over 4 KiB pages, fronted by
//! fixed-size slab pools for small objects.

pub mod math;
pub mod allocator;
pub mod tree;
pub mod marks;
pub mod search;
pub mod blocks;
pub mod buddy_allocator;
pub mod slub_model;
pub mod pool_model;
pub mod slub_frame;
pub mod slub_pool;
pub mod slub_allocator;
pub mod hybrid_allocator;
pub mod mutexed_allocator;
