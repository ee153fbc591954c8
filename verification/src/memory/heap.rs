//! The heap.
pub mod fixed_size_allocator;
