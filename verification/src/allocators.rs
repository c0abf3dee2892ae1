//! Allocators: the per-region page bitmap and the two heap layouts.

pub mod buddy_allocator;
pub mod first_fit_allocator;
pub mod page_allocator;
