//! Physical memory and page tables.
pub mod heap;
pub mod invlpgb;
pub mod page;
pub mod pagetable;
pub mod temporary;
