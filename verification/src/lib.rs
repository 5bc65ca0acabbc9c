use vstd::prelude::*;

pub mod cpu;
pub mod fdt;
pub mod kalloc;
pub mod live_pages;
pub mod memory_layout;
pub mod mapping_plan;
pub mod mmu;
pub mod pagetable;
pub mod physical_memory;
pub mod registers;

verus! {
}
