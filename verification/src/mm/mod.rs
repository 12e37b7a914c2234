//! Memory management: addresses, physical memory, frames and page tables.
pub mod address;
pub mod frame_allocator;
pub mod machine;
pub mod page_table;
pub mod phys_mem;
pub mod pt_spec;
pub mod pte;
pub mod user_mem;
