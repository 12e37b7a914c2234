//! System calls: what each one decides and changes in the kernel's state.
pub mod process;
pub mod sync;
