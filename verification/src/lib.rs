//! The memory management and system call logic of a small RISC-V kernel:
//! Sv39 page tables held in physical memory, access to user memory through
//! them, and the bookkeeping of the synchronisation system calls with deadlock
//! detection.
pub mod deadlock;
pub mod mm;
pub mod syscall;
