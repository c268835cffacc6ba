//! Address-space and shared-memory bookkeeping for a kernel's memory manager.
//!
//! The crate tracks which virtual regions belong to an address space, keeps
//! the page table in step with them, and counts the attachments of System-V
//! style shared-memory segments. Exclusive access is expressed by `&mut`
//! borrows: whoever holds the borrow holds the lock.

pub mod addr;
pub mod error;
pub mod mappings;
pub mod page;
pub mod shm;
pub mod syscall;
pub mod ucontext;
pub mod vma;
