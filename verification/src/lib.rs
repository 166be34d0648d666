//! Verified model of the process, synchronisation and memory system calls
//! of a small teaching kernel.
pub mod task;
pub mod deadlock;
pub mod semaphore;
pub mod process;
pub mod syscall_sync;
pub mod mm;
pub mod syscall_process;
