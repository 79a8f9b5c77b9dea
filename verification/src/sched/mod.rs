//! Threads and what the scheduler has to know of them.
pub mod futex;
pub mod stack;
pub mod regs;
pub mod list;
pub mod thread;
pub mod sys;
pub mod laws;
