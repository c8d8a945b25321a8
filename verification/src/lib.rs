//! Kernel core of a small cooperative operating-system skeleton: a
//! round-robin process scheduler, a priority/deadline task queue, a flat
//! region-based memory allocator with split/coalesce semantics, a mailbox
//! IPC layer, and an in-memory hierarchical file store.

pub mod core_system;
pub mod file_system;
pub mod ipc;
pub mod memory_manager;
pub mod scheduler;
