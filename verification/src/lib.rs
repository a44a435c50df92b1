//! Unicorn: a userspace device manager for a capability-based microkernel.
//!
//! The library holds the manager's verified core: the generation-indexed
//! device tree, driver matching and spawn bookkeeping, the MMIO/IRQ
//! capability broker, the logical-device registry with auto-naming and
//! hooks, and the message dispatcher that sequences them. The kernel and
//! the resource/process managers are outside collaborators: the dispatcher
//! returns the actions to perform on them as plain values.

pub mod config;
pub mod device;
pub mod dma;
pub mod errors;
pub mod gpt;
pub mod hooks;
pub mod kmap;
pub mod logic;
pub mod manifest;
pub mod mbr;
pub mod namegen;
pub mod partition;
pub mod pci;
pub mod server;
pub mod strutil;
pub mod tree;
