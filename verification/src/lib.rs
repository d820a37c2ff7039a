//! The verified logic of a small x86_64 kernel: an in-memory filesystem, PCI
//! configuration access and bus scan, threads and a round-robin scheduler, keyboard
//! decoding, and VirtIO device selection.

pub mod vfs;
pub mod ramfs;
pub mod pci;
pub mod thread;
pub mod scheduler;
pub mod block;
pub mod virtio;
pub mod keyboard;
