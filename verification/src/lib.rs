//! Verified core of a Linux performance-event collector: the perf event ABI,
//! the perf ring buffer protocol, module mappings and symbols, and DWARF
//! call-frame information parsing used for stack unwinding.

pub mod abi;
pub mod builder;
pub mod dwarf;
pub mod export;
pub mod intern;
pub mod mappings;
pub mod mapping_order;
pub mod ringbuf;
pub mod symbols;
pub mod symtext;
