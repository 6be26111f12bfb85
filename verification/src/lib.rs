//! Memory scanning engines: value search with iterative refinement, a
//! bidirectional pointer graph with bounded offset-chain search, an index of
//! instruction-pointer-relative references found by disassembly, and byte
//! signatures that single out one such reference.
//!
//! All engines work on a [`memory::MemoryImage`], a captured picture of a
//! target's address space, so that every result is a function of the image.

pub mod decode;
pub mod disasm;
pub mod error;
pub mod links;
pub mod memory;
pub mod order;
pub mod pointer_map;
pub mod process;
pub mod sigmaker;
pub mod sweep;
pub mod value_scanner;
pub mod walk;
