//! The decisions of a linker for BPF programs: which inputs are linked and how,
//! which symbols stay visible, how debug information is made fit for the kernel,
//! and how accesses are made relocatable.
pub mod answers;
pub mod archive;
pub mod bitcode;
pub mod bytes;
pub mod cli;
pub mod core_reloc;
pub mod di;
pub mod diagnostics;
pub mod dwarf;
pub mod error;
pub mod input;
pub mod lib_path;
pub mod link;
pub mod members;
pub mod native;
pub mod object;
pub mod options;
pub mod pipeline;
pub mod symbols;
pub mod text;
pub mod trace;

pub use crate::error::LinkerError;
pub use crate::input::LinkerInput;
pub use crate::options::{Cpu, LinkerOptions, OptLevel, OutputType};
