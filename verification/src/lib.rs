//! Measuring and explaining the size of a compiled binary.
//!
//! The engine locates the symbols of an executable, attributes each one
//! to the compilation unit that produced it, counts generic-instantiation
//! bloat from textual IR dumps, and diffs two such analyses.  Every
//! function here carries a contract; the only outside calls are the
//! object-format parsers and the demangler, each behind a trusted
//! declaration whose contract names what the call returns.  File and
//! process handling live in the thin shell around the library.

pub mod analysis;
pub mod cargo;
pub mod cli;
pub mod compare;
pub mod crate_name;
pub mod demangle;
pub mod env;
pub mod formatting;
pub mod index;
pub mod llvm_ir;
pub mod object;
pub mod reporting;
pub mod strutil;
pub mod types;

pub use types::ByteSize;
