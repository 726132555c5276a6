//! Resolution of C-preprocessor-style file inclusion directives over a
//! pluggable content source, producing a flattened text together with a
//! line-accurate index from every output line back to the file and line
//! that produced it.

pub mod assoc;
pub mod cache;
pub mod chars;
pub mod error;
pub mod hook;
pub mod laws;
pub mod model;
pub mod node;
pub mod parse;
pub mod scan;
pub mod source;

pub use node::{Index, Node};
pub use parse::context::Context;
pub use parse::file_context::FileContext;
pub use parse::gate::{Gate, GateStack};
pub use parse::parser::{FileCache, FileCacheEntry, Flags, Parser, ParserBuilder};
pub use source::{Mem, Source};
