//! Parsing, canonical text and hashing for the chip description format.
//!
//! A description is a text file with a `# CHIP v2 <name>` or `# MEMORY v2 <name>` header
//! and labelled sections. [`parse`] reads one whose `IMPORT` lines are already resolved;
//! [`Resolver`] makes the decisions of resolving them; [`canonical_text`] and
//! [`canonical_hash`] give a stable text and hash of a parsed definition.

pub mod text;
pub mod text_laws;
pub mod model;
pub mod parser;
pub mod canonical;
pub mod imports;
pub mod laws;
pub mod parse_laws;
pub mod resolve_laws;
pub mod canonical_laws;
pub mod section_laws;

pub use canonical::{canonical_hash, canonical_text};
pub use imports::{parse_import_target, ResolveAction, Resolver};
pub use model::{Definition, Instance, MemoryBlock, Module};
pub use parser::parse;
