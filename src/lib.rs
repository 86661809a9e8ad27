//! Translation of an OpenGL-family API registry into a Rust binding module:
//! version selection, symbol extraction, feature resolution, declaration
//! translation and the layout of the procedure table.

pub mod text;
pub mod dom;
pub mod cmdline;
pub mod commands;
pub mod comments;
pub mod emit;
pub mod error;
pub mod features;
pub mod groups;
pub mod versions;
pub mod decl;
pub mod table;
pub mod procs;
pub mod types;
pub mod used_identifiers;
pub mod values;
