//! Reading the metadata tables of a compiled BEAM module.

pub mod atom;
pub mod bytes;
pub mod container;
pub mod dump;
pub mod error;
pub mod import;
pub mod literal;
pub mod text;
