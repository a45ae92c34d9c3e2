//! Semantic versions (SemVer 2.0) with range specifications in two syntaxes:
//! the "simple" comma-separated syntax and npm's range syntax.

pub mod text;
pub mod error;
pub mod identifiers;
pub mod version;
pub mod laws;
pub mod syntax_laws;
pub mod clause;
pub mod simple_spec;
pub mod npm_spec;
pub mod legacy;
pub mod components;
pub mod repr;
