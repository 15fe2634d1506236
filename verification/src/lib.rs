//! Extraction of developer comments from Rust source text into checkable
//! chunks: content strings paired with a precise mapping back to the byte,
//! line and scalar-column coordinates of the original file. Lines are
//! 1-indexed; columns are 0-indexed and counted in Unicode scalar values,
//! never bytes.
//!
//! The pipeline runs source text through the tokenizer, attaches
//! coordinates, classifies each token as a developer block comment, a
//! developer line comment or something else, trims the comment delimiters
//! into literals, groups line-adjacent literals into sets, and renders each
//! set into a chunk whose ordered map leads from byte ranges of the rendered
//! content back to spans of the file. A chunk can further be erased into a
//! plain-text overlay that still maps back to the file.

pub mod coords;
pub mod span;
pub mod tokens;
pub mod classify;
pub mod literal;
pub mod litset;
pub mod mapping;
pub mod chunk;
pub mod developer;
pub mod config;
pub mod overlay;
pub mod laws;
