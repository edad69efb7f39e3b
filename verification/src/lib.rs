//! A verified lexical scanner for a small dynamic scripting language.
//!
//! The scanner walks raw source text exactly once and produces an ordered
//! sequence of tokens, each tagged with its category, its exact source text,
//! and its 1-based source line. Malformed input never aborts the scan:
//! diagnostics flow to an error-reporting collaborator and scanning resumes
//! at the next character.

pub mod error;
pub mod laws;
pub mod model;
pub mod scanner;
pub mod token;
