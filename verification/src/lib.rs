//! Parsing and matching of semantic versions and version-constraint
//! expressions.
//!
//! `version` holds the full pipeline: a tokenizer, a version parser driven by
//! a three-state machine (core, pre-release, metadata), a recursive-descent
//! condition grammar, and the comparison semantics of each condition kind.
//! `semver` holds a reduced parser for plain `MAJOR[.MINOR[.PATCH]]` strings.

pub mod chars;
pub mod semver;
pub mod version;
