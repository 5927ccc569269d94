//! A verified library for build-time code synthesis.
//!
//! The crate models the host language's syntax tokens as a small recursive
//! datatype and verifies the logic that a build-time expansion needs: the
//! declaration parser, the binary-codec generator, and the compute side of
//! the snippet-execution pipeline.

pub mod generate;
pub mod lex;
pub mod method;
pub mod parse;
pub mod token;
