//! Expansion of token templates of the form `name in A..B { body }`.
//!
//! An invocation names a loop variable, a half-open range of indices and a body. It
//! expands to the body repeated once for each index of the range, in increasing order.
//! In each copy the variable stands for the index: alone it becomes a literal, and
//! written `prefix~name` it becomes part of an identifier. Where the body holds a
//! region marked `#( ... )*`, only that region is repeated, in its place.
//!
//! Everything works on forests of tokens, not on text:
//!
//! - [`token`] holds the forest and its mathematical value;
//! - [`parse`] reads an invocation from a forest;
//! - [`scope`] finds the marked region of a body;
//! - [`expand`] rewrites one copy of a forest for one index;
//! - [`driver`] repeats the body or the region over the range;
//! - [`laws`] states what holds of every expansion;
//! - [`decimal`] writes an index in base ten, and [`error`] holds what is reported.
//!
//! Groups may nest to the depth [`expand::MAX_DEPTH`]. Every function that reads,
//! searches, rewrites or splices a forest tests the depth first and refuses a forest
//! that goes deeper, so that it descends no further than that. The one exception is
//! what Rust's own traits ask of a token: `Clone`, and the derived comparison and
//! printing, follow a forest as deep as it nests.

pub mod decimal;
pub mod driver;
pub mod error;
pub mod expand;
pub mod laws;
pub mod parse;
pub mod scope;
pub mod token;
