//! Procedural text generation from named rules of string templates.
//!
//! A grammar maps rule names to branches of templates. Templates mix literal text with
//! bracketed references: `{name}`, `{@name}` (the same expansion throughout a generation),
//! `{$name}` (each alternative once before any repeats), each optionally followed by dot
//! separated filters. Generation expands a start rule recursively, drawing from a random
//! source at each choice.
//!
//! The evaluation rules are stated in `semantics` as functions of the draws the random
//! source hands out; the executable evaluator in `evaluation` is proved to follow them, and
//! `laws` proves the properties that hold of every generation.
pub mod branch;
pub mod error;
pub mod evaluation;
pub mod expansion_tree;
pub mod filter;
pub mod grammar;
pub mod laws;
pub mod random;
pub mod registry;
pub mod semantics;
pub mod table;
pub mod template;
pub mod text;
