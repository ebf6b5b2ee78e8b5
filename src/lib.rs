//! Word-list generation: a pattern compiler with a lazy odometer over its
//! placeholders, and a pipeline of string mutations applied to seed words.
pub mod text;
pub mod patterns;
pub mod mutation;
pub mod formatting;
pub mod config;
pub mod website;
