//! Fixed-size text chunking for retrieval pipelines.
//!
//! Raw text is split into whitespace-delimited words, and the words are packed
//! greedily into passages of at most `chunk_size` characters. A word is never
//! split: one that is longer than `chunk_size` forms a passage of its own.
//!
//! - `text`: whitespace, words, and the splitting of text into words.
//! - `chunker`: the packing of words into passages, and the accumulator that
//!   carries it out.
//! - `passage`: passages and their identifiers.
//! - `ingest`: from the loaded files of each source to one sequence of
//!   labelled passages, or the error of the first source that failed.
//! - `laws`: what holds of every chunking, proved.
//! - `strings`: conversions between strings and vectors of characters.

pub mod chunker;
pub mod ingest;
pub mod laws;
pub mod passage;
pub mod strings;
pub mod text;
