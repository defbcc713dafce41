//! Token-level constraint engine for language-model decoding.
//!
//! - `tokset`: bit-sets over token ids, and their dense byte form.
//! - `recognizer`: byte-level recognizers and what they accept.
//! - `toktrie`: the vocabulary, walked in trie order to compute which tokens
//!   a recognizer admits; `vocabfile`: its serialized form.
//! - `parser`: compiled grammars and the incremental parser over them.
//! - `tokenparser`: the per-step core that keeps the parser in step with the
//!   model's cache, splices forced tokens and computes the bias.
//! - `abi`: the messages exchanged with the host, and the controller trait.
//! - `uppercase`: a sample controller.
use vstd::prelude::*;

pub mod abi;
pub mod parser;
pub mod recognizer;
pub mod tokenparser;
pub mod toktrie;
pub mod tokset;
pub mod uppercase;
pub mod vocabfile;

verus! {

/// Identifier of a vocabulary entry.
pub type TokenId = u32;

} // verus!
