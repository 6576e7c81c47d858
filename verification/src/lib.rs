//! A byte-pair-encoding (BPE) subword tokenizer.
//!
//! The library learns a vocabulary of merge rules from a training text and
//! uses it to map text to a sequence of integer token ids and back. Ids 0-255
//! stand for the raw bytes; each learned merge introduces a fresh id starting
//! at 256. The modules follow the stages of that pipeline: pair statistics and
//! sequence rewriting (`base`), deterministic merge selection (`selector`),
//! vocabulary derivation (`vocab`), encoding and decoding against a trained
//! table (`codec`), the tokenizer itself (`basic`), the model file format
//! (`model`), and the error taxonomy (`errors`).

pub mod base;
pub mod selector;
pub mod vocab;
pub mod errors;
pub mod basic;
pub mod codec;
pub mod model;
