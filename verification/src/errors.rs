//! Typed failures of the tokenizer: configuration, state validation and
//! decode lookups. Failures of the model file parser live with the parser.

use vstd::prelude::*;

verus! {

/// Why a tokenizer operation was refused.
#[derive(Debug, Clone, Copy, PartialEq, Eq, Structural)]
pub enum TokenizerError {
    /// The requested vocabulary size is below 256, the number of raw bytes.
    Config,
    /// A merge refers to an id that no earlier merge or raw byte defines,
    /// or a special token collides with the merge-derived ids.
    InvalidState,
    /// Decoding met an id that neither the vocabulary nor the special
    /// tokens define.
    Lookup,
}

} // verus!
