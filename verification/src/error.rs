//! The error taxonomies: one for parsing and serializing, one for file loading.
use vstd::prelude::*;

verus! {

/// Failures of the block parser and of the scalar serializer.
///
/// `EmptyInput` is returned exactly when the input text is empty or all
/// whitespace. `InvalidFormat` covers every structural violation: an unmatched
/// opening bracket in an inline value, a sequence marker with nothing after it
/// and no nested block, or a mapping separator with an empty key.
/// `SerializationError` is returned by the serializer on the variants it does
/// not support, and `DeserializationError` is reserved for callers that layer
/// typed decoding on top of a parsed tree.
#[derive(Clone, Copy, Debug, PartialEq, Eq, Structural)]
pub enum YAMLParseError {
    EmptyInput,
    InvalidFormat,
    SerializationError,
    DeserializationError,
}

/// Failures of the file loader collaborator, distinct from parse failures.
#[derive(Clone, Copy, Debug, PartialEq, Eq, Structural)]
pub enum FileLoadError {
    FileNotFound,
    FileNotReadable,
}

} // verus!
