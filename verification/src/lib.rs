//! A verified parser for a restricted, block-style subset of an
//! indentation-sensitive markup format, with a minimal scalar serializer.
//!
//! `parser::parse_yaml` turns text into a tree of scalars, sequences and
//! mappings (`data::YAMLData`); its contract states the whole result as a
//! recursive specification over the text's lines. `serializer::serialize`
//! renders the scalar case back to text. `laws` holds the proved properties:
//! the error taxonomy, the scalar round trip, the indentation boundary of
//! nested blocks, and the irrelevance of mapping entry order to equality.
//! File loading is left to the thin collaborator around the library.
pub mod data;
pub mod error;
pub mod laws;
pub mod parser;
pub mod serializer;
pub mod text;
