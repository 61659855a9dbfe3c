//! The scalar serializer: the inverse direction for the `Scalar` case only.
use vstd::prelude::*;
use crate::data::{DataView, YAMLData};
use crate::error::YAMLParseError;

verus! {

/// The model of serialization: a scalar renders as its own text; sequences
/// and mappings are unsupported and fail.
pub open spec fn spec_serialize(v: DataView) -> Result<Seq<char>, YAMLParseError> {
    match v {
        DataView::Scalar(s) => Ok(s),
        _ => Err(YAMLParseError::SerializationError),
    }
}

/// Renders a scalar value back to text, unchanged. Fails with
/// `SerializationError` on a sequence or a mapping: re-emitting block syntax
/// is a deliberate limitation of this serializer.
pub fn serialize(data: &YAMLData) -> (r: Result<String, YAMLParseError>)
    ensures
        match r {
            Ok(s) => spec_serialize(data@) == Ok::<Seq<char>, YAMLParseError>(s@),
            Err(e) => spec_serialize(data@) == Err::<Seq<char>, YAMLParseError>(e),
        },
{
    match data {
        YAMLData::Scalar(value) => {
            proof {
                assert(data@ == DataView::Scalar(value@));
            }
            Ok(value.clone())
        },
        YAMLData::Sequence(items) => {
            proof {
                assert(data@ is Sequence);
            }
            Err(YAMLParseError::SerializationError)
        },
        YAMLData::Mapping(entries) => {
            proof {
                assert(data@ is Mapping);
            }
            Err(YAMLParseError::SerializationError)
        },
    }
}

} // verus!
