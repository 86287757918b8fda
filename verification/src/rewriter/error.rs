use vstd::prelude::*;
use crate::base::{encoding_for_label, is_ascii_compatible, spec_encoding_for_label, spec_is_ascii_compatible};

verus! {

/// An error that occurs when an unsupported encoding is given.
#[derive(Debug, Copy, Clone, PartialEq, Eq, Structural)]
pub enum EncodingError {
    /// The encoding label names no known encoding.
    UnknownEncoding,
    /// The encoding is not ASCII-compatible.
    NonAsciiCompatibleEncoding,
}

/// What an encoding label gives the rewriter: the name of its encoding where it is a
/// known ASCII-compatible one, else the error.
pub open spec fn spec_rewriter_encoding(label: Seq<char>) -> Result<Seq<char>, EncodingError> {
    match spec_encoding_for_label(label) {
        None => Err(EncodingError::UnknownEncoding),
        Some(name) => if spec_is_ascii_compatible(label) {
            Ok(name)
        } else {
            Err(EncodingError::NonAsciiCompatibleEncoding)
        },
    }
}

/// Checks that the label names an encoding that the rewriter supports, an
/// ASCII-compatible one, and returns its name.
pub fn rewriter_encoding(label: &str) -> (r: Result<String, EncodingError>)
    ensures
        match r {
            Ok(name) => spec_rewriter_encoding(label@) == Ok::<Seq<char>, EncodingError>(name@),
            Err(e) => spec_rewriter_encoding(label@) == Err::<Seq<char>, EncodingError>(e),
        },
{
    match encoding_for_label(label) {
        None => Err(EncodingError::UnknownEncoding),
        Some(name) => {
            if is_ascii_compatible(label) {
                Ok(name)
            } else {
                Err(EncodingError::NonAsciiCompatibleEncoding)
            }
        },
    }
}

} // verus!
