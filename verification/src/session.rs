//! Decisions of the clustering session: argument validation, path
//! encodability, and translation of the native engine's status code.
//!
//! The session's outside work — creating the two scoped temporary files,
//! writing the encoded input, making the native call and reading the
//! output back — is driven by the surrounding application, which calls
//! these functions between those steps and the codec before and after
//! them.

use vstd::prelude::*;

verus! {

use crate::AlignError;
use crate::codec::StarcodeAlignment;
use crate::codec::decode_ok;
use crate::codec::decode_output;
use crate::codec::decoded_matches;
use crate::codec::encode_set;
use crate::codec::encoded_entries;
use crate::sequence_set::WeightedSequenceSet;

/// Checks the caller-tunable distance threshold, the one argument the
/// session validates before any work is done.
pub fn validate_max_distance(max_distance: i32) -> (r: Result<(), AlignError>)
    ensures
        r is Ok <==> max_distance >= 0,
        r is Err ==> r == Result::<(), AlignError>::Err(AlignError::InvalidArgument),
{
    if max_distance >= 0 {
        Ok(())
    } else {
        Err(AlignError::InvalidArgument)
    }
}

/// Translates the native engine's integer status into a typed outcome:
/// zero means the output file is valid and ready for decoding.
pub fn interpret_engine_status(status: i32) -> (r: Result<(), AlignError>)
    ensures
        r is Ok <==> status == 0,
        r is Err ==> r == Result::<(), AlignError>::Err(AlignError::EngineError(status)),
{
    if status == 0 {
        Ok(())
    } else {
        Err(AlignError::EngineError(status))
    }
}

/// The first pure phase of one clustering operation, before any outside
/// work: validates the distance threshold and encodes the input set into
/// the exact byte stream the engine's input file must hold. A negative
/// threshold is the one rejected argument; an empty set encodes to an
/// empty stream, not an error.
pub fn prepare_invocation(set: &WeightedSequenceSet, max_distance: i32) -> (r: Result<
    Vec<u8>,
    AlignError,
>)
    ensures
        r is Ok <==> max_distance >= 0,
        r matches Ok(bytes) ==> bytes@ == encoded_entries(set.entries_seq()),
        r is Err ==> r == Result::<Vec<u8>, AlignError>::Err(AlignError::InvalidArgument),
{
    validate_max_distance(max_distance)?;
    Ok(encode_set(set))
}

/// The second pure phase of one clustering operation, after the native
/// call: translates the engine's status and, on success, decodes the
/// output stream it produced. The caller receives either a complete,
/// well-formed result or one typed error — never a partial structure.
pub fn complete_invocation(status: i32, output: &[u8]) -> (r: Result<
    StarcodeAlignment,
    AlignError,
>)
    ensures
        status != 0 ==> r == Result::<StarcodeAlignment, AlignError>::Err(
            AlignError::EngineError(status),
        ),
        status == 0 ==> (r is Ok <==> decode_ok(output@)),
        status == 0 && r is Err ==> r == Result::<StarcodeAlignment, AlignError>::Err(
            AlignError::FormatError,
        ),
        r matches Ok(a) ==> status == 0 && decoded_matches(a, output@),
{
    interpret_engine_status(status)?;
    decode_output(output)
}

/// Checks that a path's bytes can be represented as null-terminated text
/// for the native call: an embedded null byte cannot be.
pub fn check_path_encodable(path: &[u8]) -> (r: Result<(), AlignError>)
    ensures
        r is Ok <==> (forall|i: int| 0 <= i < path@.len() ==> path@[i] != 0),
        r is Err ==> r == Result::<(), AlignError>::Err(AlignError::EncodingError),
{
    let mut i: usize = 0;
    while i < path.len()
        invariant
            i <= path@.len(),
            forall|k: int| 0 <= k < i ==> path@[k] != 0,
        decreases path@.len() - i,
    {
        if path[i] == 0 {
            return Err(AlignError::EncodingError);
        }
        i = i + 1;
    }
    Ok(())
}

} // verus!
