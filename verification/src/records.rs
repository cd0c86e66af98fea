//! The record pipeline: the framing codec followed by the transform.

use vstd::prelude::*;
use crate::error::StageError;
use crate::framing::{decoded, Record, RecordParserStage};
use crate::pipeline::chained;
use crate::transform::{transformed, BusinessLogicStage};
use crate::wire::parse_frames;

verus! {

/// What the record pipeline makes of a buffer: the transformed records when
/// the buffer decodes, else the decoding failure, untouched.
pub open spec fn processed(buf: Seq<u8>) -> Result<Seq<Seq<u8>>, StageError> {
    match parse_frames(buf) {
        Ok(records) => Ok(transformed(records)),
        Err(e) => Err(e),
    }
}

/// Whatever the codec chained to the transform returns for a buffer is what
/// `processed` says. When decoding fails the result is the decoding failure
/// itself, so nothing of the transform enters into it.
pub proof fn lemma_record_pipeline(input: Vec<u8>, result: Result<Vec<Record>, StageError>)
    requires
        chained(&RecordParserStage, &BusinessLogicStage, input, result),
    ensures
        decoded(result) == processed(input@),
        parse_frames(input@) matches Err(e) ==> result == Err::<Vec<Record>, StageError>(e),
{
}

} // verus!
