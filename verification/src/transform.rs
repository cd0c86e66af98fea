//! The stage that drops noise and normalises text records.

use vstd::prelude::*;
use vstd::string::StrSliceExecFns;
use vstd::utf8::{decode_utf8, encode_utf8, encode_utf8_valid_utf8, valid_utf8};
use crate::error::StageError;
use crate::framing::Record;
use crate::stage::Stage;

verus! {

/// `std::string::FromUtf8Error`, with which `String::from_utf8` refuses bytes
/// that are not text. Nothing is said of what it holds.
#[verifier::external_type_specification]
#[verifier::external_body]
pub struct ExFromUtf8Error(std::string::FromUtf8Error);

/// `String::from_utf8` accepts exactly the byte vectors that are well-formed
/// UTF-8, and the string it gives then holds the characters they encode.
pub assume_specification[ String::from_utf8 ](vec: Vec<u8>) -> (text: Result<
    String,
    std::string::FromUtf8Error,
>)
    ensures
        text is Ok <==> valid_utf8(vec@),
        text matches Ok(s) ==> s@ == decode_utf8(vec@),
;

/// The upper-case form of a text under Unicode's character-by-character case
/// mapping, which depends on no locale: what `str::to_uppercase` returns.
pub uninterp spec fn upper_case(text: Seq<char>) -> Seq<char>;

/// `str::to_uppercase` returns the upper-case form of the text it is given.
pub assume_specification[ str::to_uppercase ](text: &str) -> (upper: String)
    ensures
        upper@ == upper_case(text@),
;

/// Whether a record is long enough and reads as text, so that it is kept.
pub open spec fn is_text_record(rec: Seq<u8>) -> bool {
    rec.len() > 3 && valid_utf8(rec)
}

/// What is forwarded in place of `rec`: nothing for a record of three bytes
/// or fewer or one that is not UTF-8, else the encoding of its upper-case text.
pub open spec fn forwarded(rec: Seq<u8>) -> Option<Seq<u8>> {
    if is_text_record(rec) {
        Some(encode_utf8(upper_case(decode_utf8(rec))))
    } else {
        None
    }
}

/// What the stage makes of `records`: each kept record rewritten, in the
/// order in which the records came.
pub open spec fn transformed(records: Seq<Seq<u8>>) -> Seq<Seq<u8>> {
    records.filter_map(|rec: Seq<u8>| forwarded(rec))
}

/// Whatever is forwarded in place of a record is well-formed UTF-8.
pub proof fn lemma_forwarded_is_text(rec: Seq<u8>)
    ensures
        forwarded(rec) matches Some(bytes) ==> valid_utf8(bytes),
{
    encode_utf8_valid_utf8(upper_case(decode_utf8(rec)));
}

/// Every record that the stage gives is well-formed UTF-8.
pub proof fn lemma_transformed_is_text(records: Seq<Seq<u8>>)
    ensures
        forall|i: int|
            0 <= i < transformed(records).len() ==> valid_utf8(#[trigger] transformed(records)[i]),
    decreases records.len(),
{
    if records.len() > 0 {
        let kept = transformed(records.drop_last());
        lemma_transformed_is_text(records.drop_last());
        lemma_forwarded_is_text(records.last());
        assert forall|i: int| 0 <= i < transformed(records).len() implies valid_utf8(
            #[trigger] transformed(records)[i],
        ) by {
            if i < kept.len() {
                assert(transformed(records)[i] == kept[i]);
            }
        }
    }
}

/// Records are handled one by one and stay in order: of one run of records
/// followed by another, the stage makes what it makes of the first followed
/// by what it makes of the second.
pub proof fn lemma_transformed_in_order(front: Seq<Seq<u8>>, back: Seq<Seq<u8>>)
    ensures
        transformed(front + back) == transformed(front) + transformed(back),
    decreases back.len(),
{
    if back.len() == 0 {
        assert(front + back == front);
        assert(transformed(front) + transformed(back) == transformed(front));
    } else {
        let all = front + back;
        assert(all.drop_last() == front + back.drop_last());
        assert(all.last() == back.last());
        lemma_transformed_in_order(front, back.drop_last());
        let kept = transformed(back.drop_last());
        if let Some(bytes) = forwarded(back.last()) {
            assert(transformed(front) + (kept + seq![bytes]) == (transformed(front) + kept)
                + seq![bytes]);
        }
    }
}

/// The record that carries `text`: its UTF-8 encoding.
pub fn text_record(text: String) -> (rec: Record)
    ensures
        rec@ == encode_utf8(text@),
{
    text.as_str().as_bytes_vec()
}

/// Rewrites one record, or drops it.
pub fn rewrite(rec: Record) -> (out: Option<Record>)
    ensures
        out is Some <==> is_text_record(rec@),
        out matches Some(bytes) ==> forwarded(rec@) == Some(bytes@),
{
    if rec.len() <= 3 {
        return None;
    }
    match String::from_utf8(rec) {
        Ok(text) => Some(text_record(text.to_uppercase())),
        Err(_) => None,
    }
}

/// Drops records of three bytes or fewer and records that are not UTF-8, and
/// turns the text of every other record into upper case.
pub struct BusinessLogicStage;

impl Stage<Vec<Record>, Vec<Record>> for BusinessLogicStage {
    open spec fn yields(&self, input: Vec<Record>, result: Result<Vec<Record>, StageError>) -> bool {
        result matches Ok(out) && out.deep_view() == transformed(input.deep_view())
    }

    /// Never fails: a record that cannot be kept is left out. What is
    /// handed on is text.
    fn run(&self, input: Vec<Record>) -> (result: Result<Vec<Record>, StageError>)
        ensures
            result matches Ok(out) && out.deep_view() == transformed(input.deep_view()),
            result matches Ok(out) && forall|i: int|
                0 <= i < out.len() ==> valid_utf8(#[trigger] out[i]@),
    {
        let ghost items = input@;
        let ghost all = input.deep_view();
        let mut out: Vec<Record> = Vec::new();
        proof {
            assert(out.deep_view() == Seq::<Seq<u8>>::empty());
            assert(all.take(0).len() == 0);
        }
        for rec in it: input
            invariant
                it.seq() == items,
                all.len() == items.len(),
                forall|k: int| 0 <= k < items.len() ==> all[k] == (#[trigger] items[k])@,
                out.deep_view() == transformed(all.take(it.index())),
        {
            let ghost before = out.deep_view();
            proof {
                assert(rec == items[it.index()]);
                all.lemma_filter_map_take_succ(|rec: Seq<u8>| forwarded(rec), it.index());
            }
            match rewrite(rec) {
                Some(bytes) => {
                    out.push(bytes);
                    proof {
                        assert(bytes.deep_view() == bytes@);
                        assert(out.deep_view() == before + seq![bytes@]);
                    }
                },
                None => {
                    proof {
                        assert(before + Seq::<Seq<u8>>::empty() == before);
                    }
                },
            }
        }
        proof {
            assert(all.take(items.len() as int) == all);
            lemma_transformed_is_text(all);
            assert forall|i: int| 0 <= i < out.len() implies valid_utf8(#[trigger] out[i]@) by {
                assert(out.deep_view()[i] == out[i]@);
            }
        }
        Ok(out)
    }
}

} // verus!
