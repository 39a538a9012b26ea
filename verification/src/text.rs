use vstd::prelude::*;
use crate::error::ChestError;

verus! {

/// The text that results from applying a unified diff to a base text,
/// when the diff parses and applies cleanly. A function of the two texts
/// alone.
pub uninterp spec fn patched_text(base: Seq<char>, diff: Seq<char>) -> Option<Seq<char>>;

/// Applies a unified diff to a text.
///
/// Relies on `diffy::Patch::from_str` and `diffy::apply`: parsing and
/// applying a unified diff depends on the base text and the diff alone.
#[verifier::external_body]
pub(crate) fn apply_patch(base: &str, diff: &str) -> (r: Result<String, ChestError>)
    ensures
        r is Ok <==> patched_text(base@, diff@) is Some,
        r is Ok ==> Some(r.unwrap()@) == patched_text(base@, diff@),
        r is Err ==> r->Err_0 == ChestError::PatchConflict,
{
    let patch = match diffy::Patch::from_str(diff) {
        Ok(patch) => patch,
        Err(_) => return Err(ChestError::PatchConflict),
    };
    match diffy::apply(base, &patch) {
        Ok(text) => Ok(text),
        Err(_) => Err(ChestError::PatchConflict),
    }
}

/// Decodes bytes as UTF-8 text.
///
/// Relies on `String::from_utf8`: it accepts exactly the valid UTF-8
/// byte sequences and decodes them.
#[verifier::external_body]
pub(crate) fn bytes_to_string(bytes: Vec<u8>) -> (r: Result<String, ChestError>)
    ensures
        r is Ok <==> vstd::utf8::valid_utf8(bytes@),
        r is Ok ==> r.unwrap()@ == vstd::utf8::decode_utf8(bytes@),
        r is Err ==> r->Err_0 == ChestError::NotText,
{
    match String::from_utf8(bytes) {
        Ok(text) => Ok(text),
        Err(_) => Err(ChestError::NotText),
    }
}

/// Encodes text into its UTF-8 bytes.
pub(crate) fn string_to_bytes(text: &str) -> (r: Vec<u8>)
    ensures
        r@ == vstd::utf8::encode_utf8(text@),
{
    text.as_bytes_vec()
}

} // verus!
