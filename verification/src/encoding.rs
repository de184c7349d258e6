use encoding_rs::SHIFT_JIS;
use vstd::prelude::*;
use vstd::utf8::{decode_utf8, valid_utf8};

verus! {

/// What `encoding_rs::Encoding::decode_without_bom_handling_and_without_replacement`
/// yields for `encoding_rs::SHIFT_JIS` on `bytes`: the text that the bytes
/// encode, or none where a sequence among them is malformed.
pub uninterp spec fn shift_jis_text(bytes: Seq<u8>) -> Option<Seq<char>>;

/// The text of a chart's bytes: what they encode in Shift JIS where they are
/// well formed in it, else what they encode in UTF-8, else none.
pub open spec fn text_of_bytes(bytes: Seq<u8>) -> Option<Seq<char>> {
    match shift_jis_text(bytes) {
        Some(text) => Some(text),
        None => if valid_utf8(bytes) {
            Some(decode_utf8(bytes))
        } else {
            None
        },
    }
}

/// Calls `decode_without_bom_handling_and_without_replacement` on
/// `encoding_rs::SHIFT_JIS`. The contract only names what it returns; the
/// bound keeps the buffer that the decoder asks for, three bytes for each
/// byte of input, within `usize`.
#[verifier::external_body]
pub(crate) fn decode_shift_jis(bytes: &[u8]) -> (text: Option<String>)
    requires
        3 * bytes@.len() <= usize::MAX,
    ensures
        match text {
            Some(t) => shift_jis_text(bytes@) == Some(t@),
            None => shift_jis_text(bytes@) is None,
        },
{
    SHIFT_JIS.decode_without_bom_handling_and_without_replacement(bytes).map(|t| t.into_owned())
}

/// Calls `std::str::from_utf8`: the text where `bytes` are valid UTF-8, none
/// where they are not.
#[verifier::external_body]
pub(crate) fn decode_utf8_text(bytes: &[u8]) -> (text: Option<String>)
    ensures
        match text {
            Some(t) => valid_utf8(bytes@) && t@ == decode_utf8(bytes@),
            None => !valid_utf8(bytes@),
        },
{
    std::str::from_utf8(bytes).ok().map(|t| t.to_string())
}

/// Decodes the bytes of a chart: as Shift JIS where that meets no malformed
/// sequence, else as UTF-8.
pub fn resolve_encoding(bytes: &[u8]) -> (text: Option<String>)
    requires
        3 * bytes@.len() <= usize::MAX,
    ensures
        match text {
            Some(t) => text_of_bytes(bytes@) == Some(t@),
            None => text_of_bytes(bytes@) is None,
        },
{
    match decode_shift_jis(bytes) {
        Some(text) => Some(text),
        None => decode_utf8_text(bytes),
    }
}

} // verus!
