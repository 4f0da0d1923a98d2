//! Shift-JIS, the text encoding of the strings and labels of RLB files, through
//! the `encoding_rs` crate.
use vstd::prelude::*;
use encoding_rs::SHIFT_JIS;

verus! {

/// The text that `encoding_rs` decodes from `bytes` as Shift-JIS, or `None`
/// when the bytes hold a malformed sequence.
pub uninterp spec fn shift_jis_decoded(bytes: Seq<u8>) -> Option<Seq<char>>;

/// The Shift-JIS bytes that `encoding_rs` encodes `text` to, or `None` when
/// the text holds a character that Shift-JIS cannot represent.
pub uninterp spec fn shift_jis_encoded(text: Seq<char>) -> Option<Seq<u8>>;

/// Every byte is below 0x80.
pub open spec fn is_ascii_bytes(b: Seq<u8>) -> bool {
    forall|i: int| 0 <= i < b.len() ==> #[trigger] b[i] < 0x80
}

/// Every character is below U+0080.
pub open spec fn is_ascii_text(t: Seq<char>) -> bool {
    forall|i: int| 0 <= i < t.len() ==> (#[trigger] t[i] as u32) < 0x80
}

/// The characters whose codes are the given ASCII bytes.
pub open spec fn ascii_text(b: Seq<u8>) -> Seq<char> {
    Seq::new(b.len(), |i: int| b[i] as char)
}

/// The bytes that are the codes of the given ASCII characters.
pub open spec fn ascii_bytes(t: Seq<char>) -> Seq<u8> {
    Seq::new(t.len(), |i: int| (t[i] as u32) as u8)
}

/// Decodes `bytes` with `encoding_rs::SHIFT_JIS.decode`.
///
/// Trusted: the result is `shift_jis_decoded(bytes@)`, which is `None` exactly
/// when `encoding_rs` reports malformed sequences; and bytes that are all ASCII
/// decode to the characters with the same codes (`decode` finds no byte-order
/// mark, which would start with a byte above 0x7F, and borrows ASCII input as is).
#[verifier::external_body]
pub(crate) fn decode_shift_jis(bytes: &[u8]) -> (r: Option<String>)
    ensures
        r matches Some(s) ==> shift_jis_decoded(bytes@) == Some(s@),
        r is None <==> shift_jis_decoded(bytes@) is None,
        is_ascii_bytes(bytes@) ==> r is Some,
        r matches Some(s) ==> (is_ascii_bytes(bytes@) ==> s@ == ascii_text(bytes@)),
{
    let (text, _, had_errors) = SHIFT_JIS.decode(bytes);
    if had_errors {
        None
    } else {
        Some(text.into_owned())
    }
}

/// Encodes `text` with `encoding_rs::SHIFT_JIS.encode`.
///
/// Trusted: the result is `shift_jis_encoded(text@)`, which is `None` exactly
/// when `encoding_rs` reports unmappable characters; and ASCII text encodes to
/// the bytes with the same codes (`encode` borrows ASCII input as is).
#[verifier::external_body]
pub(crate) fn encode_shift_jis(text: &str) -> (r: Option<Vec<u8>>)
    ensures
        r matches Some(b) ==> shift_jis_encoded(text@) == Some(b@),
        r is None <==> shift_jis_encoded(text@) is None,
        is_ascii_text(text@) ==> r is Some,
        r matches Some(b) ==> (is_ascii_text(text@) ==> b@ == ascii_bytes(text@)),
{
    let (bytes, _, had_errors) = SHIFT_JIS.encode(text);
    if had_errors {
        None
    } else {
        Some(bytes.into_owned())
    }
}

} // verus!
