use vstd::prelude::*;
use crate::error::{Error, Result};
use crate::sjis::{decode_shift_jis, shift_jis_decoded};
use vstd::slice::slice_subrange;

verus! {

/// Converts a length or offset to the 32-bit form used by the file format.
pub fn checked_u32(value: usize, context: &'static str) -> (r: Result<u32>)
    ensures
        value <= u32::MAX ==> r == Ok::<u32, Error>(value as u32),
        value > u32::MAX ==> r == Err::<u32, Error>(Error::ValueTooLarge { context, value }),
{
    if value <= 0xffff_ffffusize {
        Ok(value as u32)
    } else {
        Err(Error::ValueTooLarge { context, value })
    }
}

/// Decodes a boolean stored as a single byte, which must be 0 or 1.
pub fn checked_bool(value: u8, context: &'static str) -> (r: Result<bool>)
    ensures
        value == 0 ==> r == Ok::<bool, Error>(false),
        value == 1 ==> r == Ok::<bool, Error>(true),
        value > 1 ==> r == Err::<bool, Error>(Error::InvalidBoolean { context, value }),
{
    if value == 0 {
        Ok(false)
    } else if value == 1 {
        Ok(true)
    } else {
        Err(Error::InvalidBoolean { context, value })
    }
}

/// The text that `Debug` formatting gives for the string `s`: `s` in double
/// quotes, with its special characters escaped.
pub uninterp spec fn debug_quoted(s: Seq<char>) -> Seq<char>;

/// Formats `text` as `Debug` formats a string, with `format!("{:?}", text)`.
#[verifier::external_body]
pub(crate) fn debug_text(text: &str) -> (r: String)
    ensures
        r@ == debug_quoted(text@),
{
    format!("{:?}", text)
}

/// The character of the decimal digit `d`.
pub open spec fn digit_char(d: nat) -> char {
    if d == 0 { '0' } else if d == 1 { '1' } else if d == 2 { '2' } else if d == 3 { '3' } else if d == 4 {
        '4'
    } else if d == 5 { '5' } else if d == 6 { '6' } else if d == 7 { '7' } else if d == 8 { '8' } else { '9' }
}

/// The decimal digits of `n`, most significant first.
pub open spec fn decimal(n: nat) -> Seq<char>
    decreases n,
{
    if n < 10 {
        seq![digit_char(n)]
    } else {
        decimal(n / 10) + seq![digit_char(n % 10)]
    }
}

/// The decimal digit `d` as a string.
fn digit_str(d: usize) -> (r: &'static str)
    requires
        d < 10,
    ensures
        r@ == seq![digit_char(d as nat)],
{
    proof {
        reveal_strlit("0");
        reveal_strlit("1");
        reveal_strlit("2");
        reveal_strlit("3");
        reveal_strlit("4");
        reveal_strlit("5");
        reveal_strlit("6");
        reveal_strlit("7");
        reveal_strlit("8");
        reveal_strlit("9");
    }
    if d == 0 {
        "0"
    } else if d == 1 {
        "1"
    } else if d == 2 {
        "2"
    } else if d == 3 {
        "3"
    } else if d == 4 {
        "4"
    } else if d == 5 {
        "5"
    } else if d == 6 {
        "6"
    } else if d == 7 {
        "7"
    } else if d == 8 {
        "8"
    } else {
        "9"
    }
}

/// `n` written in decimal.
pub(crate) fn decimal_string(n: u128) -> (r: String)
    ensures
        r@ == decimal(n as nat),
    decreases n,
{
    if n < 10 {
        String::from_str(digit_str(n as usize))
    } else {
        decimal_string(n / 10).concat(digit_str((n % 10) as usize))
    }
}

/// The bytes of `s` before its first NUL byte (all of `s` when it holds none).
pub open spec fn c_string(s: Seq<u8>) -> Seq<u8>
    decreases s.len(),
{
    if s.len() == 0 || s[0] == 0 {
        Seq::empty()
    } else {
        seq![s[0]] + c_string(s.drop_first())
    }
}

/// If the first `j` bytes of `s` are not NUL and byte `j` is NUL or the end,
/// the C string of `s` is its first `j` bytes.
pub proof fn lemma_c_string_prefix(s: Seq<u8>, j: int)
    requires
        0 <= j <= s.len(),
        forall|k: int| 0 <= k < j ==> s[k] != 0,
        j == s.len() || s[j] == 0,
    ensures
        c_string(s) == s.subrange(0, j),
    decreases j,
{
    if j > 0 {
        lemma_c_string_prefix(s.drop_first(), j - 1);
        assert(s.subrange(0, j) =~= seq![s[0]] + s.drop_first().subrange(0, j - 1));
    } else {
        assert(s.subrange(0, 0) =~= Seq::<u8>::empty());
    }
}

/// The NUL-terminated string that starts at position `index` of `data`.
pub open spec fn c_string_at(data: Seq<u8>, index: int) -> Seq<u8> {
    c_string(data.subrange(index, data.len() as int))
}

/// The error that reading a string at `index` of `len` bytes gives when the
/// string cannot be read: the index lies past the end, or the bytes are not
/// valid Shift-JIS.
pub open spec fn string_error(len: nat, index: usize) -> Error {
    if index > len {
        Error::OffsetOutOfBounds { context: "string/label pool", offset: index, length: len as usize }
    } else {
        Error::InvalidUtf8 { context: "string/label pool (Shift-JIS decode failed)", offset: index }
    }
}

/// Reads the NUL-terminated Shift-JIS string that starts at `index` in `data`
/// (running to the end of `data` when no NUL follows).
///
/// Fails with `OffsetOutOfBounds` when `index` is past the end of `data`, and
/// with `InvalidUtf8` when the bytes are not valid Shift-JIS.
pub fn resolve_string_from_raw_data(data: &[u8], index: usize) -> (r: Result<String>)
    ensures
        index > data@.len() ==> r == Err::<String, Error>(
            Error::OffsetOutOfBounds {
                context: "string/label pool",
                offset: index,
                length: data@.len() as usize,
            },
        ),
        index <= data@.len() ==> match shift_jis_decoded(c_string_at(data@, index as int)) {
            Some(text) => r matches Ok(s) && s@ == text,
            None => r == Err::<String, Error>(string_error(data@.len(), index)),
        },
{
    let len = data.len();
    if index > len {
        return Err(
            Error::OffsetOutOfBounds { context: "string/label pool", offset: index, length: len },
        );
    }
    let mut end = index;
    while end < len && data[end] != 0
        invariant
            len == data@.len(),
            index <= end <= len,
            forall|k: int| index <= k < end ==> data@[k] != 0,
        decreases len - end,
    {
        end = end + 1;
    }
    proof {
        let tail = data@.subrange(index as int, len as int);
        lemma_c_string_prefix(tail, end - index);
        assert(tail.subrange(0, end - index) =~= data@.subrange(index as int, end as int));
    }
    match decode_shift_jis(slice_subrange(data, index, end)) {
        Some(text) => Ok(text),
        None => Err(
            Error::InvalidUtf8 {
                context: "string/label pool (Shift-JIS decode failed)",
                offset: index,
            },
        ),
    }
}

} // verus!
