//! UTF-8 decoding and display widths of text.

use vstd::prelude::*;
use vstd::utf8::{valid_utf8, decode_utf8};

verus! {

/// The display width in columns that `unicode-width` gives a string
/// (`UnicodeWidthStr::width`).
pub uninterp spec fn str_width(s: Seq<char>) -> nat;

/// Calls `std::str::from_utf8`. Its contract, as the std documentation says:
/// the call succeeds exactly on valid UTF-8 input, and the string it returns holds
/// the characters that the bytes encode.
#[verifier::external_body]
pub fn utf8_str(bytes: &[u8]) -> (r: Option<&str>)
    ensures
        r is Some <==> valid_utf8(bytes@),
        r matches Some(s) ==> s@ == decode_utf8(bytes@),
{
    std::str::from_utf8(bytes).ok()
}

/// Calls `unicode_width::UnicodeWidthStr::width`. Its contract: the result is the
/// crate's width of the string's characters (named `str_width`); as the crate's
/// rules for determining width say, a string of printable ASCII characters
/// (`' '` to `'~'`) takes one column per character. No other bound is stated.
#[verifier::external_body]
pub fn display_width(s: &str) -> (r: usize)
    ensures
        r == str_width(s@),
        (forall|i: int| 0 <= i < s@.len() ==> 0x20 <= #[trigger] (s@[i] as u32) <= 0x7e) ==> r == s@.len(),
{
    unicode_width::UnicodeWidthStr::width(s)
}

/// The bytes of the string that `String::from_utf8_lossy` makes of `b`.
pub uninterp spec fn lossy_utf8(b: Seq<u8>) -> Seq<u8>;

/// Calls `String::from_utf8_lossy` and returns the bytes of the string. Its
/// contract: the result is the function's text for the bytes (named
/// `lossy_utf8`); as the std documentation says, valid UTF-8 comes back
/// unchanged; and, being the bytes of a string, it is valid UTF-8. How invalid
/// sequences are replaced is not stated.
#[verifier::external_body]
pub fn utf8_lossy(bytes: &[u8]) -> (r: Vec<u8>)
    ensures
        r@ == lossy_utf8(bytes@),
        valid_utf8(bytes@) ==> r@ == bytes@,
        valid_utf8(r@),
{
    String::from_utf8_lossy(bytes).into_owned().into_bytes()
}

/// The characters of the text that `String::from_utf8_lossy` makes of `b`.
pub open spec fn lossy_text(b: Seq<u8>) -> Seq<char> {
    decode_utf8(lossy_utf8(b))
}

/// The text that `String::from_utf8_lossy` makes of `bytes`, as a `String`.
pub fn lossy_string(bytes: &[u8]) -> (r: String)
    ensures
        r@ == lossy_text(bytes@),
{
    let v = utf8_lossy(bytes);
    match utf8_str(v.as_slice()) {
        Some(s) => String::from_str(s),
        None => String::new(),
    }
}

/// The columns that a piece of a line takes: its display width when it is valid
/// UTF-8, else one column per byte.
pub open spec fn piece_width(bytes: Seq<u8>) -> nat {
    if valid_utf8(bytes) {
        str_width(decode_utf8(bytes))
    } else {
        bytes.len()
    }
}

/// The columns that a piece of a line takes, as `piece_width` defines them.
pub fn bytes_width(bytes: &[u8]) -> (r: usize)
    ensures
        r == piece_width(bytes@),
{
    match utf8_str(bytes) {
        Some(s) => display_width(s),
        None => bytes.len(),
    }
}

} // verus!
