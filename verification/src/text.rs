//! Text as the XML layer hands it over: UTF-8 decoding, entity unescaping, trimming.
use vstd::prelude::*;
use vstd::utf8::{decode_utf8, valid_utf8};

verus! {

/// The characters of the Unicode property White_Space, which `char::is_whitespace` tests.
pub open spec fn is_white_space(c: char) -> bool {
    let u = c as u32;
    (0x9 <= u <= 0xd) || u == 0x20 || u == 0x85 || u == 0xa0 || u == 0x1680 || (0x2000 <= u
        <= 0x200a) || u == 0x2028 || u == 0x2029 || u == 0x202f || u == 0x205f || u == 0x3000
}

/// `s` without its leading white space.
pub open spec fn trim_start(s: Seq<char>) -> Seq<char>
    decreases s.len(),
{
    if s.len() > 0 && is_white_space(s[0]) {
        trim_start(s.drop_first())
    } else {
        s
    }
}

/// `s` without its trailing white space.
pub open spec fn trim_end(s: Seq<char>) -> Seq<char>
    decreases s.len(),
{
    if s.len() > 0 && is_white_space(s.last()) {
        trim_end(s.drop_last())
    } else {
        s
    }
}

/// `s` without leading and trailing white space.
pub open spec fn trimmed(s: Seq<char>) -> Seq<char> {
    trim_end(trim_start(s))
}

/// What `quick_xml::escape::unescape` gives for a string: the text with its entity and
/// character references replaced, or `None` where it reports an error.
pub uninterp spec fn unescaped(s: Seq<char>) -> Option<Seq<char>>;

/// Calls `core::str::from_utf8`. Trusted: as std documents, it succeeds exactly on valid
/// UTF-8, and the string it gives holds the characters that the bytes encode.
#[verifier::external_body]
pub(crate) fn utf8_str(bytes: &[u8]) -> (r: Option<&str>)
    ensures
        r is Some <==> valid_utf8(bytes@),
        r matches Some(s) ==> s@ == decode_utf8(bytes@),
{
    core::str::from_utf8(bytes).ok()
}

/// Calls `str::trim`. Trusted: as std documents, it removes leading and trailing
/// characters with the Unicode property White_Space.
#[verifier::external_body]
pub(crate) fn str_trim(s: &str) -> (r: &str)
    ensures
        r@ == trimmed(s@),
{
    s.trim()
}

/// Calls `quick_xml::escape::unescape`. Trusted: the result is the named function of the
/// input.
#[verifier::external_body]
pub(crate) fn xml_unescape(s: &str) -> (r: Option<String>)
    ensures
        r is Some <==> unescaped(s@) is Some,
        r matches Some(t) ==> t@ == unescaped(s@).unwrap(),
{
    quick_xml::escape::unescape(s).ok().map(|c| c.into_owned())
}

/// The value of an attribute as text: its raw bytes decoded as UTF-8, then unescaped.
pub open spec fn attr_text(raw: Seq<u8>) -> Option<Seq<char>> {
    if valid_utf8(raw) {
        unescaped(decode_utf8(raw))
    } else {
        None
    }
}

/// Decodes and unescapes the raw value of an attribute.
pub fn attribute_value(raw: &[u8]) -> (r: Option<String>)
    ensures
        r is Some <==> attr_text(raw@) is Some,
        r matches Some(t) ==> t@ == attr_text(raw@).unwrap(),
{
    match utf8_str(raw) {
        Some(s) => xml_unescape(s),
        None => None,
    }
}

/// The text of a character-data event: its bytes decoded as UTF-8 and trimmed.
pub open spec fn trimmed_text(raw: Seq<u8>) -> Option<Seq<char>> {
    if valid_utf8(raw) {
        Some(trimmed(decode_utf8(raw)))
    } else {
        None
    }
}

/// Decodes the bytes of a character-data event and trims them.
pub fn text_value(raw: &[u8]) -> (r: Option<String>)
    ensures
        r is Some <==> trimmed_text(raw@) is Some,
        r matches Some(t) ==> t@ == trimmed_text(raw@).unwrap(),
{
    match utf8_str(raw) {
        Some(s) => Some(str_trim(s).to_owned()),
        None => None,
    }
}

} // verus!
