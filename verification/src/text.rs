//! Text in a property list: UTF-8 and UTF-16 strings, characters, and the
//! standard library's decoders that turn bytes into them.
use vstd::prelude::*;
use vstd::utf8::{decode_utf8, valid_utf8};

verus! {

/// A string read from a property list: borrowed from the input where its bytes are
/// already UTF-8, or decoded into a new allocation.
pub enum Text<'a> {
    Borrowed(&'a str),
    Owned(String),
}

impl<'a> View for Text<'a> {
    type V = Seq<char>;

    open spec fn view(&self) -> Seq<char> {
        match self {
            Text::Borrowed(s) => s@,
            Text::Owned(s) => s@,
        }
    }
}

impl<'a> Text<'a> {
    /// The string, borrowed.
    pub fn as_str(&self) -> (r: &str)
        ensures
            r@ == self@,
    {
        match self {
            Text::Borrowed(s) => s,
            Text::Owned(s) => s.as_str(),
        }
    }

    /// The string as an owned `String`.
    pub fn into_string(self) -> (r: String)
        ensures
            r@ == self@,
    {
        match self {
            Text::Borrowed(s) => s.to_owned(),
            Text::Owned(s) => s,
        }
    }
}

/// The characters that the UTF-16 code units `units` encode, or `None` where they
/// hold an unpaired surrogate: a unit outside `0xD800..=0xDFFF` is a character by
/// itself; a high surrogate (`0xD800..=0xDBFF`) followed by a low one
/// (`0xDC00..=0xDFFF`) is the character `0x10000 + (high - 0xD800) * 0x400 +
/// (low - 0xDC00)`; any other surrogate is an error.
pub open spec fn utf16_decoding(units: Seq<u16>) -> Option<Seq<char>>
    decreases units.len(),
{
    if units.len() == 0 {
        Some(seq![])
    } else {
        let u = units[0];
        if u < 0xd800 || u > 0xdfff {
            match utf16_decoding(units.drop_first()) {
                Some(rest) => Some(seq![u as char] + rest),
                None => None,
            }
        } else if u <= 0xdbff && units.len() >= 2 && 0xdc00 <= units[1] <= 0xdfff {
            let c = 0x10000 + (u - 0xd800) * 0x400 + (units[1] - 0xdc00);
            match utf16_decoding(units.skip(2)) {
                Some(rest) => Some(seq![c as char] + rest),
                None => None,
            }
        } else {
            None
        }
    }
}

/// `core::str::from_utf8`: the bytes as a string where they are valid UTF-8.
/// Claimed: it succeeds exactly on valid UTF-8 (as vstd defines it), and the
/// string then holds the characters that the bytes encode.
#[verifier::external_body]
pub fn str_from_utf8<'a>(bytes: &'a [u8]) -> (r: Option<&'a str>)
    ensures
        r is Some <==> valid_utf8(bytes@),
        r matches Some(s) ==> s@ == decode_utf8(bytes@),
{
    core::str::from_utf8(bytes).ok()
}

/// `char::decode_utf16`, collected into a `String`: the string that the code units
/// spell, or `None` at the first unpaired surrogate. Claimed, as its documentation
/// describes UTF-16: the result is `utf16_decoding` of the units.
#[verifier::external_body]
pub fn decode_utf16(units: &[u16]) -> (r: Option<String>)
    ensures
        match r {
            Some(s) => utf16_decoding(units@) == Some(s@),
            None => utf16_decoding(units@) is None,
        },
{
    char::decode_utf16(units.iter().copied()).collect::<Result<String, _>>().ok()
}

/// Unicode scalar values: the numbers that a `char` can hold.
pub open spec fn is_scalar_value(v: u32) -> bool {
    v <= 0x10ffff && !(0xd800 <= v <= 0xdfff)
}

/// `char::from_u32`: the character whose number is `v`. Claimed, as its
/// documentation says: it succeeds exactly on Unicode scalar values, and the
/// character's number is then `v`.
#[verifier::external_body]
pub fn char_from_u32(v: u32) -> (r: Option<char>)
    ensures
        r is Some <==> is_scalar_value(v),
        r matches Some(c) ==> c as u32 == v,
{
    char::from_u32(v)
}

} // verus!
