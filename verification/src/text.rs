//! Text that is stored as a key: a string together with its byte form.

use vstd::prelude::*;
use vstd::string::*;
use vstd::utf8::*;

verus! {

/// A string used as a key of a persistent region. Its stored form is its
/// UTF-8 encoding, so keys are ordered as their bytes are.
#[derive(Debug, Clone, PartialEq, Eq, PartialOrd, Ord)]
pub struct StableString(pub String);

impl View for StableString {
    type V = Seq<char>;

    open spec fn view(&self) -> Seq<char> {
        self.0@
    }
}

/// The bytes under which a text is stored.
pub open spec fn key_bytes(text: Seq<char>) -> Seq<u8> {
    encode_utf8(text)
}

/// Distinct texts are stored under distinct keys.
pub proof fn lemma_key_bytes_injective(a: Seq<char>, b: Seq<char>)
    requires
        key_bytes(a) == key_bytes(b),
    ensures
        a == b,
{
    encode_utf8_decode_utf8(a);
    encode_utf8_decode_utf8(b);
}

/// `String::from_utf8` of the standard library: the bytes become a string
/// exactly when they are well-formed UTF-8, and that string encodes back to
/// the same bytes.
#[verifier::external_body]
fn text_from_utf8(bytes: Vec<u8>) -> (r: Option<String>)
    ensures
        r is Some <==> valid_utf8(bytes@),
        r matches Some(s) ==> encode_utf8(s@) == bytes@,
{
    match String::from_utf8(bytes) {
        Ok(s) => Some(s),
        Err(_) => None,
    }
}

/// A string becomes the key that holds it.
impl From<String> for StableString {
    fn from(s: String) -> (r: Self) {
        StableString(s)
    }
}

impl vstd::std_specs::convert::FromSpecImpl<String> for StableString {
    open spec fn obeys_from_spec() -> bool {
        true
    }

    open spec fn from_spec(s: String) -> Self {
        StableString(s)
    }
}

/// A slice becomes a key with the same text. The key owns a new string,
/// which no specification can name from the slice, so the conversion is
/// stated by its text.
impl<'a> From<&'a str> for StableString {
    fn from(s: &'a str) -> (r: Self)
        ensures
            r@ == s@,
    {
        StableString(String::from_str(s))
    }
}

impl<'a> vstd::std_specs::convert::FromSpecImpl<&'a str> for StableString {
    open spec fn obeys_from_spec() -> bool {
        false
    }

    open spec fn from_spec(s: &'a str) -> Self {
        arbitrary()
    }
}

impl StableString {
    pub fn new(s: String) -> (r: Self)
        ensures
            r.0 == s,
            r@ == s@,
    {
        StableString(s)
    }

    pub fn as_str(&self) -> (r: &str)
        ensures
            r@ == self@,
    {
        self.0.as_str()
    }

    pub fn into_string(self) -> (r: String)
        ensures
            r == self.0,
            r@ == self@,
    {
        self.0
    }

    /// The stored form of the text.
    pub fn to_bytes(&self) -> (r: Vec<u8>)
        ensures
            r@ == key_bytes(self@),
    {
        self.0.as_str().as_bytes_vec()
    }

    /// Reads a stored key back. Bytes that are not UTF-8 name no text.
    pub fn from_bytes(bytes: Vec<u8>) -> (r: Option<StableString>)
        ensures
            r is Some <==> valid_utf8(bytes@),
            r matches Some(s) ==> key_bytes(s@) == bytes@,
    {
        match text_from_utf8(bytes) {
            Some(s) => Some(StableString(s)),
            None => None,
        }
    }
}

} // verus!
