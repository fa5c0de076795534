//! A cheaply cloneable UTF-8 string over `bytes::Bytes`.

use vstd::prelude::*;
use vstd::utf8::{decode_utf8, encode_utf8, valid_utf8};

verus! {

broadcast use {vstd::utf8::encode_utf8_valid_utf8, vstd::utf8::encode_utf8_decode_utf8};

#[verifier::external_type_specification]
#[verifier::external_body]
pub struct ExBytes(bytes::Bytes);

/// The bytes a `bytes::Bytes` holds.
pub uninterp spec fn bytes_content(b: bytes::Bytes) -> Seq<u8>;

/// `bytes::Bytes::from(String)`, which takes over the string's buffer:
/// claimed to hold the string's UTF-8 bytes.
#[verifier::external_body]
fn bytes_from_string(s: String) -> (r: bytes::Bytes)
    ensures
        bytes_content(r) == encode_utf8(s@),
{
    bytes::Bytes::from(s)
}

/// `bytes::Bytes::as_ref`: claimed to give the bytes held.
#[verifier::external_body]
fn bytes_as_slice(b: &bytes::Bytes) -> (r: &[u8])
    ensures
        r@ == bytes_content(*b),
{
    b.as_ref()
}

/// `bytes::Bytes::clone`, a second handle on the same buffer: claimed to
/// hold the same bytes.
#[verifier::external_body]
fn bytes_clone(b: &bytes::Bytes) -> (r: bytes::Bytes)
    ensures
        bytes_content(r) == bytes_content(*b),
{
    b.clone()
}

/// `core::str::from_utf8(b).unwrap()`: on valid UTF-8 (so never panicking),
/// the text those bytes encode.
#[verifier::external_body]
fn utf8_str(b: &[u8]) -> (r: &str)
    requires
        valid_utf8(b@),
    ensures
        encode_utf8(r@) == b@,
{
    core::str::from_utf8(b).unwrap()
}

/// A cheaply cloneable and sliceable UTF-8 string.
#[derive(Debug, PartialEq, Eq, PartialOrd, Ord, Hash)]
pub struct ByteStr {
    bytes: bytes::Bytes,
}

impl ByteStr {
    /// The bytes always hold valid UTF-8.
    #[verifier::type_invariant]
    closed spec fn inv(self) -> bool {
        valid_utf8(bytes_content(self.bytes))
    }

    pub closed spec fn view(&self) -> Seq<char> {
        decode_utf8(bytes_content(self.bytes))
    }

    /// The string `s`, taking over its buffer.
    pub fn from(s: String) -> (r: Self)
        ensures
            r.view() == s@,
    {
        let bytes = bytes_from_string(s);
        ByteStr { bytes }
    }

    /// The text.
    pub fn as_str(&self) -> (r: &str)
        ensures
            r@ == self.view(),
    {
        proof {
            use_type_invariant(self);
        }
        let b = bytes_as_slice(&self.bytes);
        let r = utf8_str(b);
        proof {
            vstd::utf8::encode_utf8_decode_utf8(r@);
        }
        r
    }
}

impl Clone for ByteStr {
    fn clone(&self) -> (r: Self)
        ensures
            r.view() == self.view(),
    {
        proof {
            use_type_invariant(self);
        }
        ByteStr { bytes: bytes_clone(&self.bytes) }
    }
}

impl Default for ByteStr {
    fn default() -> (r: Self)
        ensures
            r.view() == Seq::<char>::empty(),
    {
        ByteStr::from(String::new())
    }
}

} // verus!
