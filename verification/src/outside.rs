//! Trusted bridges: the SHA-1 digest, UTF-8 conversion, and a fixed-size
//! copy.  Everything else in the crate is verified against these contracts.

use vstd::prelude::*;

verus! {

/// The SHA-1 digest of a byte sequence: 20 bytes, a function of the input
/// bytes alone.
pub uninterp spec fn sha1_of(bytes: Seq<u8>) -> Seq<u8>;

/// Relies on `sha1::Sha1` through `digest::Digest::digest`: the 20-byte
/// SHA-1 digest of the input, depending on the input bytes alone.
#[verifier::external_body]
pub(crate) fn sha1_digest(bytes: &[u8]) -> (r: [u8; 20])
    ensures
        r@ == sha1_of(bytes@),
{
    <sha1::Sha1 as sha1::Digest>::digest(bytes).into()
}

/// Relies on `String::from_utf8`: `Some` exactly when the bytes are valid
/// UTF-8, and then the string reads them back as characters.
#[verifier::external_body]
pub(crate) fn bytes_to_string(v: Vec<u8>) -> (r: Option<String>)
    ensures
        (match r {
            Some(s) => vstd::utf8::valid_utf8(v@) && s@ == vstd::utf8::decode_utf8(v@),
            None => !vstd::utf8::valid_utf8(v@),
        }),
{
    String::from_utf8(v).ok()
}

/// Relies on `<[u8]>::copy_from_slice`: copies a slice of exactly 20 bytes
/// into a fixed-size array.
#[verifier::external_body]
pub(crate) fn bytes20(b: &[u8]) -> (r: [u8; 20])
    requires
        b@.len() == 20,
    ensures
        r@ == b@,
{
    let mut out = [0u8; 20];
    out.copy_from_slice(b);
    out
}

} // verus!
