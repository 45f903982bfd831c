//! Content digests. Every entity's digest is the blake3 hash, in
//! lowercase hexadecimal, of a canonical byte encoding of its semantic
//! fields.

use vstd::prelude::*;

verus! {

/// The lowercase hexadecimal form of the blake3 digest of the given
/// bytes. The digest is a pure function of the bytes alone; its value
/// is not modelled here.
pub uninterp spec fn blake3_hex_of(bytes: Seq<u8>) -> Seq<char>;

/// Relies on `blake3::hash` and the `Display` impl of `blake3::Hash`:
/// the digest is a function of the input bytes alone, rendered as 64
/// lowercase hexadecimal characters (two per digest byte).
#[verifier::external_body]
pub fn blake3_hex(bytes: &Vec<u8>) -> (r: String)
    ensures
        r@ == blake3_hex_of(bytes@),
        r@.len() == 64,
{
    blake3::hash(bytes.as_slice()).to_string()
}

} // verus!
