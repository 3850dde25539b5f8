//! The content hash at the bottom of the codec: every address, key seed and
//! integrity check in this crate is built from this one primitive.
use vstd::prelude::*;

verus! {

/// One byte of the content hash of a byte sequence. The digest is a pure
/// function of the bytes alone, so it can be named without being stated.
pub uninterp spec fn hash_byte(data: Seq<u8>, i: int) -> u8;

/// The 32-byte content hash of a byte sequence, as a sequence of its bytes.
pub open spec fn hash_of(data: Seq<u8>) -> Seq<u8> {
    Seq::new(32, |i: int| hash_byte(data, i))
}

/// Relies on xor_name::XorName::from_content: the SHA3-256 digest of the
/// input, 32 bytes, depending on the input bytes alone.
#[verifier::external_body]
pub fn content_hash(data: &[u8]) -> (r: Vec<u8>)
    ensures
        r@ == hash_of(data@),
        forall|i: int| 0 <= i < 32 ==> r@[i] == hash_byte(data@, i),
{
    xor_name::XorName::from_content(data).0.to_vec()
}

} // verus!
