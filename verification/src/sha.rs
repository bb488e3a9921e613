use vstd::prelude::*;

verus! {

/// The SHA-256 digest of a byte sequence.  The digest is the sole content
/// address of a chunk; nothing here states what the bits are, only that they
/// are a function of the input.
pub uninterp spec fn sha256_of(data: Seq<u8>) -> Seq<u8>;

/// Relies on the `crypto` crate's `Sha256` (used one-shot): the digest is a
/// function of the input bytes alone, and is always 32 bytes long.
#[verifier::external_body]
pub(crate) fn quick_sha256(data: &[u8]) -> (r: Vec<u8>)
    ensures
        r@ == sha256_of(data@),
        r@.len() == 32,
{
    let mut sha256 = crypto::sha2::Sha256::new();
    crypto::digest::Digest::input(&mut sha256, data);
    let mut digest = vec![0u8; 32];
    crypto::digest::Digest::result(&mut sha256, &mut digest);
    digest
}

} // verus!
