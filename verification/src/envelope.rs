use vstd::prelude::*;

verus! {

/// Length of a Curve25519 public key, in bytes.
pub const PUBLICKEYBYTES: usize = 32;

/// Length of a Curve25519 secret key, in bytes.
pub const SECRETKEYBYTES: usize = 32;

/// Length of an XSalsa20 nonce, in bytes.
pub const NONCEBYTES: usize = 24;

/// The public key that belongs to a secret key.  Curve25519 derives the
/// public half from the secret half alone.
pub uninterp spec fn pub_key_of(sk: Seq<u8>) -> Seq<u8>;

/// The sealed box over a message, nonce, recipient public key and sender
/// secret key.  The ciphertext is a function of these four values alone.
pub uninterp spec fn seal_of(m: Seq<u8>, nonce: Seq<u8>, pk: Seq<u8>, sk: Seq<u8>) -> Seq<u8>;

/// Relies on sodiumoxide's `box_::gen_keypair`: a fresh Curve25519 keypair;
/// both halves are 32 bytes, and the public half is derived from the secret
/// half.  Nothing else is promised: the keys are random.
#[verifier::external_body]
pub(crate) fn gen_keypair() -> (r: (Vec<u8>, Vec<u8>))
    ensures
        r.0@.len() == 32,
        r.1@.len() == 32,
        r.0@ == pub_key_of(r.1@),
{
    let (pk, sk) = sodiumoxide::crypto::box_::gen_keypair();
    (pk.0.to_vec(), sk.0.to_vec())
}

/// Relies on sodiumoxide's `box_::seal` (Curve25519 + XSalsa20-Poly1305): the
/// ciphertext is a function of message, nonce and the two keys.
#[verifier::external_body]
pub(crate) fn box_seal(m: &[u8], nonce: &[u8], pk: &[u8], sk: &[u8]) -> (r: Vec<u8>)
    requires
        nonce@.len() == NONCEBYTES,
        pk@.len() == PUBLICKEYBYTES,
        sk@.len() == SECRETKEYBYTES,
    ensures
        r@ == seal_of(m@, nonce@, pk@, sk@),
{
    let n = sodiumoxide::crypto::box_::Nonce::from_slice(nonce).unwrap();
    let p = sodiumoxide::crypto::box_::PublicKey::from_slice(pk).unwrap();
    let s = sodiumoxide::crypto::box_::SecretKey::from_slice(sk).unwrap();
    sodiumoxide::crypto::box_::seal(m, &n, &p, &s)
}

/// What opening promises: whenever the ciphertext was sealed to the public
/// key that belongs to `sk`, with this nonce, by the sender whose public key
/// was presented, the result is `Ok` with the sealed message.
pub open spec fn opens_back(
    c: Seq<u8>,
    nonce: Seq<u8>,
    pk_sender: Seq<u8>,
    sk: Seq<u8>,
    r: Result<Vec<u8>, ()>,
) -> bool {
    forall|m: Seq<u8>, esk: Seq<u8>|
        (c == seal_of(m, nonce, pub_key_of(sk), esk) && pk_sender == pub_key_of(esk)) ==> (
        r matches Ok(v) && v@ == m)
}

/// Relies on sodiumoxide's `box_::open`: opening with the receiver's secret
/// key inverts `seal` made to the matching public key, for the same nonce and
/// the sender's keypair.  Of any other input, nothing is promised beyond a
/// plain `Ok`-or-`Err` outcome.
#[verifier::external_body]
pub(crate) fn box_open(c: &[u8], nonce: &[u8], pk_sender: &[u8], sk: &[u8]) -> (r: Result<
    Vec<u8>,
    (),
>)
    requires
        nonce@.len() == NONCEBYTES,
        pk_sender@.len() == PUBLICKEYBYTES,
        sk@.len() == SECRETKEYBYTES,
    ensures
        opens_back(c@, nonce@, pk_sender@, sk@, r),
{
    let n = sodiumoxide::crypto::box_::Nonce::from_slice(nonce).unwrap();
    let p = sodiumoxide::crypto::box_::PublicKey::from_slice(pk_sender).unwrap();
    let s = sodiumoxide::crypto::box_::SecretKey::from_slice(sk).unwrap();
    sodiumoxide::crypto::box_::open(c, &n, &p, &s).map_err(|_| ())
}

} // verus!
