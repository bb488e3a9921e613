use vstd::prelude::*;

verus! {

/// The DEFLATE encoding (default level) of a byte sequence.
pub uninterp spec fn deflate_of(data: Seq<u8>) -> Seq<u8>;

/// Relies on flate2's `DeflateEncoder` at the default compression level: the
/// output is a function of the input bytes alone.
#[verifier::external_body]
pub(crate) fn compress(data: &[u8]) -> (r: Vec<u8>)
    ensures
        r@ == deflate_of(data@),
{
    let mut encoder = flate2::write::DeflateEncoder::new(
        Vec::new(),
        flate2::Compression::default(),
    );
    std::io::Write::write_all(&mut encoder, data).expect("writing to a Vec cannot fail");
    encoder.finish().expect("finishing an in-memory encoder cannot fail")
}

/// What decoding promises: whenever the input is the encoding of some byte
/// sequence, the result is `Ok` with exactly that sequence.
pub open spec fn inflates_back(data: Seq<u8>, r: Result<Vec<u8>, ()>) -> bool {
    forall|s: Seq<u8>| data == deflate_of(s) ==> (r matches Ok(v) && v@ == s)
}

/// Relies on flate2's `DeflateDecoder`: decoding inverts encoding, so any
/// stream that `DeflateEncoder` produced decodes back to the original bytes.
#[verifier::external_body]
pub(crate) fn decompress(data: &[u8]) -> (r: Result<Vec<u8>, ()>)
    ensures
        inflates_back(data@, r),
{
    let mut decoder = flate2::write::DeflateDecoder::new(Vec::new());
    if std::io::Write::write_all(&mut decoder, data).is_err() {
        return Err(());
    }
    decoder.finish().map_err(|_| ())
}

} // verus!
