use vstd::prelude::*;

verus! {

/// The error kinds that repository operations can surface.
#[derive(Clone, Copy, Debug, PartialEq, Eq, Structural)]
pub enum Error {
    /// Initialising over an existing repository, or writing a backup name twice.
    Exists,
    /// Opening a missing repository, reading an unknown name, or an unknown digest.
    NotFound,
    /// The public-key material is not hex or has the wrong length.
    InvalidPubKey,
    /// The envelope rejected a ciphertext.
    DecryptionFailed,
    /// A chunk's plaintext does not hash to its digest, or an index blob is malformed.
    Corrupted,
    /// An underlying input/output failure, surfaced by callers that touch disk.
    Io,
}

} // verus!
