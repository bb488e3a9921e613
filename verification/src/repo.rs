use crate::envelope::{gen_keypair, pub_key_of, seal_of};
use crate::error::Error;
use crate::hex::{char_is_hex_digit, from_hex, hex_decoded, hex_decoded_chars, hex_of,
    lemma_hex_is_ascii, string_from_ascii, to_hex, valid_hex, valid_hex_chars};
use crate::sha::sha256_of;
use crate::store::{has_key, lookup, Store};
use vstd::prelude::*;
use vstd::string::StringSliceAdditionalSpecFns;
use vstd::string::StrSliceExecFns;

verus! {

/// The two kinds of chunk: user data, and index blobs (concatenated child
/// digests).  Data chunks are compressed and sealed; index chunks are stored
/// raw, so the tree shape can be walked without a key.
#[derive(Clone, Copy, Debug, PartialEq, Eq, Structural)]
pub enum ChunkType {
    Index,
    Data,
}

impl ChunkType {
    pub fn should_compress(&self) -> (r: bool)
        ensures
            r == (*self is Data),
    {
        *self == ChunkType::Data
    }

    pub fn should_encrypt(&self) -> (r: bool)
        ensures
            r == (*self is Data),
    {
        *self == ChunkType::Data
    }
}

/// The secret half of the repository keypair.  Returned once at `init`,
/// never stored.
pub struct SecretKey {
    bytes: Vec<u8>,
}

impl SecretKey {
    /// The raw key bytes.
    pub closed spec fn view(&self) -> Seq<u8> {
        self.bytes@
    }

    pub closed spec fn wf(&self) -> bool {
        self.bytes@.len() == 32
    }

    /// Parse a secret key from its hex form.  `None` exactly when the text is
    /// not 64 hex digits.  Together with `to_string` and
    /// `lemma_hex_chars_round_trip` this closes the key's hex round trip.
    pub fn from_str(s: &str) -> (r: Option<SecretKey>)
        ensures
            r is Some <==> (valid_hex_chars(s@) && s@.len() == 64),
            r matches Some(k) ==> k@ == hex_decoded_chars(s@) && k.wf(),
    {
        let n = s.unicode_len();
        if n != 64 {
            return None;
        }
        let mut out: Vec<u8> = Vec::new();
        let mut i: usize = 0;
        while i < 64
            invariant
                i % 2 == 0,
                i <= 64,
                s@.len() == 64,
                forall|j: int| 0 <= j < i ==> char_is_hex_digit(#[trigger] s@[j]),
                out@ =~= hex_decoded_chars(s@.take(i as int)),
            decreases 64 - i,
        {
            let hi = s.get_char(i) as u32;
            let lo = s.get_char(i + 1) as u32;
            let hi_ok = (0x30 <= hi && hi <= 0x39) || (0x61 <= hi && hi <= 0x66) || (0x41 <= hi
                && hi <= 0x46);
            let lo_ok = (0x30 <= lo && lo <= 0x39) || (0x61 <= lo && lo <= 0x66) || (0x41 <= lo
                && lo <= 0x46);
            if !hi_ok || !lo_ok {
                return None;
            }
            let hv = if hi <= 0x39 {
                hi - 0x30
            } else if hi >= 0x61 {
                hi - 0x57
            } else {
                hi - 0x37
            };
            let lv = if lo <= 0x39 {
                lo - 0x30
            } else if lo >= 0x61 {
                lo - 0x57
            } else {
                lo - 0x37
            };
            out.push((hv * 16 + lv) as u8);
            i = i + 2;
            proof {
                assert(out@ =~= hex_decoded_chars(s@.take(i as int)));
            }
        }
        proof {
            assert(s@.take(64) =~= s@);
        }
        Some(SecretKey { bytes: out })
    }

    /// The hex form of the key.
    pub fn to_string(&self) -> (r: String)
        ensures
            r@.len() == hex_of(self@).len(),
            forall|i: int| 0 <= i < r@.len() ==> r@[i] == hex_of(self@)[i] as char,
    {
        let h = to_hex(self.bytes.as_slice());
        proof {
            lemma_hex_is_ascii(self.bytes@);
        }
        string_from_ascii(h)
    }
}

/// Law: a well-formed secret key holds exactly 32 bytes.  `SecretKey::wf`
/// is closed, so this gives outside modules the key's length.
pub proof fn lemma_secret_key_len(k: &SecretKey)
    requires
        k.wf(),
    ensures
        k@.len() == 32,
{
}

/// The file that holds the repository public key: `<repo>/pub_key`.
pub open spec fn pub_key_file_bytes() -> Seq<u8> {
    seq![47u8, 112u8, 117u8, 98u8, 95u8, 107u8, 101u8, 121u8]
}

/// Path of the public-key file under a repository root (ASCII bytes).
pub fn pub_key_file_path(path: &[u8]) -> (r: Vec<u8>)
    ensures
        r@ == path@ + pub_key_file_bytes(),
{
    let mut out = slice_to_vec_bytes(path);
    out.push(0x2f);
    out.push(0x70);
    out.push(0x75);
    out.push(0x62);
    out.push(0x5f);
    out.push(0x6b);
    out.push(0x65);
    out.push(0x79);
    proof {
        assert(out@ =~= path@ + pub_key_file_bytes());
    }
    out
}

fn slice_to_vec_bytes(s: &[u8]) -> (r: Vec<u8>)
    ensures
        r@ == s@,
{
    let mut out: Vec<u8> = Vec::new();
    out.extend_from_slice(s);
    proof {
        assert(out@ =~= s@);
    }
    out
}

/// The directory a chunk kind is stored under: `chunks` or `index`.
pub open spec fn chunk_dir_bytes(kind: ChunkType) -> Seq<u8> {
    if kind is Data {
        seq![99u8, 104u8, 117u8, 110u8, 107u8, 115u8]
    } else {
        seq![105u8, 110u8, 100u8, 101u8, 120u8]
    }
}

/// The path of a chunk file under a repository root:
/// `<repo>/<dir>/<hex of d[0]>/<hex of d[1]>/<hex of d>`.
pub open spec fn chunk_path_bytes(repo: Seq<u8>, d: Seq<u8>, kind: ChunkType) -> Seq<u8> {
    repo + seq![47u8] + chunk_dir_bytes(kind) + seq![47u8] + hex_of(d.take(1)) + seq![47u8]
        + hex_of(d.subrange(1, 2)) + seq![47u8] + hex_of(d)
}

/// What a data-chunk file holds: the ephemeral public key, then the sealed
/// box over the deflated plaintext, under a nonce cut from the digest.
pub open spec fn data_file_of(p: Seq<u8>, d: Seq<u8>, pk: Seq<u8>, esk: Seq<u8>) -> Seq<u8> {
    pub_key_of(esk) + seal_of(deflate_spec(p), d.take(24), pk, esk)
}

/// Shorthand so contracts in this module read uniformly.
pub open spec fn deflate_spec(p: Seq<u8>) -> Seq<u8> {
    crate::compress::deflate_of(p)
}

/// A well-formed entry of the data-chunk store: keyed by the SHA-256 of some
/// plaintext, holding that plaintext's envelope under the repository key.
pub open spec fn data_entry_ok(pk: Seq<u8>, e: (Vec<u8>, Vec<u8>)) -> bool {
    &&& e.0@.len() == 32
    &&& exists|p: Seq<u8>, esk: Seq<u8>|
        sha256_of(p) == e.0@ && esk.len() == 32 && pub_key_of(esk).len() == 32 && e.1@
            == data_file_of(p, e.0@, pk, esk)
}

/// Edge `i`'s digest is new to the store and not repeated by an earlier edge.
pub open spec fn edge_fresh_distinct(
    store_old: Seq<(Vec<u8>, Vec<u8>)>,
    edges: Seq<crate::chunker::Edge>,
    i: int,
) -> bool {
    !has_key(store_old, edges[i].1@) && (forall|j: int|
        0 <= j < i ==> (#[trigger] edges[j]).1@ != edges[i].1@)
}

/// The chunk that edge `i` closed is stored as its envelope under the
/// repository key.
pub open spec fn data_edge_stored(
    chunks: Seq<(Vec<u8>, Vec<u8>)>,
    pk: Seq<u8>,
    prev: Seq<u8>,
    part: Seq<u8>,
    edges: Seq<crate::chunker::Edge>,
    i: int,
) -> bool {
    exists|esk: Seq<u8>|
        esk.len() == 32 && pub_key_of(esk).len() == 32 && lookup(chunks, edges[i].1@) == Some(
            data_file_of(
                crate::chunker::edge_chunk(prev, part, edges, i),
                edges[i].1@,
                pk,
                esk,
            ),
        )
}

/// The chunk that edge `i` closed is stored raw.
pub open spec fn index_edge_stored(
    index: Seq<(Vec<u8>, Vec<u8>)>,
    prev: Seq<u8>,
    part: Seq<u8>,
    edges: Seq<crate::chunker::Edge>,
    i: int,
) -> bool {
    lookup(index, edges[i].1@) == Some(crate::chunker::edge_chunk(prev, part, edges, i))
}

/// Piece `i`'s digest is new to the store and not repeated by an earlier
/// piece.
pub open spec fn piece_fresh_distinct(
    store_old: Seq<(Vec<u8>, Vec<u8>)>,
    pieces: Seq<Seq<u8>>,
    i: int,
) -> bool {
    !has_key(store_old, sha256_of(pieces[i])) && (forall|j: int|
        0 <= j < i ==> sha256_of(#[trigger] pieces[j]) != sha256_of(pieces[i]))
}

/// Piece `i` is stored as its envelope under the repository key.
pub open spec fn data_piece_stored(
    chunks: Seq<(Vec<u8>, Vec<u8>)>,
    pk: Seq<u8>,
    pieces: Seq<Seq<u8>>,
    i: int,
) -> bool {
    exists|esk: Seq<u8>|
        esk.len() == 32 && pub_key_of(esk).len() == 32 && lookup(chunks, sha256_of(pieces[i]))
            == Some(data_file_of(pieces[i], sha256_of(pieces[i]), pk, esk))
}

/// Piece `i` is stored raw.
pub open spec fn index_piece_stored(
    index: Seq<(Vec<u8>, Vec<u8>)>,
    pieces: Seq<Seq<u8>>,
    i: int,
) -> bool {
    lookup(index, sha256_of(pieces[i])) == Some(pieces[i])
}

/// A well-formed entry of the index store: raw plaintext keyed by its SHA-256.
pub open spec fn index_entry_ok(e: (Vec<u8>, Vec<u8>)) -> bool {
    e.0@.len() == 32 && sha256_of(e.1@) == e.0@
}

/// A well-formed backup entry: a name bound to a 32-byte root digest.
pub open spec fn backup_entry_ok(e: (Vec<u8>, Vec<u8>)) -> bool {
    e.1@.len() == 32
}

/// A content-addressed, deduplicating, encrypted repository, modelled over
/// three write-once stores: sealed data chunks, raw index chunks, and the
/// backup-name directory.  Callers that persist it to disk lay the stores out
/// by the path scheme above.
pub struct Repo {
    pub path: Vec<u8>,
    pub pub_key: Vec<u8>,
    pub chunks: Store,
    pub index: Store,
    pub backups: Store,
}

impl Repo {
    /// Every store is keyed uniquely, every data chunk is a well-formed
    /// envelope under the repository key, every index chunk hashes to its
    /// key, and every backup names a 32-byte digest.
    pub open spec fn wf(&self) -> bool {
        &&& self.pub_key@.len() == 32
        &&& self.chunks.wf()
        &&& self.index.wf()
        &&& self.backups.wf()
        &&& forall|i: int|
            0 <= i < self.chunks@.len() ==> data_entry_ok(self.pub_key@, #[trigger] self.chunks@[i])
        &&& forall|i: int| 0 <= i < self.index@.len() ==> index_entry_ok(#[trigger] self.index@[i])
        &&& forall|i: int|
            0 <= i < self.backups@.len() ==> backup_entry_ok(#[trigger] self.backups@[i])
    }

    /// Create a fresh, empty repository and its keypair.  The secret key is
    /// handed back and never kept.
    pub fn init(path: Vec<u8>) -> (r: (Repo, SecretKey))
        ensures
            r.0.wf(),
            r.0.path@ == path@,
            r.0.pub_key@ == pub_key_of(r.1@),
            r.0.chunks@.len() == 0,
            r.0.index@.len() == 0,
            r.0.backups@.len() == 0,
            r.1.wf(),
    {
        let (pk, sk) = gen_keypair();
        let repo = Repo {
            path,
            pub_key: pk,
            chunks: Store::new(),
            index: Store::new(),
            backups: Store::new(),
        };
        (repo, SecretKey { bytes: sk })
    }

    /// Open a repository from its root path and the hex text of its public
    /// key.  Fails with `InvalidPubKey` exactly when the text is not hex or
    /// does not denote 32 bytes.
    pub fn open(path: Vec<u8>, pub_key_hex: &[u8]) -> (r: Result<Repo, Error>)
        ensures
            r is Ok <==> (valid_hex(pub_key_hex@) && hex_decoded(pub_key_hex@).len() == 32),
            r matches Ok(repo) ==> repo.wf() && repo.path@ == path@ && repo.pub_key@
                == hex_decoded(pub_key_hex@) && repo.chunks@.len() == 0 && repo.index@.len() == 0
                && repo.backups@.len() == 0,
            r is Err ==> r == Err::<Repo, Error>(Error::InvalidPubKey),
    {
        match from_hex(pub_key_hex) {
            Some(pub_key) => {
                if pub_key.len() == 32 {
                    Ok(
                        Repo {
                            path,
                            pub_key,
                            chunks: Store::new(),
                            index: Store::new(),
                            backups: Store::new(),
                        },
                    )
                } else {
                    Err(Error::InvalidPubKey)
                }
            },
            None => Err(Error::InvalidPubKey),
        }
    }

    /// The path of a chunk file, derived from its digest and kind.
    pub fn chunk_path_by_digest(&self, digest: &[u8], chunk_type: ChunkType) -> (r: Vec<u8>)
        requires
            digest@.len() >= 2,
        ensures
            r@ == chunk_path_bytes(self.path@, digest@, chunk_type),
    {
        let mut out = slice_to_vec_bytes(self.path.as_slice());
        out.push(0x2f);
        match chunk_type {
            ChunkType::Data => {
                out.push(0x63);
                out.push(0x68);
                out.push(0x75);
                out.push(0x6e);
                out.push(0x6b);
                out.push(0x73);
            },
            ChunkType::Index => {
                out.push(0x69);
                out.push(0x6e);
                out.push(0x64);
                out.push(0x65);
                out.push(0x78);
            },
        }
        out.push(0x2f);
        let h0 = to_hex(vstd::slice::slice_subrange(digest, 0, 1));
        out.extend_from_slice(h0.as_slice());
        out.push(0x2f);
        let h1 = to_hex(vstd::slice::slice_subrange(digest, 1, 2));
        out.extend_from_slice(h1.as_slice());
        out.push(0x2f);
        let h = to_hex(digest);
        out.extend_from_slice(h.as_slice());
        proof {
            assert(out@ =~= chunk_path_bytes(self.path@, digest@, chunk_type));
        }
        out
    }

    /// Classify a digest: `Index` if the index store holds it, else `Data` if
    /// the chunk store does, else `NotFound`.
    pub fn chunk_type(&self, digest: &[u8]) -> (r: Result<ChunkType, Error>)
        ensures
            has_key(self.index@, digest@) ==> r == Ok::<ChunkType, Error>(ChunkType::Index),
            !has_key(self.index@, digest@) && has_key(self.chunks@, digest@) ==> r == Ok::<
                ChunkType,
                Error,
            >(ChunkType::Data),
            !has_key(self.index@, digest@) && !has_key(self.chunks@, digest@) ==> r == Err::<
                ChunkType,
                Error,
            >(Error::NotFound),
    {
        if self.index.contains_key(digest) {
            Ok(ChunkType::Index)
        } else if self.chunks.contains_key(digest) {
            Ok(ChunkType::Data)
        } else {
            Err(Error::NotFound)
        }
    }

    /// The root digest a backup name is bound to.  `NotFound` exactly when
    /// the name is unknown.
    pub fn name_to_digest(&self, name: &[u8]) -> (r: Result<Vec<u8>, Error>)
        ensures
            r is Ok <==> has_key(self.backups@, name@),
            r matches Ok(v) ==> lookup(self.backups@, name@) == Some(v@),
            r is Err ==> r == Err::<Vec<u8>, Error>(Error::NotFound),
    {
        match self.backups.get(name) {
            Some(v) => Ok(slice_to_vec_bytes(v.as_slice())),
            None => Err(Error::NotFound),
        }
    }

    /// Bind a backup name to a root digest.  Names are write-once: fails with
    /// `Exists` exactly when the name is already bound, leaving it unchanged.
    pub fn store_digest_as_backup_name(&mut self, digest: &[u8], name: &[u8]) -> (r: Result<
        (),
        Error,
    >)
        requires
            old(self).wf(),
            digest@.len() == 32,
        ensures
            final(self).wf(),
            final(self).path@ == old(self).path@,
            final(self).pub_key@ == old(self).pub_key@,
            final(self).chunks@ == old(self).chunks@,
            final(self).index@ == old(self).index@,
            r is Ok <==> !has_key(old(self).backups@, name@),
            r is Err ==> r == Err::<(), Error>(Error::Exists) && final(self).backups@ == old(
                self,
            ).backups@,
            r is Ok ==> lookup(final(self).backups@, name@) == Some(digest@) && (forall|k: Seq<u8>|
                k != name@ ==> #[trigger] lookup(final(self).backups@, k) == lookup(
                    old(self).backups@,
                    k,
                )) && final(self).backups@.len() == old(self).backups@.len() + 1,
    {
        if self.backups.contains_key(name) {
            return Err(Error::Exists);
        }
        self.backups.insert(slice_to_vec_bytes(name), slice_to_vec_bytes(digest));
        Ok(())
    }

    /// Store one chunk under its digest, unless it is already present
    /// (deduplication).  Data chunks are deflated and sealed to the
    /// repository key under an ephemeral keypair, with the nonce cut from the
    /// digest; index chunks are stored raw.
    fn put_chunk(&mut self, plaintext: Vec<u8>, digest: &[u8], kind: ChunkType)
        requires
            old(self).wf(),
            digest@.len() == 32,
            sha256_of(plaintext@) == digest@,
        ensures
            final(self).wf(),
            final(self).path@ == old(self).path@,
            final(self).pub_key@ == old(self).pub_key@,
            final(self).backups@ == old(self).backups@,
            kind is Data ==> final(self).index@ == old(self).index@,
            kind is Index ==> final(self).chunks@ == old(self).chunks@,
            store_preserved(old(self).chunks@, final(self).chunks@),
            store_preserved(old(self).index@, final(self).index@),
            kind is Data ==> has_key(final(self).chunks@, digest@),
            kind is Index ==> has_key(final(self).index@, digest@),
            forall|k: Seq<u8>|
                #[trigger] has_key(final(self).chunks@, k) ==> has_key(old(self).chunks@, k) || k
                    == digest@,
            forall|k: Seq<u8>|
                #[trigger] has_key(final(self).index@, k) ==> has_key(old(self).index@, k) || k
                    == digest@,
            kind is Data && !has_key(old(self).chunks@, digest@) ==> (exists|esk: Seq<u8>|
                esk.len() == 32 && pub_key_of(esk).len() == 32 && lookup(
                    final(self).chunks@,
                    digest@,
                ) == Some(data_file_of(plaintext@, digest@, old(self).pub_key@, esk))),
            kind is Index && !has_key(old(self).index@, digest@) ==> lookup(
                final(self).index@,
                digest@,
            ) == Some(plaintext@),
    {
        match kind {
            ChunkType::Data => {
                if self.chunks.contains_key(digest) {
                    return ;
                }
                let compressed = crate::compress::compress(plaintext.as_slice());
                let (epk, esk) = gen_keypair();
                let nonce = vstd::slice::slice_subrange(digest, 0, 24);
                let cipher = crate::envelope::box_seal(
                    compressed.as_slice(),
                    nonce,
                    self.pub_key.as_slice(),
                    esk.as_slice(),
                );
                let mut file = epk;
                file.extend_from_slice(cipher.as_slice());
                proof {
                    assert(nonce@ =~= digest@.take(24));
                    assert(file@ =~= data_file_of(plaintext@, digest@, self.pub_key@, esk@));
                }
                self.chunks.insert(slice_to_vec_bytes(digest), file);
                proof {
                    let e = self.chunks@.last();
                    assert(sha256_of(plaintext@) == e.0@ && esk@.len() == 32 && pub_key_of(
                        esk@,
                    ).len() == 32 && e.1@ == data_file_of(plaintext@, e.0@, self.pub_key@, esk@));
                    assert(data_entry_ok(self.pub_key@, self.chunks@.last()));
                    assert forall|i: int| 0 <= i < self.chunks@.len() implies data_entry_ok(
                        self.pub_key@,
                        #[trigger] self.chunks@[i],
                    ) by {
                        if i < self.chunks@.len() - 1 {
                            assert(self.chunks@[i] == old(self).chunks@[i]);
                        }
                    }
                }
            },
            ChunkType::Index => {
                if self.index.contains_key(digest) {
                    return ;
                }
                self.index.insert(slice_to_vec_bytes(digest), plaintext);
                proof {
                    assert(index_entry_ok(self.index@.last()));
                    assert forall|i: int| 0 <= i < self.index@.len() implies index_entry_ok(
                        #[trigger] self.index@[i],
                    ) by {
                        if i < self.index@.len() - 1 {
                            assert(self.index@[i] == old(self).index@[i]);
                        }
                    }
                }
            },
        }
    }

    /// Consume one producer message: a buffer and the edges found in it.
    /// Bytes of a still-open chunk are queued in `previous_parts`; each edge
    /// assembles its chunk from the queue plus a slice of `part` and persists
    /// it under its digest, skipping digests already stored.
    #[verifier::rlimit(100)]
    pub fn chunk_writer(
        &mut self,
        previous_parts: &mut Vec<Vec<u8>>,
        part: Vec<u8>,
        edges: &Vec<crate::chunker::Edge>,
        kind: ChunkType,
    )
        requires
            old(self).wf(),
            crate::chunker::edges_sorted(part@, edges@),
            crate::chunker::edges_hashed(concat_parts(old(previous_parts)@), part@, edges@),
        ensures
            final(self).wf(),
            final(self).path@ == old(self).path@,
            final(self).pub_key@ == old(self).pub_key@,
            final(self).backups@ == old(self).backups@,
            kind is Data ==> final(self).index@ == old(self).index@,
            kind is Index ==> final(self).chunks@ == old(self).chunks@,
            store_preserved(old(self).chunks@, final(self).chunks@),
            store_preserved(old(self).index@, final(self).index@),
            forall|i: int|
                0 <= i < edges@.len() ==> has_key(
                    if kind is Data {
                        final(self).chunks@
                    } else {
                        final(self).index@
                    },
                    (#[trigger] edges@[i]).1@,
                ),
            forall|k: Seq<u8>|
                #[trigger] has_key(final(self).chunks@, k) ==> has_key(old(self).chunks@, k) || (
                exists|i: int| 0 <= i < edges@.len() && (#[trigger] edges@[i]).1@ == k),
            forall|k: Seq<u8>|
                #[trigger] has_key(final(self).index@, k) ==> has_key(old(self).index@, k) || (
                exists|i: int| 0 <= i < edges@.len() && (#[trigger] edges@[i]).1@ == k),
            kind is Data ==> (forall|i: int|
                0 <= i < edges@.len() && edge_fresh_distinct(old(self).chunks@, edges@, i)
                    ==> #[trigger] data_edge_stored(
                    final(self).chunks@,
                    old(self).pub_key@,
                    concat_parts(old(previous_parts)@),
                    part@,
                    edges@,
                    i,
                )),
            kind is Index ==> (forall|i: int|
                0 <= i < edges@.len() && edge_fresh_distinct(old(self).index@, edges@, i)
                    ==> #[trigger] index_edge_stored(
                    final(self).index@,
                    concat_parts(old(previous_parts)@),
                    part@,
                    edges@,
                    i,
                )),
            concat_parts(final(previous_parts)@) == crate::chunker::open_after(
                concat_parts(old(previous_parts)@),
                part@,
                edges@,
            ),
            edges@.len() == 0 ==> final(previous_parts)@ == old(previous_parts)@.push(part),
    {
        if edges.len() == 0 {
            previous_parts.push(part);
            proof {
                assert(previous_parts@.drop_last() =~= old(previous_parts)@);
                assert(concat_parts(previous_parts@) == concat_parts(old(previous_parts)@)
                    + part@);
            }
            return ;
        }
        let ghost orig_parts = previous_parts@;
        let mut prev_ofs: usize = 0;
        let mut i: usize = 0;
        while i < edges.len()
            invariant
                self.wf(),
                self.path@ == old(self).path@,
                self.pub_key@ == old(self).pub_key@,
                self.backups@ == old(self).backups@,
                kind is Data ==> self.index@ == old(self).index@,
                kind is Index ==> self.chunks@ == old(self).chunks@,
                store_preserved(old(self).chunks@, self.chunks@),
                store_preserved(old(self).index@, self.index@),
                crate::chunker::edges_sorted(part@, edges@),
                crate::chunker::edges_hashed(concat_parts(orig_parts), part@, edges@),
                0 < edges@.len(),
                i <= edges@.len(),
                i == 0 ==> prev_ofs == 0 && previous_parts@ == orig_parts,
                i > 0 ==> prev_ofs == edges@[i - 1].0 && previous_parts@.len() == 0,
                prev_ofs <= part@.len(),
                forall|j: int|
                    0 <= j < i ==> has_key(
                        if kind is Data {
                            self.chunks@
                        } else {
                            self.index@
                        },
                        (#[trigger] edges@[j]).1@,
                    ),
                forall|k: Seq<u8>|
                    #[trigger] has_key(self.chunks@, k) ==> has_key(old(self).chunks@, k) || (
                    exists|j: int| 0 <= j < i && (#[trigger] edges@[j]).1@ == k),
                forall|k: Seq<u8>|
                    #[trigger] has_key(self.index@, k) ==> has_key(old(self).index@, k) || (
                    exists|j: int| 0 <= j < i && (#[trigger] edges@[j]).1@ == k),
                kind is Data ==> (forall|jj: int|
                    0 <= jj < i && edge_fresh_distinct(old(self).chunks@, edges@, jj)
                        ==> #[trigger] data_edge_stored(
                        self.chunks@,
                        old(self).pub_key@,
                        concat_parts(orig_parts),
                        part@,
                        edges@,
                        jj,
                    )),
                kind is Index ==> (forall|jj: int|
                    0 <= jj < i && edge_fresh_distinct(old(self).index@, edges@, jj)
                        ==> #[trigger] index_edge_stored(
                        self.index@,
                        concat_parts(orig_parts),
                        part@,
                        edges@,
                        jj,
                    )),
            decreases edges@.len() - i,
        {
            let ofs = edges[i].0;
            proof {
                if i > 0 {
                    assert(edges@[i - 1].0 <= edges@[i as int].0);
                }
            }
            let exists_already = if matches!(kind, ChunkType::Data) {
                self.chunks.contains_key(edges[i].1.as_slice())
            } else {
                self.index.contains_key(edges[i].1.as_slice())
            };
            if !exists_already {
                let mut chunk_data: Vec<u8> = Vec::new();
                let mut j: usize = 0;
                while j < previous_parts.len()
                    invariant
                        j <= previous_parts@.len(),
                        chunk_data@ == concat_parts(previous_parts@.take(j as int)),
                    decreases previous_parts@.len() - j,
                {
                    chunk_data.extend_from_slice(previous_parts[j].as_slice());
                    proof {
                        assert(previous_parts@.take(j + 1).drop_last() =~= previous_parts@.take(
                            j as int,
                        ));
                        assert(previous_parts@.take(j + 1).last() == previous_parts@[j as int]);
                    }
                    j = j + 1;
                }
                proof {
                    assert(previous_parts@.take(previous_parts@.len() as int)
                        =~= previous_parts@);
                }
                previous_parts.clear();
                if ofs != prev_ofs {
                    chunk_data.extend_from_slice(
                        vstd::slice::slice_subrange(part.as_slice(), prev_ofs, ofs),
                    );
                }
                proof {
                    if i == 0 {
                        assert(part@.subrange(0, ofs as int) =~= part@.take(ofs as int));
                        if ofs == 0 {
                            assert(part@.take(0) =~= Seq::<u8>::empty());
                        }
                        assert(chunk_data@ =~= crate::chunker::edge_chunk(
                            concat_parts(orig_parts),
                            part@,
                            edges@,
                            0,
                        ));
                    } else {
                        if ofs == prev_ofs {
                            assert(part@.subrange(prev_ofs as int, ofs as int) =~= Seq::<
                                u8,
                            >::empty());
                        }
                        assert(chunk_data@ =~= crate::chunker::edge_chunk(
                            concat_parts(orig_parts),
                            part@,
                            edges@,
                            i as int,
                        ));
                    }
                }
                let ghost chunk_plain = chunk_data@;
                let ghost pre_chunks = self.chunks@;
                let ghost pre_index = self.index@;
                self.put_chunk(chunk_data, edges[i].1.as_slice(), kind);
                proof {
                    if kind is Data {
                        assert forall|jj: int|
                            0 <= jj < i + 1 && edge_fresh_distinct(
                                old(self).chunks@,
                                edges@,
                                jj,
                            ) implies #[trigger] data_edge_stored(
                            self.chunks@,
                            old(self).pub_key@,
                            concat_parts(orig_parts),
                            part@,
                            edges@,
                            jj,
                        ) by {
                            if jj < i {
                                assert(data_edge_stored(
                                    pre_chunks,
                                    old(self).pub_key@,
                                    concat_parts(orig_parts),
                                    part@,
                                    edges@,
                                    jj,
                                ));
                                let esk0 = choose|esk: Seq<u8>|
                                    esk.len() == 32 && pub_key_of(esk).len() == 32 && lookup(
                                        pre_chunks,
                                        edges@[jj].1@,
                                    ) == Some(
                                        data_file_of(
                                            crate::chunker::edge_chunk(
                                                concat_parts(orig_parts),
                                                part@,
                                                edges@,
                                                jj,
                                            ),
                                            edges@[jj].1@,
                                            old(self).pub_key@,
                                            esk,
                                        ),
                                    );
                                assert(lookup(self.chunks@, edges@[jj].1@) == lookup(
                                    pre_chunks,
                                    edges@[jj].1@,
                                ));
                            } else {
                                assert(chunk_plain == crate::chunker::edge_chunk(
                                    concat_parts(orig_parts),
                                    part@,
                                    edges@,
                                    jj,
                                ));
                            }
                        }
                    } else {
                        assert forall|jj: int|
                            0 <= jj < i + 1 && edge_fresh_distinct(
                                old(self).index@,
                                edges@,
                                jj,
                            ) implies #[trigger] index_edge_stored(
                            self.index@,
                            concat_parts(orig_parts),
                            part@,
                            edges@,
                            jj,
                        ) by {
                            if jj < i {
                                assert(index_edge_stored(
                                    pre_index,
                                    concat_parts(orig_parts),
                                    part@,
                                    edges@,
                                    jj,
                                ));
                                assert(lookup(self.index@, edges@[jj].1@) == lookup(
                                    pre_index,
                                    edges@[jj].1@,
                                ));
                            } else {
                                assert(chunk_plain == crate::chunker::edge_chunk(
                                    concat_parts(orig_parts),
                                    part@,
                                    edges@,
                                    jj,
                                ));
                            }
                        }
                    }
                }
            } else {
                previous_parts.clear();
                proof {
                    if kind is Data {
                        assert forall|jj: int|
                            0 <= jj < i + 1 && edge_fresh_distinct(
                                old(self).chunks@,
                                edges@,
                                jj,
                            ) implies #[trigger] data_edge_stored(
                            self.chunks@,
                            old(self).pub_key@,
                            concat_parts(orig_parts),
                            part@,
                            edges@,
                            jj,
                        ) by {
                            if jj == i {
                                assert(has_key(self.chunks@, edges@[i as int].1@));
                                assert(false);
                            }
                        }
                    } else {
                        assert forall|jj: int|
                            0 <= jj < i + 1 && edge_fresh_distinct(
                                old(self).index@,
                                edges@,
                                jj,
                            ) implies #[trigger] index_edge_stored(
                            self.index@,
                            concat_parts(orig_parts),
                            part@,
                            edges@,
                            jj,
                        ) by {
                            if jj == i {
                                assert(has_key(self.index@, edges@[i as int].1@));
                                assert(false);
                            }
                        }
                    }
                }
            }
            proof {
                assert(concat_parts(previous_parts@) == Seq::<u8>::empty());
            }
            prev_ofs = ofs;
            i = i + 1;
        }
        if prev_ofs != part.len() {
            let tail = slice_to_vec_bytes(
                vstd::slice::slice_subrange(part.as_slice(), prev_ofs, part.len()),
            );
            previous_parts.push(tail);
            proof {
                assert(edges@.last() == edges@[edges@.len() - 1]);
                assert(previous_parts@.drop_last() =~= Seq::<Vec<u8>>::empty());
                assert(concat_parts(previous_parts@.drop_last()) == Seq::<u8>::empty());
                assert(concat_parts(previous_parts@) == concat_parts(previous_parts@.drop_last())
                    + previous_parts@.last()@);
                assert(previous_parts@.last()@ == part@.subrange(
                    prev_ofs as int,
                    part@.len() as int,
                ));
                assert(Seq::<u8>::empty() + part@.subrange(prev_ofs as int, part@.len() as int)
                    =~= part@.skip(edges@.last().0 as int));
            }
        } else {
            proof {
                assert(edges@.last() == edges@[edges@.len() - 1]);
                assert(part@.skip(edges@.last().0 as int) =~= Seq::<u8>::empty());
            }
        }
    }

    /// Chunk a whole stream and persist every chunk under `kind`, returning
    /// the concatenated 32-byte digests of its chunks, in stream order.  The
    /// stream is fed through the chunker in small buffers, so cutting and
    /// storing interleave exactly as the edges arrive.
    #[verifier::rlimit(100)]
    pub fn chunk_and_send_to_writer(&mut self, data: &[u8], kind: ChunkType) -> (digests: Vec<
        u8,
    >)
        requires
            old(self).wf(),
        ensures
            final(self).wf(),
            final(self).path@ == old(self).path@,
            final(self).pub_key@ == old(self).pub_key@,
            final(self).backups@ == old(self).backups@,
            kind is Data ==> final(self).index@ == old(self).index@,
            kind is Index ==> final(self).chunks@ == old(self).chunks@,
            store_preserved(old(self).chunks@, final(self).chunks@),
            store_preserved(old(self).index@, final(self).index@),
            digests@.len() % 32 == 0,
            digests@.len() >= 32,
            data@.len() == 0 ==> digests@.len() == 32,
            has_key(
                if kind is Data {
                    final(self).chunks@
                } else {
                    final(self).index@
                },
                digests@.skip(digests@.len() - 32),
            ),
            exists|pieces: Seq<Seq<u8>>|
                #[trigger] concat_pieces(pieces) == data@ && digests@ == digests_of(pieces) && (
                forall|i: int|
                    0 <= i < pieces.len() ==> sha256_of(#[trigger] pieces[i]).len() == 32
                        && has_key(
                        if kind is Data {
                            final(self).chunks@
                        } else {
                            final(self).index@
                        },
                        sha256_of(pieces[i]),
                    )) && (kind is Data ==> (forall|k: Seq<u8>|
                    #[trigger] has_key(final(self).chunks@, k) ==> has_key(old(self).chunks@, k)
                        || (exists|i: int|
                        0 <= i < pieces.len() && sha256_of(#[trigger] pieces[i]) == k))) && (
                kind is Index ==> (forall|k: Seq<u8>|
                    #[trigger] has_key(final(self).index@, k) ==> has_key(old(self).index@, k)
                        || (exists|i: int|
                        0 <= i < pieces.len() && sha256_of(#[trigger] pieces[i]) == k))) && (
                kind is Data ==> (forall|i: int|
                    0 <= i < pieces.len() && piece_fresh_distinct(old(self).chunks@, pieces, i)
                        ==> #[trigger] data_piece_stored(
                        final(self).chunks@,
                        old(self).pub_key@,
                        pieces,
                        i,
                    ))) && (kind is Index ==> (forall|i: int|
                    0 <= i < pieces.len() && piece_fresh_distinct(old(self).index@, pieces, i)
                        ==> #[trigger] index_piece_stored(final(self).index@, pieces, i))),
    {
        let mut chunker = crate::chunker::Chunker::new();
        let ghost mut pieces: Seq<Seq<u8>> = Seq::empty();
        proof {
            assert(digests_of(Seq::<Seq<u8>>::empty()) == Seq::<u8>::empty());
        }
        let mut parts: Vec<Vec<u8>> = Vec::new();
        let mut digests: Vec<u8> = Vec::new();
        let mut pos: usize = 0;
        while pos < data.len()
            invariant
                self.wf(),
                self.path@ == old(self).path@,
                self.pub_key@ == old(self).pub_key@,
                self.backups@ == old(self).backups@,
                kind is Data ==> self.index@ == old(self).index@,
                kind is Index ==> self.chunks@ == old(self).chunks@,
                store_preserved(old(self).chunks@, self.chunks@),
                store_preserved(old(self).index@, self.index@),
                pos <= data@.len(),
                pos == 0 ==> digests@ == Seq::<u8>::empty(),
                chunker.wf(),
                chunker.pending().len() == 0,
                chunker.total() == pos,
                concat_parts(parts@) == chunker.open_chunk(),
                digests@.len() % 32 == 0,
                digests@.len() == 0 ==> chunker.open_chunk() == data@.take(pos as int),
                digests@.len() > 0 ==> has_key(
                    if kind is Data {
                        self.chunks@
                    } else {
                        self.index@
                    },
                    digests@.skip(digests@.len() - 32),
                ),
                concat_pieces(pieces) + chunker.open_chunk() == data@.take(pos as int),
                digests@ == digests_of(pieces),
                forall|i: int|
                    0 <= i < pieces.len() ==> sha256_of(#[trigger] pieces[i]).len() == 32
                        && has_key(
                        if kind is Data {
                            self.chunks@
                        } else {
                            self.index@
                        },
                        sha256_of(pieces[i]),
                    ),
                kind is Data ==> (forall|k: Seq<u8>|
                    #[trigger] has_key(self.chunks@, k) ==> has_key(old(self).chunks@, k) || (
                    exists|i: int| 0 <= i < pieces.len() && sha256_of(#[trigger] pieces[i]) == k)),
                kind is Index ==> (forall|k: Seq<u8>|
                    #[trigger] has_key(self.index@, k) ==> has_key(old(self).index@, k) || (
                    exists|i: int| 0 <= i < pieces.len() && sha256_of(#[trigger] pieces[i]) == k)),
                kind is Data ==> (forall|i: int|
                    0 <= i < pieces.len() && piece_fresh_distinct(old(self).chunks@, pieces, i)
                        ==> #[trigger] data_piece_stored(
                        self.chunks@,
                        old(self).pub_key@,
                        pieces,
                        i,
                    )),
                kind is Index ==> (forall|i: int|
                    0 <= i < pieces.len() && piece_fresh_distinct(old(self).index@, pieces, i)
                        ==> #[trigger] index_piece_stored(self.index@, pieces, i)),
            decreases data@.len() - pos,
        {
            let end = if data.len() - pos >= 16384 {
                pos + 16384
            } else {
                data.len()
            };
            let buf = vstd::slice::slice_subrange(data, pos, end);
            let edges = chunker.input(buf);
            let ghost digests_pre = digests@;
            proof {
                assert(edge_chunks(concat_parts(parts@), buf@, edges@).take(0) =~= Seq::<
                    Seq<u8>,
                >::empty());
            }
            let mut j: usize = 0;
            while j < edges.len()
                invariant
                    j <= edges@.len(),
                    crate::chunker::edges_hashed(
                        concat_parts(parts@),
                        buf@,
                        edges@,
                    ),
                    digests@.len() % 32 == 0,
                    j == 0 ==> digests@ == digests_pre,
                    digests@ == digests_pre + digests_of(
                        edge_chunks(concat_parts(parts@), buf@, edges@).take(j as int),
                    ),
                    j > 0 ==> digests@.len() >= 32 && digests@.skip(digests@.len() - 32)
                        == edges@[j - 1].1@,
                decreases edges@.len() - j,
            {
                digests.extend_from_slice(edges[j].1.as_slice());
                proof {
                    let ec = edge_chunks(concat_parts(parts@), buf@, edges@);
                    assert(ec.take(j + 1).drop_last() =~= ec.take(j as int));
                    assert(ec.take(j + 1).last() == ec[j as int]);
                    assert(edges@[j as int].1@ == sha256_of(ec[j as int]));
                    assert(digests@ =~= digests_pre + digests_of(ec.take(j + 1)));
                    assert(digests@.skip(digests@.len() - 32) =~= edges@[j as int].1@);
                }
                j = j + 1;
            }
            let ghost open_pre = concat_parts(parts@);
            let ghost pre_chunks = self.chunks@;
            let ghost pre_index = self.index@;
            self.chunk_writer(&mut parts, slice_to_vec_bytes(buf), &edges, kind);
            proof {
                assert(data@.take(pos as int) + buf@ =~= data@.take(end as int));
                let new_chunks = edge_chunks(open_pre, buf@, edges@);
                lemma_edge_chunks_partition(open_pre, buf@, edges@);
                lemma_concat_pieces_append(pieces, new_chunks);
                assert((concat_pieces(pieces) + concat_pieces(new_chunks)) + concat_parts(
                    parts@,
                ) =~= concat_pieces(pieces) + (concat_pieces(new_chunks) + concat_parts(
                    parts@,
                )));
                assert(concat_pieces(pieces) + (open_pre + buf@) =~= (concat_pieces(pieces)
                    + open_pre) + buf@);
                assert(new_chunks.take(edges@.len() as int) =~= new_chunks);
                lemma_digests_of_append(pieces, new_chunks);
                assert(digests@ =~= digests_of(pieces + new_chunks));
                assert forall|i: int| 0 <= i < pieces.len() + new_chunks.len() implies sha256_of(
                    #[trigger] (pieces + new_chunks)[i],
                ).len() == 32 && has_key(
                    if kind is Data {
                        self.chunks@
                    } else {
                        self.index@
                    },
                    sha256_of((pieces + new_chunks)[i]),
                ) by {
                    if i < pieces.len() {
                        assert((pieces + new_chunks)[i] == pieces[i]);
                    } else {
                        let j = i - pieces.len();
                        assert((pieces + new_chunks)[i] == new_chunks[j]);
                        assert(edges@[j].1@ == sha256_of(
                            crate::chunker::edge_chunk(open_pre, buf@, edges@, j),
                        ));
                    }
                }
                if kind is Data {
                    assert forall|k: Seq<u8>| #[trigger] has_key(self.chunks@, k) implies has_key(
                        old(self).chunks@,
                        k,
                    ) || (exists|i: int|
                        0 <= i < (pieces + new_chunks).len() && sha256_of(
                            #[trigger] (pieces + new_chunks)[i],
                        ) == k) by {
                        if exists|i: int| 0 <= i < pieces.len() && sha256_of(#[trigger] pieces[i])
                            == k {
                            let i = choose|i: int|
                                0 <= i < pieces.len() && sha256_of(#[trigger] pieces[i]) == k;
                            assert((pieces + new_chunks)[i] == pieces[i]);
                        }
                        if exists|j: int| 0 <= j < edges@.len() && (#[trigger] edges@[j]).1@
                            == k {
                            let j = choose|j: int|
                                0 <= j < edges@.len() && (#[trigger] edges@[j]).1@ == k;
                            assert((pieces + new_chunks)[pieces.len() + j] == new_chunks[j]);
                            assert(edges@[j].1@ == sha256_of(new_chunks[j]));
                        }
                    }
                } else {
                    assert forall|k: Seq<u8>| #[trigger] has_key(self.index@, k) implies has_key(
                        old(self).index@,
                        k,
                    ) || (exists|i: int|
                        0 <= i < (pieces + new_chunks).len() && sha256_of(
                            #[trigger] (pieces + new_chunks)[i],
                        ) == k) by {
                        if exists|i: int| 0 <= i < pieces.len() && sha256_of(#[trigger] pieces[i])
                            == k {
                            let i = choose|i: int|
                                0 <= i < pieces.len() && sha256_of(#[trigger] pieces[i]) == k;
                            assert((pieces + new_chunks)[i] == pieces[i]);
                        }
                        if exists|j: int| 0 <= j < edges@.len() && (#[trigger] edges@[j]).1@
                            == k {
                            let j = choose|j: int|
                                0 <= j < edges@.len() && (#[trigger] edges@[j]).1@ == k;
                            assert((pieces + new_chunks)[pieces.len() + j] == new_chunks[j]);
                            assert(edges@[j].1@ == sha256_of(new_chunks[j]));
                        }
                    }
                }
                let grown2 = pieces + new_chunks;
                if kind is Data {
                    assert forall|jj: int|
                        0 <= jj < grown2.len() && piece_fresh_distinct(
                            old(self).chunks@,
                            grown2,
                            jj,
                        ) implies #[trigger] data_piece_stored(
                        self.chunks@,
                        old(self).pub_key@,
                        grown2,
                        jj,
                    ) by {
                        if jj < pieces.len() {
                            assert(grown2[jj] == pieces[jj]);
                            assert forall|j2: int| 0 <= j2 < jj implies sha256_of(
                                #[trigger] pieces[j2],
                            ) != sha256_of(pieces[jj]) by {
                                assert(grown2[j2] == pieces[j2]);
                            }
                            assert(data_piece_stored(
                                pre_chunks,
                                old(self).pub_key@,
                                pieces,
                                jj,
                            ));
                            let esk0 = choose|esk: Seq<u8>|
                                esk.len() == 32 && pub_key_of(esk).len() == 32 && lookup(
                                    pre_chunks,
                                    sha256_of(pieces[jj]),
                                ) == Some(
                                    data_file_of(
                                        pieces[jj],
                                        sha256_of(pieces[jj]),
                                        old(self).pub_key@,
                                        esk,
                                    ),
                                );
                            assert(lookup(self.chunks@, sha256_of(pieces[jj])) == lookup(
                                pre_chunks,
                                sha256_of(pieces[jj]),
                            ));
                        } else {
                            let j = jj - pieces.len();
                            assert(grown2[jj] == new_chunks[j]);
                            assert(edges@[j].1@ == sha256_of(new_chunks[j]));
                            assert(!has_key(pre_chunks, edges@[j].1@)) by {
                                if has_key(pre_chunks, edges@[j].1@) {
                                    if exists|i2: int|
                                        0 <= i2 < pieces.len() && sha256_of(#[trigger] pieces[i2])
                                            == edges@[j].1@ {
                                        let i2 = choose|i2: int|
                                            0 <= i2 < pieces.len() && sha256_of(
                                                #[trigger] pieces[i2],
                                            ) == edges@[j].1@;
                                        assert(grown2[i2] == pieces[i2]);
                                        assert(false);
                                    }
                                    assert(false);
                                }
                            }
                            assert forall|j2: int| 0 <= j2 < j implies (
                            #[trigger] edges@[j2]).1@ != edges@[j].1@ by {
                                assert(edges@[j2].1@ == sha256_of(new_chunks[j2]));
                                assert(grown2[pieces.len() + j2] == new_chunks[j2]);
                            }
                            assert(edge_fresh_distinct(pre_chunks, edges@, j));
                            assert(data_edge_stored(
                                self.chunks@,
                                old(self).pub_key@,
                                open_pre,
                                buf@,
                                edges@,
                                j,
                            ));
                            let esk1 = choose|esk: Seq<u8>|
                                esk.len() == 32 && pub_key_of(esk).len() == 32 && lookup(
                                    self.chunks@,
                                    edges@[j].1@,
                                ) == Some(
                                    data_file_of(
                                        crate::chunker::edge_chunk(open_pre, buf@, edges@, j),
                                        edges@[j].1@,
                                        old(self).pub_key@,
                                        esk,
                                    ),
                                );
                            assert(crate::chunker::edge_chunk(open_pre, buf@, edges@, j)
                                == new_chunks[j]);
                        }
                    }
                } else {
                    assert forall|jj: int|
                        0 <= jj < grown2.len() && piece_fresh_distinct(
                            old(self).index@,
                            grown2,
                            jj,
                        ) implies #[trigger] index_piece_stored(self.index@, grown2, jj) by {
                        if jj < pieces.len() {
                            assert(grown2[jj] == pieces[jj]);
                            assert forall|j2: int| 0 <= j2 < jj implies sha256_of(
                                #[trigger] pieces[j2],
                            ) != sha256_of(pieces[jj]) by {
                                assert(grown2[j2] == pieces[j2]);
                            }
                            assert(index_piece_stored(pre_index, pieces, jj));
                            assert(lookup(self.index@, sha256_of(pieces[jj])) == lookup(
                                pre_index,
                                sha256_of(pieces[jj]),
                            ));
                        } else {
                            let j = jj - pieces.len();
                            assert(grown2[jj] == new_chunks[j]);
                            assert(edges@[j].1@ == sha256_of(new_chunks[j]));
                            assert(!has_key(pre_index, edges@[j].1@)) by {
                                if has_key(pre_index, edges@[j].1@) {
                                    if exists|i2: int|
                                        0 <= i2 < pieces.len() && sha256_of(#[trigger] pieces[i2])
                                            == edges@[j].1@ {
                                        let i2 = choose|i2: int|
                                            0 <= i2 < pieces.len() && sha256_of(
                                                #[trigger] pieces[i2],
                                            ) == edges@[j].1@;
                                        assert(grown2[i2] == pieces[i2]);
                                        assert(false);
                                    }
                                    assert(false);
                                }
                            }
                            assert forall|j2: int| 0 <= j2 < j implies (
                            #[trigger] edges@[j2]).1@ != edges@[j].1@ by {
                                assert(edges@[j2].1@ == sha256_of(new_chunks[j2]));
                                assert(grown2[pieces.len() + j2] == new_chunks[j2]);
                            }
                            assert(edge_fresh_distinct(pre_index, edges@, j));
                            assert(index_edge_stored(self.index@, open_pre, buf@, edges@, j));
                            assert(crate::chunker::edge_chunk(open_pre, buf@, edges@, j)
                                == new_chunks[j]);
                        }
                    }
                }
                pieces = pieces + new_chunks;
            }
            pos = end;
        }
        let ghost tail_chunk = chunker.open_chunk();
        let fin = chunker.finish();
        if fin.len() > 0 {
            digests.extend_from_slice(fin[0].1.as_slice());
            proof {
                assert(fin@[0] == fin@.last());
                assert(digests@.skip(digests@.len() - 32) =~= fin@[0].1@);
            }
            let ghost pre_chunks3 = self.chunks@;
            let ghost pre_index3 = self.index@;
            let ghost parts_concat = concat_parts(parts@);
            self.chunk_writer(&mut parts, Vec::new(), &fin, kind);
            proof {
                let grown = pieces.push(tail_chunk);
                assert(grown.drop_last() =~= pieces);
                assert(grown.last() == tail_chunk);
                assert(concat_pieces(grown) == concat_pieces(pieces) + tail_chunk);
                assert(data@.take(data@.len() as int) =~= data@);
                assert(fin@[0].1@ == sha256_of(tail_chunk));
                assert(digests_of(grown) == digests_of(pieces) + sha256_of(tail_chunk));
                assert(digests@ =~= digests_of(grown));
                assert forall|i: int| 0 <= i < grown.len() implies sha256_of(
                    #[trigger] grown[i],
                ).len() == 32 && has_key(
                    if kind is Data {
                        self.chunks@
                    } else {
                        self.index@
                    },
                    sha256_of(grown[i]),
                ) by {
                    if i < pieces.len() {
                        assert(grown[i] == pieces[i]);
                    } else {
                        assert(grown[i] == tail_chunk);
                        assert(fin@[0].1@ == sha256_of(tail_chunk));
                    }
                }
                if kind is Data {
                    assert forall|k: Seq<u8>| #[trigger] has_key(self.chunks@, k) implies has_key(
                        old(self).chunks@,
                        k,
                    ) || (exists|i: int|
                        0 <= i < grown.len() && sha256_of(#[trigger] grown[i]) == k) by {
                        if exists|i: int| 0 <= i < pieces.len() && sha256_of(#[trigger] pieces[i])
                            == k {
                            let i = choose|i: int|
                                0 <= i < pieces.len() && sha256_of(#[trigger] pieces[i]) == k;
                            assert(grown[i] == pieces[i]);
                        }
                        if exists|j: int| 0 <= j < fin@.len() && (#[trigger] fin@[j]).1@ == k {
                            assert(fin@[0].1@ == sha256_of(tail_chunk));
                            assert(grown[grown.len() - 1] == tail_chunk);
                        }
                    }
                } else {
                    assert forall|k: Seq<u8>| #[trigger] has_key(self.index@, k) implies has_key(
                        old(self).index@,
                        k,
                    ) || (exists|i: int|
                        0 <= i < grown.len() && sha256_of(#[trigger] grown[i]) == k) by {
                        if exists|i: int| 0 <= i < pieces.len() && sha256_of(#[trigger] pieces[i])
                            == k {
                            let i = choose|i: int|
                                0 <= i < pieces.len() && sha256_of(#[trigger] pieces[i]) == k;
                            assert(grown[i] == pieces[i]);
                        }
                        if exists|j: int| 0 <= j < fin@.len() && (#[trigger] fin@[j]).1@ == k {
                            assert(fin@[0].1@ == sha256_of(tail_chunk));
                            assert(grown[grown.len() - 1] == tail_chunk);
                        }
                    }
                }
                if kind is Data {
                    assert forall|jj: int|
                        0 <= jj < grown.len() && piece_fresh_distinct(
                            old(self).chunks@,
                            grown,
                            jj,
                        ) implies #[trigger] data_piece_stored(
                        self.chunks@,
                        old(self).pub_key@,
                        grown,
                        jj,
                    ) by {
                        if jj < pieces.len() {
                            assert(grown[jj] == pieces[jj]);
                            assert forall|j2: int| 0 <= j2 < jj implies sha256_of(
                                #[trigger] pieces[j2],
                            ) != sha256_of(pieces[jj]) by {
                                assert(grown[j2] == pieces[j2]);
                            }
                            assert(data_piece_stored(
                                pre_chunks3,
                                old(self).pub_key@,
                                pieces,
                                jj,
                            ));
                            let esk0 = choose|esk: Seq<u8>|
                                esk.len() == 32 && pub_key_of(esk).len() == 32 && lookup(
                                    pre_chunks3,
                                    sha256_of(pieces[jj]),
                                ) == Some(
                                    data_file_of(
                                        pieces[jj],
                                        sha256_of(pieces[jj]),
                                        old(self).pub_key@,
                                        esk,
                                    ),
                                );
                            assert(lookup(self.chunks@, sha256_of(pieces[jj])) == lookup(
                                pre_chunks3,
                                sha256_of(pieces[jj]),
                            ));
                        } else {
                            assert(grown[jj] == tail_chunk);
                            assert(fin@[0].1@ == sha256_of(tail_chunk));
                            assert(!has_key(pre_chunks3, fin@[0].1@)) by {
                                if has_key(pre_chunks3, fin@[0].1@) {
                                    if exists|i2: int|
                                        0 <= i2 < pieces.len() && sha256_of(#[trigger] pieces[i2])
                                            == fin@[0].1@ {
                                        let i2 = choose|i2: int|
                                            0 <= i2 < pieces.len() && sha256_of(
                                                #[trigger] pieces[i2],
                                            ) == fin@[0].1@;
                                        assert(grown[i2] == pieces[i2]);
                                        assert(false);
                                    }
                                    assert(false);
                                }
                            }
                            assert(edge_fresh_distinct(pre_chunks3, fin@, 0));
                            assert(data_edge_stored(
                                self.chunks@,
                                old(self).pub_key@,
                                parts_concat,
                                Seq::<u8>::empty(),
                                fin@,
                                0,
                            ));
                            let esk1 = choose|esk: Seq<u8>|
                                esk.len() == 32 && pub_key_of(esk).len() == 32 && lookup(
                                    self.chunks@,
                                    fin@[0].1@,
                                ) == Some(
                                    data_file_of(
                                        crate::chunker::edge_chunk(
                                            parts_concat,
                                            Seq::<u8>::empty(),
                                            fin@,
                                            0,
                                        ),
                                        fin@[0].1@,
                                        old(self).pub_key@,
                                        esk,
                                    ),
                                );
                            assert(crate::chunker::edge_chunk(
                                parts_concat,
                                Seq::<u8>::empty(),
                                fin@,
                                0,
                            ) =~= tail_chunk);
                        }
                    }
                } else {
                    assert forall|jj: int|
                        0 <= jj < grown.len() && piece_fresh_distinct(
                            old(self).index@,
                            grown,
                            jj,
                        ) implies #[trigger] index_piece_stored(self.index@, grown, jj) by {
                        if jj < pieces.len() {
                            assert(grown[jj] == pieces[jj]);
                            assert forall|j2: int| 0 <= j2 < jj implies sha256_of(
                                #[trigger] pieces[j2],
                            ) != sha256_of(pieces[jj]) by {
                                assert(grown[j2] == pieces[j2]);
                            }
                            assert(index_piece_stored(pre_index3, pieces, jj));
                            assert(lookup(self.index@, sha256_of(pieces[jj])) == lookup(
                                pre_index3,
                                sha256_of(pieces[jj]),
                            ));
                        } else {
                            assert(grown[jj] == tail_chunk);
                            assert(fin@[0].1@ == sha256_of(tail_chunk));
                            assert(!has_key(pre_index3, fin@[0].1@)) by {
                                if has_key(pre_index3, fin@[0].1@) {
                                    if exists|i2: int|
                                        0 <= i2 < pieces.len() && sha256_of(#[trigger] pieces[i2])
                                            == fin@[0].1@ {
                                        let i2 = choose|i2: int|
                                            0 <= i2 < pieces.len() && sha256_of(
                                                #[trigger] pieces[i2],
                                            ) == fin@[0].1@;
                                        assert(grown[i2] == pieces[i2]);
                                        assert(false);
                                    }
                                    assert(false);
                                }
                            }
                            assert(edge_fresh_distinct(pre_index3, fin@, 0));
                            assert(index_edge_stored(
                                self.index@,
                                parts_concat,
                                Seq::<u8>::empty(),
                                fin@,
                                0,
                            ));
                            assert(crate::chunker::edge_chunk(
                                parts_concat,
                                Seq::<u8>::empty(),
                                fin@,
                                0,
                            ) =~= tail_chunk);
                        }
                    }
                }
                pieces = grown;
            }
        } else {
            proof {
                assert(data@.take(pos as int).len() == pos);
                assert(tail_chunk.len() == 0);
                assert(concat_pieces(pieces) + tail_chunk =~= concat_pieces(pieces));
                assert(data@.take(data@.len() as int) =~= data@);
            }
        }
        digests
    }

    /// Write a backup: chunk and store the stream, reduce the leaf digests to
    /// a single root by recursively chunking the index, and bind `name` to
    /// the root.  Names are write-once: fails with `Exists` exactly when the
    /// name is already bound (the chunks written so far remain, as they are
    /// content-addressed and shared).
    pub fn write(&mut self, name: &[u8], data: &[u8]) -> (r: Result<(), Error>)
        requires
            old(self).wf(),
        ensures
            final(self).wf(),
            final(self).path@ == old(self).path@,
            final(self).pub_key@ == old(self).pub_key@,
            store_preserved(old(self).chunks@, final(self).chunks@),
            store_preserved(old(self).index@, final(self).index@),
            r == Err::<(), Error>(Error::Exists) <==> has_key(old(self).backups@, name@),
            data@.len() == 0 && !has_key(old(self).backups@, name@) ==> r is Ok,
            !(r == Err::<(), Error>(Error::Exists)) ==> (exists|pieces: Seq<Seq<u8>>|
                #[trigger] concat_pieces(pieces) == data@ && (forall|i: int|
                    0 <= i < pieces.len() ==> has_key(
                        final(self).chunks@,
                        sha256_of(#[trigger] pieces[i]),
                    )) && (forall|k: Seq<u8>|
                    #[trigger] has_key(final(self).chunks@, k) ==> has_key(old(self).chunks@, k)
                        || (exists|i: int|
                        0 <= i < pieces.len() && sha256_of(#[trigger] pieces[i]) == k))),
            r is Ok ==> has_key(final(self).backups@, name@) && (forall|k: Seq<u8>|
                k != name@ ==> #[trigger] lookup(final(self).backups@, k) == lookup(
                    old(self).backups@,
                    k,
                )),
            r is Ok ==> (exists|d: Seq<u8>|
                lookup(final(self).backups@, name@) == Some(d) && d.len() == 32 && (has_key(
                    final(self).chunks@,
                    d,
                ) || has_key(final(self).index@, d))),
            r is Err ==> final(self).backups@ == old(self).backups@,
            r is Ok ==> (exists|pieces: Seq<Seq<u8>>|
                #[trigger] concat_pieces(pieces) == data@ && (forall|i: int|
                    0 <= i < pieces.len() ==> has_key(
                        final(self).chunks@,
                        sha256_of(#[trigger] pieces[i]),
                    )) && (forall|k: Seq<u8>|
                    #[trigger] has_key(final(self).chunks@, k) ==> has_key(old(self).chunks@, k)
                        || (exists|i: int|
                        0 <= i < pieces.len() && sha256_of(#[trigger] pieces[i]) == k)) && (
                forall|i: int|
                    0 <= i < pieces.len() && piece_fresh_distinct(old(self).chunks@, pieces, i)
                        ==> #[trigger] data_piece_stored(
                        final(self).chunks@,
                        old(self).pub_key@,
                        pieces,
                        i,
                    )) && (pieces.len() == 1 ==> lookup(final(self).backups@, name@) == Some(
                    sha256_of(data@),
                ) && final(self).index@ == old(self).index@) && (pieces.len() != 1 ==> (exists|
                    rd: Seq<u8>,
                |
                    lookup(final(self).backups@, name@) == Some(rd) && has_key(
                        final(self).index@,
                        rd,
                    )))),
    {
        if self.backups.contains_key(name) {
            return Err(Error::Exists);
        }
        let digests = self.chunk_and_send_to_writer(data, ChunkType::Data);
        let ghost pieces0 = choose|pieces: Seq<Seq<u8>>|
            #[trigger] concat_pieces(pieces) == data@ && digests@ == digests_of(pieces) && (
            forall|i: int|
                0 <= i < pieces.len() ==> sha256_of(#[trigger] pieces[i]).len() == 32 && has_key(
                    self.chunks@,
                    sha256_of(pieces[i]),
                )) && (forall|k: Seq<u8>|
                #[trigger] has_key(self.chunks@, k) ==> has_key(old(self).chunks@, k) || (exists|
                    i: int,
                |
                    0 <= i < pieces.len() && sha256_of(#[trigger] pieces[i]) == k)) && (forall|
                i: int,
            |
                0 <= i < pieces.len() && piece_fresh_distinct(old(self).chunks@, pieces, i)
                    ==> #[trigger] data_piece_stored(
                    self.chunks@,
                    old(self).pub_key@,
                    pieces,
                    i,
                ));
        proof {
            if digests@.len() == 32 {
                assert(digests@.skip(0) =~= digests@);
            }
        }
        let mut current = digests;
        // One entry per index layer still awaiting its wrapper chunk.  The
        // reduction shrinks the digest list by orders of magnitude per layer,
        // so the depth bound below is unreachable in practice; it only makes
        // the loop's progress measurable.
        let mut levels: Vec<bool> = Vec::new();
        while current.len() > 32 && levels.len() < 2147483647
            invariant
                self.wf(),
                self.path@ == old(self).path@,
                self.pub_key@ == old(self).pub_key@,
                self.backups@ == old(self).backups@,
                store_preserved(old(self).chunks@, self.chunks@),
                store_preserved(old(self).index@, self.index@),
                current@.len() % 32 == 0,
                current@.len() >= 32,
                digests@.len() == 32 ==> current@ == digests@ && self.index@ == old(self).index@
                    && levels@.len() == 0,
                digests@.len() != 32 && current@.len() == 32 ==> has_key(self.index@, current@),
                current@.len() == 32 ==> has_key(self.chunks@, current@) || has_key(
                    self.index@,
                    current@,
                ),
                concat_pieces(pieces0) == data@,
                digests@ == digests_of(pieces0),
                forall|i: int|
                    0 <= i < pieces0.len() ==> sha256_of(#[trigger] pieces0[i]).len() == 32
                        && has_key(self.chunks@, sha256_of(pieces0[i])),
                forall|k: Seq<u8>|
                    #[trigger] has_key(self.chunks@, k) ==> has_key(old(self).chunks@, k) || (
                    exists|i: int|
                        0 <= i < pieces0.len() && sha256_of(#[trigger] pieces0[i]) == k),
                forall|i: int|
                    0 <= i < pieces0.len() && piece_fresh_distinct(
                        old(self).chunks@,
                        pieces0,
                        i,
                    ) ==> #[trigger] data_piece_stored(
                        self.chunks@,
                        old(self).pub_key@,
                        pieces0,
                        i,
                    ),
            decreases 2147483647 - levels@.len(),
        {
            current = self.chunk_and_send_to_writer(current.as_slice(), ChunkType::Index);
            proof {
                if current@.len() == 32 {
                    assert(current@.skip(0) =~= current@);
                }
            }
            levels.push(true);
        }
        if current.len() > 32 {
            return Err(Error::Corrupted);
        }
        let mut root = current;
        while levels.len() > 0
            invariant
                self.wf(),
                self.path@ == old(self).path@,
                self.pub_key@ == old(self).pub_key@,
                self.backups@ == old(self).backups@,
                store_preserved(old(self).chunks@, self.chunks@),
                store_preserved(old(self).index@, self.index@),
                root@.len() == 32,
                has_key(self.chunks@, root@) || has_key(self.index@, root@),
                digests@.len() == 32 ==> root@ == digests@ && self.index@ == old(self).index@
                    && levels@.len() == 0,
                digests@.len() != 32 ==> has_key(self.index@, root@),
                concat_pieces(pieces0) == data@,
                digests@ == digests_of(pieces0),
                forall|i: int|
                    0 <= i < pieces0.len() ==> sha256_of(#[trigger] pieces0[i]).len() == 32
                        && has_key(self.chunks@, sha256_of(pieces0[i])),
                forall|k: Seq<u8>|
                    #[trigger] has_key(self.chunks@, k) ==> has_key(old(self).chunks@, k) || (
                    exists|i: int|
                        0 <= i < pieces0.len() && sha256_of(#[trigger] pieces0[i]) == k),
                forall|i: int|
                    0 <= i < pieces0.len() && piece_fresh_distinct(
                        old(self).chunks@,
                        pieces0,
                        i,
                    ) ==> #[trigger] data_piece_stored(
                        self.chunks@,
                        old(self).pub_key@,
                        pieces0,
                        i,
                    ),
            decreases levels@.len(),
        {
            levels.pop();
            let wrapper_digest = crate::sha::quick_sha256(root.as_slice());
            let mut parts: Vec<Vec<u8>> = Vec::new();
            let mut wrap_edges: Vec<crate::chunker::Edge> = Vec::new();
            wrap_edges.push((root.len(), slice_to_vec_bytes(wrapper_digest.as_slice())));
            proof {
                assert(wrap_edges@[0] == wrap_edges@.last());
                assert(concat_parts(parts@) == Seq::<u8>::empty());
                assert(crate::chunker::edge_chunk(Seq::<u8>::empty(), root@, wrap_edges@, 0)
                    =~= root@);
            }
            self.chunk_writer(&mut parts, root, &wrap_edges, ChunkType::Index);
            root = wrapper_digest;
        }
        let r = self.store_digest_as_backup_name(root.as_slice(), name);
        proof {
            lemma_digests_of_len(pieces0);
            if pieces0.len() == 1 {
                assert(pieces0.drop_last() =~= Seq::<Seq<u8>>::empty());
                assert(digests_of(Seq::<Seq<u8>>::empty()) == Seq::<u8>::empty());
                assert(concat_pieces(Seq::<Seq<u8>>::empty()) == Seq::<u8>::empty());
                assert(pieces0.last() == pieces0[0]);
                assert(concat_pieces(pieces0) == Seq::<u8>::empty() + pieces0[0]);
                assert(Seq::<u8>::empty() + pieces0[0] =~= pieces0[0]);
                assert(digests_of(pieces0) == Seq::<u8>::empty() + sha256_of(pieces0[0]));
                assert(Seq::<u8>::empty() + sha256_of(pieces0[0]) =~= sha256_of(pieces0[0]));
                assert(digests@ == sha256_of(data@));
            }
        }
        r
    }

    /// Read one chunk and append its plaintext to `out`.  Data chunks are
    /// split into ephemeral key and ciphertext, opened with the secret key,
    /// and inflated; index chunks are read raw.  Either way the plaintext is
    /// verified against the digest before a single byte is handed out.
    pub fn read_chunk_into(
        &self,
        digest: &[u8],
        kind: ChunkType,
        out: &mut Vec<u8>,
        sec_key: Option<&SecretKey>,
    ) -> (r: Result<(), Error>)
        requires
            self.wf(),
            digest@.len() == 32,
            kind is Data ==> (sec_key matches Some(k) && k.wf()),
        ensures
            r is Ok ==> (exists|p: Seq<u8>|
                final(out)@ == old(out)@ + p && sha256_of(p) == digest@),
            r is Err ==> final(out)@ == old(out)@,
            kind is Index ==> ((r == Err::<(), Error>(Error::NotFound)) <==> !has_key(
                self.index@,
                digest@,
            )),
            kind is Data ==> ((r == Err::<(), Error>(Error::NotFound)) <==> !has_key(
                self.chunks@,
                digest@,
            )),
            kind is Index ==> (forall|b: Seq<u8>|
                lookup(self.index@, digest@) == Some(b) ==> r is Ok && final(out)@ == old(out)@
                    + b),
            kind is Index && has_key(self.index@, digest@) ==> r is Ok && final(out)@ == old(
                out,
            )@ + lookup(self.index@, digest@)->Some_0,
            kind is Data ==> (forall|p: Seq<u8>, esk: Seq<u8>|
                ((sec_key matches Some(k) && pub_key_of(k@) == self.pub_key@) && esk.len() == 32
                    && pub_key_of(esk).len() == 32 && lookup(self.chunks@, digest@) == Some(
                    data_file_of(p, digest@, self.pub_key@, esk),
                )) ==> r is Ok && final(out)@ == old(out)@ + p),
    {
        match kind {
            ChunkType::Index => {
                let file = match self.index.get(digest) {
                    Some(f) => f,
                    None => {
                        return Err(Error::NotFound);
                    },
                };
                proof {
                    crate::store::lemma_lookup_index(self.index@, digest@);
                }
                let h = crate::sha::quick_sha256(file.as_slice());
                if !crate::store::bytes_eq(h.as_slice(), digest) {
                    return Err(Error::Corrupted);
                }
                out.extend_from_slice(file.as_slice());
                Ok(())
            },
            ChunkType::Data => {
                let file = match self.chunks.get(digest) {
                    Some(f) => f,
                    None => {
                        return Err(Error::NotFound);
                    },
                };
                let key = match sec_key {
                    Some(k) => k,
                    None => {
                        proof {
                            assert(false);
                        }
                        return Err(Error::DecryptionFailed);
                    },
                };
                proof {
                    crate::store::lemma_lookup_index(self.chunks@, digest@);
                }
                if file.len() < 32 {
                    // A data file cannot even hold the ephemeral key: the
                    // original's exact read of those bytes failed as I/O.
                    proof {
                        assert forall|p: Seq<u8>, esk: Seq<u8>|
                            !(esk.len() == 32 && pub_key_of(esk).len() == 32 && lookup(
                                self.chunks@,
                                digest@,
                            ) == Some(data_file_of(p, digest@, self.pub_key@, esk))) by {
                            if pub_key_of(esk).len() == 32 && lookup(self.chunks@, digest@)
                                == Some(data_file_of(p, digest@, self.pub_key@, esk)) {
                                assert(file@ == data_file_of(p, digest@, self.pub_key@, esk));
                                assert(file@.len() >= 32);
                            }
                        }
                    }
                    return Err(Error::Io);
                }
                let epk = vstd::slice::slice_subrange(file.as_slice(), 0, 32);
                let ct = vstd::slice::slice_subrange(file.as_slice(), 32, file.len());
                let nonce = vstd::slice::slice_subrange(digest, 0, 24);
                proof {
                    assert forall|p: Seq<u8>, esk: Seq<u8>|
                        (esk.len() == 32 && pub_key_of(esk).len() == 32 && file@ == data_file_of(
                            p,
                            digest@,
                            self.pub_key@,
                            esk,
                        )) implies epk@ == pub_key_of(esk) && ct@ == crate::envelope::seal_of(
                        deflate_spec(p),
                        digest@.take(24),
                        self.pub_key@,
                        esk,
                    ) by {
                        assert(epk@ =~= pub_key_of(esk));
                        assert(ct@ =~= crate::envelope::seal_of(
                            deflate_spec(p),
                            digest@.take(24),
                            self.pub_key@,
                            esk,
                        ));
                    }
                    assert(nonce@ =~= digest@.take(24));
                }
                let opened = crate::envelope::box_open(ct, nonce, epk, key.bytes.as_slice());
                let cipher_plain = match opened {
                    Ok(c) => c,
                    Err(_) => {
                        return Err(Error::DecryptionFailed);
                    },
                };
                let inflated = crate::compress::decompress(cipher_plain.as_slice());
                let plain = match inflated {
                    Ok(p) => p,
                    Err(_) => {
                        return Err(Error::Corrupted);
                    },
                };
                let h = crate::sha::quick_sha256(plain.as_slice());
                if !crate::store::bytes_eq(h.as_slice(), digest) {
                    return Err(Error::Corrupted);
                }
                out.extend_from_slice(plain.as_slice());
                Ok(())
            },
        }
    }

    /// Reconstruct the byte stream a digest roots: a data chunk streams out
    /// directly; an index chunk starts a level-by-level walk in which each
    /// level's chunks are reassembled into one blob, whose 32-byte child
    /// digests (regrouped across the content-defined chunk cuts) either name
    /// the data chunks, streamed out in order, or the chunks of the next
    /// level down.
    pub fn read_recursively(&self, digest: &[u8], out: &mut Vec<u8>, sec_key: &SecretKey) -> (r:
        Result<(), Error>)
        requires
            self.wf(),
            digest@.len() == 32,
            sec_key.wf(),
        ensures
            !has_key(self.index@, digest@) && !has_key(self.chunks@, digest@) ==> r == Err::<
                (),
                Error,
            >(Error::NotFound) && final(out)@ == old(out)@,
            forall|p: Seq<u8>, esk: Seq<u8>|
                (!has_key(self.index@, digest@) && pub_key_of(sec_key@) == self.pub_key@
                    && esk.len() == 32 && pub_key_of(esk).len() == 32 && lookup(
                    self.chunks@,
                    digest@,
                ) == Some(data_file_of(p, digest@, self.pub_key@, esk))) ==> r is Ok && final(out)@ == old(out)@ + p,
            r is Ok ==> (exists|pieces: Seq<Seq<u8>>|
                final(out)@ == old(out)@ + concat_pieces(pieces) && (forall|i: int|
                    0 <= i < pieces.len() ==> has_key(
                        self.chunks@,
                        sha256_of(#[trigger] pieces[i]),
                    ))),
            r is Ok && has_key(self.index@, digest@) ==> (exists|fuel: nat, pieces: Seq<Seq<u8>>|
                final(out)@ == old(out)@ + concat_pieces(pieces) && expand_levels(
                    self.index@,
                    self.chunks@,
                    lookup(self.index@, digest@)->Some_0,
                    fuel,
                ) == Some(digests_of(pieces))),
            (has_key(self.index@, digest@) && tree_readable(
                self.index@,
                self.chunks@,
                lookup(self.index@, digest@)->Some_0,
            ) && pub_key_of(sec_key@) == self.pub_key@) ==> r is Ok,
    {
        let root_type = match self.chunk_type(digest) {
            Ok(t) => t,
            Err(e) => {
                return Err(e);
            },
        };
        match root_type {
            ChunkType::Data => {
                let r = self.read_chunk_into(digest, ChunkType::Data, out, Some(sec_key));
                proof {
                    if has_key(self.index@, digest@) {
                        assert(false);
                    }
                    if r is Ok {
                        if !has_key(self.chunks@, digest@) {
                            assert(false);
                        }
                        let p = choose|p: Seq<u8>|
                            out@ == old(out)@ + p && sha256_of(p) == digest@;
                        let pieces = seq![p];
                        assert(pieces.drop_last() =~= Seq::<Seq<u8>>::empty());
                        assert(concat_pieces(Seq::<Seq<u8>>::empty()) == Seq::<u8>::empty());
                        assert(pieces.last() == p);
                        assert(concat_pieces(pieces) == Seq::<u8>::empty() + p);
                        assert(Seq::<u8>::empty() + p =~= p);
                        assert(out@ == old(out)@ + concat_pieces(pieces));
                    }
                }
                r
            },
            ChunkType::Index => {
                proof {
                    if !has_key(self.index@, digest@) {
                        assert(false);
                    }
                }
                // Expand the tree one index level at a time.  A whole level's
                // blob is a multiple of 32 bytes, but the content-defined
                // chunks it was stored as are cut at arbitrary offsets, so
                // the 32-byte child digests are regrouped only after a full
                // level has been reassembled, exactly as the write side
                // produced it.
                let mut level: Vec<u8> = Vec::new();
                match self.read_chunk_into(digest, ChunkType::Index, &mut level, None) {
                    Ok(()) => (),
                    Err(e) => {
                        proof {
                            assert(lookup(self.index@, digest@) == Some(
                                lookup(self.index@, digest@)->Some_0,
                            ));
                            assert(false);
                        }
                        return Err(e);
                    },
                }
                let ghost blob0 = level@;
                proof {
                    assert(lookup(self.index@, digest@) == Some(
                        lookup(self.index@, digest@)->Some_0,
                    ));
                    assert(Seq::<u8>::empty() + lookup(self.index@, digest@)->Some_0 =~= lookup(
                        self.index@,
                        digest@,
                    )->Some_0);
                    assert(blob0 == lookup(self.index@, digest@)->Some_0);
                }
                let ghost mut pieces: Seq<Seq<u8>> = Seq::empty();
                proof {
                    assert forall|m: nat|
                        expand_levels(self.index@, self.chunks@, level@, m) is Some implies (exists|
                        f: nat,
                    |
                        expand_levels(self.index@, self.chunks@, blob0, f) == Some(
                            digests_of(pieces) + expand_levels(
                                self.index@,
                                self.chunks@,
                                level@,
                                m,
                            )->Some_0,
                        )) by {
                        let e = expand_levels(self.index@, self.chunks@, level@, m)->Some_0;
                        assert(digests_of(pieces) + e =~= e);
                        assert(expand_levels(self.index@, self.chunks@, blob0, m) == Some(
                            digests_of(pieces) + e,
                        ));
                    }
                }
                proof {
                    if tree_readable(self.index@, self.chunks@, blob0) {
                        let f = choose|fuel: nat|
                            fuel + 2 < usize::MAX && expand_levels(
                                self.index@,
                                self.chunks@,
                                blob0,
                                fuel,
                            ) is Some;
                        assert(expand_levels(self.index@, self.chunks@, level@, f) is Some);
                    }
                }
                let mut rounds: usize = 0;
                while level.len() > 0
                    invariant
                        self.wf(),
                        sec_key.wf(),
                        has_key(self.index@, digest@),
                        blob0 == lookup(self.index@, digest@)->Some_0,
                        rounds <= usize::MAX,
                        out@ == old(out)@ + concat_pieces(pieces),
                        forall|i: int|
                            0 <= i < pieces.len() ==> has_key(
                                self.chunks@,
                                sha256_of(#[trigger] pieces[i]),
                            ),
                        forall|m: nat|
                            #[trigger] expand_levels(self.index@, self.chunks@, level@, m)
                                is Some ==> (exists|f: nat|
                                expand_levels(self.index@, self.chunks@, blob0, f) == Some(
                                    digests_of(pieces) + expand_levels(
                                        self.index@,
                                        self.chunks@,
                                        level@,
                                        m,
                                    )->Some_0,
                                )),
                        tree_readable(self.index@, self.chunks@, blob0) ==> (exists|m2: nat|
                            #[trigger] expand_levels(self.index@, self.chunks@, level@, m2)
                                is Some && m2 + 2 + rounds < usize::MAX),
                    decreases usize::MAX - rounds,
                {
                    if rounds >= usize::MAX - 1 {
                        proof {
                            if tree_readable(self.index@, self.chunks@, blob0) {
                                let m2 = choose|m2: nat|
                                    expand_levels(self.index@, self.chunks@, level@, m2) is Some
                                        && m2 + 2 + rounds < usize::MAX;
                                assert(false);
                            }
                        }
                        return Err(Error::Corrupted);
                    }
                    rounds = rounds + 1;
                    if level.len() % 32 != 0 {
                        proof {
                            if tree_readable(self.index@, self.chunks@, blob0) {
                                let m2 = choose|m2: nat|
                                    expand_levels(self.index@, self.chunks@, level@, m2) is Some
                                        && m2 + 2 + (rounds - 1) < usize::MAX;
                                assert(expand_levels(self.index@, self.chunks@, level@, m2)
                                    is Some);
                                assert(m2 > 0);
                                assert(level_pass(self.index@, self.chunks@, level@) is Some);
                                lemma_level_pass_mod(self.index@, self.chunks@, level@);
                                assert(false);
                            }
                        }
                        return Err(Error::Corrupted);
                    }
                    let ghost pieces_at = pieces;
                    let ghost mut emitted_d: Seq<u8> = Seq::empty();
                    let mut next: Vec<u8> = Vec::new();
                    proof {
                        assert(level@.skip(0) =~= level@);
                        assert(digests_of(pieces) + Seq::<u8>::empty() =~= digests_of(pieces));
                        if tree_readable(self.index@, self.chunks@, blob0) {
                            let m2 = choose|m2: nat|
                                expand_levels(self.index@, self.chunks@, level@, m2) is Some && m2
                                    + 2 + (rounds - 1) < usize::MAX;
                            assert(expand_levels(self.index@, self.chunks@, level@, m2) is Some);
                            assert(m2 > 0);
                            assert(level_pass(self.index@, self.chunks@, level@) is Some);
                        }
                        if level_pass(self.index@, self.chunks@, level@) is Some {
                            let r0 = level_pass(self.index@, self.chunks@, level@)->Some_0.0;
                            let r1 = level_pass(self.index@, self.chunks@, level@)->Some_0.1;
                            assert(Seq::<u8>::empty() + r0 =~= r0);
                            assert(Seq::<u8>::empty() + r1 =~= r1);
                        }
                    }
                    let mut pos: usize = 0;
                    while pos < level.len()
                        invariant
                            self.wf(),
                            sec_key.wf(),
                            has_key(self.index@, digest@),
                            pos <= level@.len(),
                            pos % 32 == 0,
                            level@.len() % 32 == 0,
                            out@ == old(out)@ + concat_pieces(pieces),
                            digests_of(pieces) == digests_of(pieces_at) + emitted_d,
                            blob0 == lookup(self.index@, digest@)->Some_0,
                            tree_readable(self.index@, self.chunks@, blob0) ==> level_pass(
                                self.index@,
                                self.chunks@,
                                level@.skip(pos as int),
                            ) is Some,
                            pass_extends(
                                self.index@,
                                self.chunks@,
                                level@,
                                level@.skip(pos as int),
                                emitted_d,
                                next@,
                            ),
                            forall|i: int|
                                0 <= i < pieces.len() ==> has_key(
                                    self.chunks@,
                                    sha256_of(#[trigger] pieces[i]),
                                ),
                        decreases level@.len() - pos,
                    {
                        let d = vstd::slice::slice_subrange(level.as_slice(), pos, pos + 32);
                        let ghost part = level@.skip(pos as int);
                        let ghost part2 = level@.skip(pos + 32);
                        proof {
                            assert(part.take(32) =~= d@);
                            assert(part.skip(32) =~= part2);
                        }
                        let t = match self.chunk_type(d) {
                            Ok(t) => t,
                            Err(e) => {
                                proof {
                                    if tree_readable(self.index@, self.chunks@, blob0) {
                                        assert(level_pass(self.index@, self.chunks@, part)
                                            is Some);
                                        assert(has_key(self.index@, d@) || has_key(
                                            self.chunks@,
                                            d@,
                                        ));
                                        assert(false);
                                    }
                                }
                                return Err(e);
                            },
                        };
                        match t {
                            ChunkType::Data => {
                                let ghost out_pre = out@;
                                match self.read_chunk_into(d, ChunkType::Data, out, Some(sec_key)) {
                                    Ok(()) => (),
                                    Err(e) => {
                                        proof {
                                            if tree_readable(self.index@, self.chunks@, blob0)
                                                && pub_key_of(sec_key@) == self.pub_key@ {
                                                if has_key(self.index@, d@) {
                                                    assert(false);
                                                }
                                                if !has_key(self.chunks@, d@) {
                                                    assert(false);
                                                }
                                                crate::store::lemma_lookup_index(
                                                    self.chunks@,
                                                    d@,
                                                );
                                                let i = choose|i: int|
                                                    0 <= i < self.chunks@.len() && (
                                                    #[trigger] self.chunks@[i]).0@ == d@
                                                        && self.chunks@[i].1@ == lookup(
                                                        self.chunks@,
                                                        d@,
                                                    )->Some_0;
                                                assert(data_entry_ok(
                                                    self.pub_key@,
                                                    self.chunks@[i],
                                                ));
                                                let (p, esk) = choose|
                                                    p: Seq<u8>,
                                                    esk: Seq<u8>,
                                                |
                                                    sha256_of(p) == self.chunks@[i].0@
                                                        && esk.len() == 32 && pub_key_of(
                                                        esk,
                                                    ).len() == 32 && self.chunks@[i].1@
                                                        == data_file_of(
                                                        p,
                                                        self.chunks@[i].0@,
                                                        self.pub_key@,
                                                        esk,
                                                    );
                                                assert(lookup(self.chunks@, d@) == Some(
                                                    data_file_of(p, d@, self.pub_key@, esk),
                                                ));
                                                assert(false);
                                            }
                                        }
                                        return Err(e);
                                    },
                                }
                                proof {
                                    if has_key(self.index@, d@) {
                                        assert(false);
                                    }
                                    if !has_key(self.chunks@, d@) {
                                        assert(false);
                                    }
                                    let p = choose|p: Seq<u8>|
                                        out@ == out_pre + p && sha256_of(p) == d@;
                                    let grown = pieces.push(p);
                                    assert(grown.drop_last() =~= pieces);
                                    assert(grown.last() == p);
                                    assert(concat_pieces(grown) == concat_pieces(pieces) + p);
                                    assert(old(out)@ + (concat_pieces(pieces) + p) =~= (old(
                                        out,
                                    )@ + concat_pieces(pieces)) + p);
                                    assert(digests_of(grown) == digests_of(pieces) + sha256_of(p));
                                    assert(digests_of(pieces_at) + emitted_d + d@ =~= digests_of(
                                        pieces_at,
                                    ) + (emitted_d + d@));
                                    if level_pass(self.index@, self.chunks@, part2) is Some {
                                        let r0 = level_pass(
                                            self.index@,
                                            self.chunks@,
                                            part2,
                                        )->Some_0.0;
                                        let r1 = level_pass(
                                            self.index@,
                                            self.chunks@,
                                            part2,
                                        )->Some_0.1;
                                        assert(level_pass(self.index@, self.chunks@, part)
                                            == Some(((d@ + r0), r1)));
                                        assert(emitted_d + (d@ + r0) =~= (emitted_d + d@) + r0);
                                    }
                                    pieces = grown;
                                    emitted_d = emitted_d + d@;
                                }
                            },
                            ChunkType::Index => {
                                let ghost next_pre = next@;
                                match self.read_chunk_into(d, ChunkType::Index, &mut next, None) {
                                    Ok(()) => (),
                                    Err(e) => {
                                        proof {
                                            if !has_key(self.index@, d@) {
                                                assert(false);
                                            }
                                            assert(false);
                                        }
                                        return Err(e);
                                    },
                                }
                                proof {
                                    if !has_key(self.index@, d@) {
                                        assert(false);
                                    }
                                    let b = lookup(self.index@, d@)->Some_0;
                                    assert(lookup(self.index@, d@) == Some(b));
                                    assert(next@ == next_pre + b);
                                    if level_pass(self.index@, self.chunks@, part2) is Some {
                                        let r0 = level_pass(
                                            self.index@,
                                            self.chunks@,
                                            part2,
                                        )->Some_0.0;
                                        let r1 = level_pass(
                                            self.index@,
                                            self.chunks@,
                                            part2,
                                        )->Some_0.1;
                                        assert(level_pass(self.index@, self.chunks@, part)
                                            == Some((r0, (b + r1))));
                                        assert(next_pre + (b + r1) =~= (next_pre + b) + r1);
                                    }
                                }
                            },
                        }
                        proof {
                            if tree_readable(self.index@, self.chunks@, blob0) {
                                assert(level_pass(self.index@, self.chunks@, part) is Some);
                                assert(level_pass(self.index@, self.chunks@, part.skip(32))
                                    is Some);
                            }
                        }
                        pos = pos + 32;
                    }
                    proof {
                        assert(level@.skip(level@.len() as int) =~= Seq::<u8>::empty());
                        assert(level_pass(self.index@, self.chunks@, Seq::<u8>::empty()) == Some(
                            (Seq::<u8>::empty(), Seq::<u8>::empty()),
                        ));
                        assert(emitted_d + Seq::<u8>::empty() =~= emitted_d);
                        assert(next@ + Seq::<u8>::empty() =~= next@);
                        assert(level_pass(self.index@, self.chunks@, level@) == Some(
                            (emitted_d, next@),
                        ));
                        assert forall|m: nat|
                            expand_levels(self.index@, self.chunks@, next@, m) is Some implies (
                        exists|f: nat|
                            expand_levels(self.index@, self.chunks@, blob0, f) == Some(
                                digests_of(pieces) + expand_levels(
                                    self.index@,
                                    self.chunks@,
                                    next@,
                                    m,
                                )->Some_0,
                            )) by {
                            let e = expand_levels(self.index@, self.chunks@, next@, m)->Some_0;
                            assert(expand_levels(self.index@, self.chunks@, level@, (m + 1) as nat)
                                == Some(emitted_d + e));
                            assert(expand_levels(
                                self.index@,
                                self.chunks@,
                                level@,
                                (m + 1) as nat,
                            ) is Some);
                            let f0 = choose|f: nat|
                                expand_levels(self.index@, self.chunks@, blob0, f) == Some(
                                    digests_of(pieces_at) + expand_levels(
                                        self.index@,
                                        self.chunks@,
                                        level@,
                                        (m + 1) as nat,
                                    )->Some_0,
                                );
                            assert(digests_of(pieces_at) + (emitted_d + e) =~= (digests_of(
                                pieces_at,
                            ) + emitted_d) + e);
                            assert(expand_levels(self.index@, self.chunks@, blob0, f0) == Some(
                                digests_of(pieces) + e,
                            ));
                        }
                        if tree_readable(self.index@, self.chunks@, blob0) {
                            let m2 = choose|m2: nat|
                                expand_levels(self.index@, self.chunks@, level@, m2) is Some && m2
                                    + 2 + (rounds - 1) < usize::MAX;
                            assert(expand_levels(self.index@, self.chunks@, level@, m2) is Some);
                            assert(m2 > 0);
                            assert(expand_levels(self.index@, self.chunks@, next@, (m2 - 1) as nat)
                                is Some);
                        }
                    }
                    level = next;
                }
                proof {
                    assert(expand_levels(self.index@, self.chunks@, level@, 0) == Some(Seq::<
                        u8,
                    >::empty()));
                    let f0 = choose|f: nat|
                        expand_levels(self.index@, self.chunks@, blob0, f) == Some(
                            digests_of(pieces) + expand_levels(
                                self.index@,
                                self.chunks@,
                                level@,
                                0,
                            )->Some_0,
                        );
                    assert(digests_of(pieces) + Seq::<u8>::empty() =~= digests_of(pieces));
                    assert(expand_levels(self.index@, self.chunks@, blob0, f0) == Some(
                        digests_of(pieces),
                    ));
                }
                proof {
                    assert(out@ == old(out)@ + concat_pieces(pieces));
                }
                Ok(())
            },
        }
    }

    /// Read the backup called `name`, appending its full byte stream to
    /// `out`.  Fails with `NotFound` when the name is unknown.
    pub fn read(&self, name: &[u8], out: &mut Vec<u8>, sec_key: &SecretKey) -> (r: Result<
        (),
        Error,
    >)
        requires
            self.wf(),
            sec_key.wf(),
        ensures
            !has_key(self.backups@, name@) ==> r == Err::<(), Error>(Error::NotFound) && final(out)@ == old(out)@,
            forall|d: Seq<u8>, p: Seq<u8>, esk: Seq<u8>|
                (lookup(self.backups@, name@) == Some(d) && !has_key(self.index@, d)
                    && pub_key_of(sec_key@) == self.pub_key@ && esk.len() == 32 && pub_key_of(
                    esk,
                ).len() == 32 && lookup(self.chunks@, d) == Some(
                    data_file_of(p, d, self.pub_key@, esk),
                )) ==> r is Ok && final(out)@ == old(out)@ + p,
            r is Ok ==> (exists|pieces: Seq<Seq<u8>>|
                final(out)@ == old(out)@ + concat_pieces(pieces) && (forall|i: int|
                    0 <= i < pieces.len() ==> has_key(
                        self.chunks@,
                        sha256_of(#[trigger] pieces[i]),
                    ))),
            forall|d: Seq<u8>|
                (r is Ok && lookup(self.backups@, name@) == Some(d) && has_key(
                    self.index@,
                    d,
                )) ==> (exists|fuel: nat, pieces: Seq<Seq<u8>>|
                    final(out)@ == old(out)@ + concat_pieces(pieces) && expand_levels(
                        self.index@,
                        self.chunks@,
                        lookup(self.index@, d)->Some_0,
                        fuel,
                    ) == Some(digests_of(pieces))),
            forall|d: Seq<u8>|
                (lookup(self.backups@, name@) == Some(d) && has_key(self.index@, d)
                    && tree_readable(
                    self.index@,
                    self.chunks@,
                    lookup(self.index@, d)->Some_0,
                ) && pub_key_of(sec_key@) == self.pub_key@) ==> r is Ok,
    {
        let digest = match self.name_to_digest(name) {
            Ok(d) => d,
            Err(e) => {
                return Err(e);
            },
        };
        proof {
            crate::store::lemma_lookup_index(self.backups@, name@);
        }
        self.read_recursively(digest.as_slice(), out, sec_key)
    }

    /// All backup names, in creation order.
    pub fn list_names(&self) -> (r: Vec<Vec<u8>>)
        ensures
            r@.len() == self.backups@.len(),
            forall|i: int| 0 <= i < r@.len() ==> r@[i]@ == self.backups@[i].0@,
    {
        self.backups.keys()
    }

    /// All stored digests: the union of the index and chunk stores, without
    /// duplicates.
    pub fn list_stored_chunks(&self) -> (r: Vec<Vec<u8>>)
        requires
            self.wf(),
        ensures
            forall|d: Seq<u8>|
                #[trigger] digest_listed(r@, d) <==> (has_key(self.index@, d) || has_key(
                    self.chunks@,
                    d,
                )),
            forall|i: int, j: int| 0 <= i < j < r@.len() ==> r@[i]@ != r@[j]@,
    {
        let mut out = self.index.keys();
        proof {
            crate::store::lemma_wf_distinct_keys(&self.index);
            assert forall|d: Seq<u8>| #[trigger] digest_listed(out@, d) implies has_key(
                self.index@,
                d,
            ) by {
                let i = choose|i: int| 0 <= i < out@.len() && out@[i]@ == d;
                assert(self.index@[i].0@ == d);
                crate::store::lemma_has_key_index(self.index@, d);
            }
            assert forall|d: Seq<u8>| has_key(self.index@, d) implies digest_listed(out@, d) by {
                crate::store::lemma_has_key_index(self.index@, d);
                let i = choose|i: int| 0 <= i < self.index@.len() && (#[trigger] self.index@[i]).0@
                    == d;
                assert(out@[i]@ == d);
            }
        }
        let keys2 = self.chunks.keys();
        let mut i: usize = 0;
        while i < keys2.len()
            invariant
                i <= keys2@.len(),
                keys2@.len() == self.chunks@.len(),
                forall|j: int| 0 <= j < keys2@.len() ==> keys2@[j]@ == self.chunks@[j].0@,
                forall|d: Seq<u8>|
                    #[trigger] digest_listed(out@, d) <==> (has_key(self.index@, d) || (exists|
                        j: int,
                    |
                        0 <= j < i && keys2@[j]@ == d)),
                forall|a: int, b: int| 0 <= a < b < out@.len() ==> out@[a]@ != out@[b]@,
            decreases keys2@.len() - i,
        {
            let ghost pre = out@;
            if !digest_list_contains(&out, keys2[i].as_slice()) {
                out.push(slice_to_vec_bytes(keys2[i].as_slice()));
            }
            proof {
                assert forall|d: Seq<u8>| #[trigger] digest_listed(out@, d) implies (has_key(
                    self.index@,
                    d,
                ) || (exists|j: int| 0 <= j < i + 1 && keys2@[j]@ == d)) by {
                    let a = choose|a: int| 0 <= a < out@.len() && out@[a]@ == d;
                    if a < pre.len() {
                        assert(digest_listed(pre, d));
                    } else {
                        assert(keys2@[i as int]@ == d);
                    }
                }
                assert forall|d: Seq<u8>| (has_key(self.index@, d) || (exists|j: int|
                    0 <= j < i + 1 && keys2@[j]@ == d)) implies #[trigger] digest_listed(
                    out@,
                    d,
                ) by {
                    if has_key(self.index@, d) || (exists|j: int| 0 <= j < i && keys2@[j]@ == d) {
                        assert(digest_listed(pre, d));
                        let a = choose|a: int| 0 <= a < pre.len() && pre[a]@ == d;
                        assert(out@[a]@ == d);
                    } else {
                        assert(keys2@[i as int]@ == d);
                        if digest_listed(pre, d) {
                        } else {
                            assert(out@[out@.len() - 1]@ == d);
                        }
                    }
                }
            }
            i = i + 1;
        }
        proof {
            assert forall|d: Seq<u8>|
                (exists|j: int| 0 <= j < keys2@.len() && keys2@[j]@ == d) implies has_key(
                self.chunks@,
                d,
            ) by {
                let j = choose|j: int| 0 <= j < keys2@.len() && keys2@[j]@ == d;
                assert(self.chunks@[j].0@ == d);
                crate::store::lemma_has_key_index(self.chunks@, d);
            }
            assert forall|d: Seq<u8>| has_key(self.chunks@, d) implies (exists|j: int|
                0 <= j < keys2@.len() && keys2@[j]@ == d) by {
                crate::store::lemma_has_key_index(self.chunks@, d);
                let j = choose|j: int|
                    0 <= j < self.chunks@.len() && (#[trigger] self.chunks@[j]).0@ == d;
                assert(keys2@[j]@ == d);
            }
        }
        out
    }
}

/// The bytes of the queued parts, in order.
pub open spec fn concat_parts(parts: Seq<Vec<u8>>) -> Seq<u8>
    decreases parts.len(),
{
    if parts.len() == 0 {
        Seq::empty()
    } else {
        concat_parts(parts.drop_last()) + parts.last()@
    }
}

/// The bytes of a sequence of chunk plaintexts, in order.
pub open spec fn concat_pieces(pieces: Seq<Seq<u8>>) -> Seq<u8>
    decreases pieces.len(),
{
    if pieces.len() == 0 {
        Seq::empty()
    } else {
        concat_pieces(pieces.drop_last()) + pieces.last()
    }
}

/// The chunks that a buffer's edges close, in order.
pub open spec fn edge_chunks(prev: Seq<u8>, buf: Seq<u8>, edges: Seq<crate::chunker::Edge>) -> Seq<
    Seq<u8>,
> {
    Seq::new(edges.len(), |i: int| crate::chunker::edge_chunk(prev, buf, edges, i))
}

/// Concatenation distributes over appending piece lists.
pub proof fn lemma_concat_pieces_append(a: Seq<Seq<u8>>, b: Seq<Seq<u8>>)
    ensures
        concat_pieces(a + b) == concat_pieces(a) + concat_pieces(b),
    decreases b.len(),
{
    if b.len() == 0 {
        assert(a + b =~= a);
        assert(concat_pieces(a) + concat_pieces(b) =~= concat_pieces(a));
    } else {
        lemma_concat_pieces_append(a, b.drop_last());
        assert((a + b).drop_last() =~= a + b.drop_last());
        assert((a + b).last() == b.last());
        assert(concat_pieces(a + b) == (concat_pieces(a) + concat_pieces(b.drop_last()))
            + b.last());
        assert((concat_pieces(a) + concat_pieces(b.drop_last())) + b.last() =~= concat_pieces(a)
            + (concat_pieces(b.drop_last()) + b.last()));
    }
}

/// Law (the chunks partition the stream): the chunks an edge list closes,
/// concatenated in order, followed by the bytes it leaves open, are exactly
/// the carried-over bytes followed by the buffer.  Nothing is lost, added or
/// reordered by chunking.
pub proof fn lemma_edge_chunks_partition(
    prev: Seq<u8>,
    buf: Seq<u8>,
    edges: Seq<crate::chunker::Edge>,
)
    requires
        crate::chunker::edges_sorted(buf, edges),
    ensures
        concat_pieces(edge_chunks(prev, buf, edges)) + crate::chunker::open_after(
            prev,
            buf,
            edges,
        ) == prev + buf,
    decreases edges.len(),
{
    let ec = edge_chunks(prev, buf, edges);
    if edges.len() == 0 {
        assert(ec =~= Seq::<Seq<u8>>::empty());
        assert(concat_pieces(ec) == Seq::<u8>::empty());
        assert(Seq::<u8>::empty() + (prev + buf) =~= prev + buf);
    } else if edges.len() == 1 {
        assert(ec.drop_last() =~= Seq::<Seq<u8>>::empty());
        assert(concat_pieces(ec.drop_last()) == Seq::<u8>::empty());
        assert(ec.last() == crate::chunker::edge_chunk(prev, buf, edges, 0));
        assert((Seq::<u8>::empty() + (prev + buf.take(edges[0].0 as int))) + buf.skip(
            edges[0].0 as int,
        ) =~= prev + buf);
    } else {
        let dl = edges.drop_last();
        assert(crate::chunker::edges_sorted(buf, dl)) by {
            assert forall|i: int| 0 <= i < dl.len() implies (#[trigger] dl[i]).0 <= buf.len() by {
                assert(dl[i] == edges[i]);
            }
            assert forall|i: int, j: int| 0 <= i < j < dl.len() implies (#[trigger] dl[i]).0 <= (
            #[trigger] dl[j]).0 by {
                assert(dl[i] == edges[i] && dl[j] == edges[j]);
            }
        }
        lemma_edge_chunks_partition(prev, buf, dl);
        let ecdl = edge_chunks(prev, buf, dl);
        assert(ec.drop_last() =~= ecdl) by {
            assert forall|i: int| 0 <= i < ecdl.len() implies ec.drop_last()[i] == ecdl[i] by {
                if i > 0 {
                    assert(edges[i - 1] == dl[i - 1] && edges[i] == dl[i]);
                } else {
                    assert(edges[0] == dl[0]);
                }
            }
        }
        assert(concat_pieces(ec) == concat_pieces(ecdl) + ec.last());
        let a = dl.last().0 as int;
        let b = edges.last().0 as int;
        assert(dl.last() == edges[edges.len() - 2] && edges.last() == edges[edges.len() - 1]);
        assert(a <= b && b <= buf.len());
        assert(ec.last() == crate::chunker::edge_chunk(prev, buf, edges, edges.len() - 1));
        assert(ec.last() == buf.subrange(a, b));
        assert(buf.subrange(a, b) + buf.skip(b) =~= buf.skip(a));
        assert((concat_pieces(ecdl) + buf.subrange(a, b)) + buf.skip(b) =~= concat_pieces(ecdl)
            + (buf.subrange(a, b) + buf.skip(b)));
        assert(concat_pieces(ecdl) + buf.skip(a) == prev + buf);
    }
}

/// The digest bytes of a sequence of chunk plaintexts: the 32-byte SHA-256
/// of each piece, concatenated in order.
pub open spec fn digests_of(pieces: Seq<Seq<u8>>) -> Seq<u8>
    decreases pieces.len(),
{
    if pieces.len() == 0 {
        Seq::empty()
    } else {
        digests_of(pieces.drop_last()) + sha256_of(pieces.last())
    }
}

/// Digest concatenation distributes over appending piece lists.
pub proof fn lemma_digests_of_append(a: Seq<Seq<u8>>, b: Seq<Seq<u8>>)
    ensures
        digests_of(a + b) == digests_of(a) + digests_of(b),
    decreases b.len(),
{
    if b.len() == 0 {
        assert(a + b =~= a);
        assert(digests_of(a) + digests_of(b) =~= digests_of(a));
    } else {
        lemma_digests_of_append(a, b.drop_last());
        assert((a + b).drop_last() =~= a + b.drop_last());
        assert((a + b).last() == b.last());
        assert(digests_of(a + b) == (digests_of(a) + digests_of(b.drop_last())) + sha256_of(
            b.last(),
        ));
        assert((digests_of(a) + digests_of(b.drop_last())) + sha256_of(b.last()) =~= digests_of(
            a,
        ) + (digests_of(b.drop_last()) + sha256_of(b.last())));
    }
}

/// When every piece's digest is 32 bytes, the digest list is 32 bytes per
/// piece.
pub proof fn lemma_digests_of_len(pieces: Seq<Seq<u8>>)
    requires
        forall|i: int| 0 <= i < pieces.len() ==> sha256_of(#[trigger] pieces[i]).len() == 32,
    ensures
        digests_of(pieces).len() == 32 * pieces.len(),
    decreases pieces.len(),
{
    if pieces.len() > 0 {
        assert(pieces.last() == pieces[pieces.len() - 1]);
        assert forall|i: int| 0 <= i < pieces.drop_last().len() implies sha256_of(
            #[trigger] pieces.drop_last()[i],
        ).len() == 32 by {
            assert(pieces.drop_last()[i] == pieces[i]);
        }
        lemma_digests_of_len(pieces.drop_last());
    }
}

/// One pass over an index level.  Each 32-byte group names either a data
/// chunk, whose digest is emitted, or an index chunk, whose stored bytes
/// belong to the next level; both in group order.  `None` when the level is
/// not a multiple of 32 bytes or a group names no stored chunk.
pub open spec fn level_pass(
    index: Seq<(Vec<u8>, Vec<u8>)>,
    chunks: Seq<(Vec<u8>, Vec<u8>)>,
    level: Seq<u8>,
) -> Option<(Seq<u8>, Seq<u8>)>
    decreases level.len(),
{
    if level.len() == 0 {
        Some((Seq::empty(), Seq::empty()))
    } else if level.len() < 32 {
        None
    } else {
        let d = level.take(32);
        match level_pass(index, chunks, level.skip(32)) {
            None => None,
            Some(rest) => if has_key(index, d) {
                Some((rest.0, lookup(index, d)->Some_0 + rest.1))
            } else if has_key(chunks, d) {
                Some((d + rest.0, rest.1))
            } else {
                None
            },
        }
    }
}

/// The leaf digests a digest tree expands to: index levels are walked one at
/// a time, and the data-chunk digests come out in stream order.  `fuel`
/// bounds the number of levels.
pub open spec fn expand_levels(
    index: Seq<(Vec<u8>, Vec<u8>)>,
    chunks: Seq<(Vec<u8>, Vec<u8>)>,
    level: Seq<u8>,
    fuel: nat,
) -> Option<Seq<u8>>
    decreases fuel,
{
    if level.len() == 0 {
        Some(Seq::empty())
    } else if fuel == 0 {
        None
    } else {
        match level_pass(index, chunks, level) {
            None => None,
            Some(pair) => match expand_levels(index, chunks, pair.1, (fuel - 1) as nat) {
                None => None,
                Some(more) => Some(pair.0 + more),
            },
        }
    }
}

/// Loop-invariant shape for walking one level front to back: if the
/// unprocessed tail passes, the whole level passes, and its results are the
/// processed prefix's emissions followed by the tail's.
pub open spec fn pass_extends(
    index: Seq<(Vec<u8>, Vec<u8>)>,
    chunks: Seq<(Vec<u8>, Vec<u8>)>,
    whole: Seq<u8>,
    part: Seq<u8>,
    emitted: Seq<u8>,
    next: Seq<u8>,
) -> bool {
    level_pass(index, chunks, part) is Some ==> (level_pass(index, chunks, whole) is Some
        && level_pass(index, chunks, whole)->Some_0.0 == emitted + level_pass(
        index,
        chunks,
        part,
    )->Some_0.0 && level_pass(index, chunks, whole)->Some_0.1 == next + level_pass(
        index,
        chunks,
        part,
    )->Some_0.1)
}

/// Whether a root blob expands fully: some bounded number of level passes
/// resolves every digest down to stored data chunks.  This holds of every
/// tree an honest write produced.
pub open spec fn tree_readable(
    index: Seq<(Vec<u8>, Vec<u8>)>,
    chunks: Seq<(Vec<u8>, Vec<u8>)>,
    root_blob: Seq<u8>,
) -> bool {
    exists|fuel: nat|
        fuel + 2 < usize::MAX && expand_levels(index, chunks, root_blob, fuel) is Some
}

/// A level that passes is a whole number of 32-byte groups.
pub proof fn lemma_level_pass_mod(
    index: Seq<(Vec<u8>, Vec<u8>)>,
    chunks: Seq<(Vec<u8>, Vec<u8>)>,
    level: Seq<u8>,
)
    requires
        level_pass(index, chunks, level) is Some,
    ensures
        level.len() % 32 == 0,
    decreases level.len(),
{
    if level.len() > 0 {
        lemma_level_pass_mod(index, chunks, level.skip(32));
    }
}

/// Every key of the old store is still bound to the same value.
pub open spec fn store_preserved(
    old_s: Seq<(Vec<u8>, Vec<u8>)>,
    new_s: Seq<(Vec<u8>, Vec<u8>)>,
) -> bool {
    forall|k: Seq<u8>| has_key(old_s, k) ==> #[trigger] lookup(new_s, k) == lookup(old_s, k)
}

/// Law (deduplication): a repository never holds two copies of a chunk.  In
/// each store every digest appears as the key of at most one entry, so a
/// rewrite of already-stored content adds nothing.
pub proof fn lemma_dedup_unique_chunks(repo: &Repo)
    requires
        repo.wf(),
    ensures
        forall|i: int, j: int|
            0 <= i < j < repo.chunks@.len() ==> (#[trigger] repo.chunks@[i]).0@ != (
            #[trigger] repo.chunks@[j]).0@,
        forall|i: int, j: int|
            0 <= i < j < repo.index@.len() ==> (#[trigger] repo.index@[i]).0@ != (
            #[trigger] repo.index@[j]).0@,
{
    crate::store::lemma_wf_distinct_keys(&repo.chunks);
    crate::store::lemma_wf_distinct_keys(&repo.index);
}

/// Law (content addressing of index chunks): every index chunk is stored
/// under the SHA-256 of exactly the bytes in its file.  For data chunks the
/// same holds of the plaintext inside the envelope, which `read_chunk_into`
/// states over the envelope's decomposition.
pub proof fn lemma_index_content_addressed(repo: &Repo)
    requires
        repo.wf(),
    ensures
        forall|i: int|
            0 <= i < repo.index@.len() ==> sha256_of((#[trigger] repo.index@[i]).1@)
                == repo.index@[i].0@,
{
}

/// Whether a digest occurs in a list of digests.
pub open spec fn digest_listed(list: Seq<Vec<u8>>, d: Seq<u8>) -> bool {
    exists|i: int| 0 <= i < list.len() && list[i]@ == d
}

fn digest_list_contains(list: &Vec<Vec<u8>>, k: &[u8]) -> (r: bool)
    ensures
        r == digest_listed(list@, k@),
{
    let mut i: usize = 0;
    while i < list.len()
        invariant
            i <= list@.len(),
            forall|j: int| 0 <= j < i ==> list@[j]@ != k@,
        decreases list@.len() - i,
    {
        if crate::store::bytes_eq(list[i].as_slice(), k) {
            return true;
        }
        i = i + 1;
    }
    false
}

} // verus!
