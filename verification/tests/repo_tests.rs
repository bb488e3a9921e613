use rdedup::error::Error;
use rdedup::hex::{from_hex, to_hex};
use rdedup::repo::{ChunkType, Repo, SecretKey};

/// Deterministic pseudo-random bytes (xorshift), so chunk boundaries are
/// stable across runs.
fn pseudo_random(len: usize, seed: u64) -> Vec<u8> {
    let mut state = seed | 1;
    let mut out = Vec::with_capacity(len);
    for _ in 0..len {
        state ^= state << 13;
        state ^= state >> 7;
        state ^= state << 17;
        out.push((state & 0xff) as u8);
    }
    out
}

fn sha256(data: &[u8]) -> Vec<u8> {
    let mut h = crypto::sha2::Sha256::new();
    crypto::digest::Digest::input(&mut h, data);
    let mut digest = vec![0u8; 32];
    crypto::digest::Digest::result(&mut h, &mut digest);
    digest
}

#[test]
fn test_round_trip_small() {
    let (mut repo, sk) = Repo::init(b"r".to_vec());
    let data = b"hello, backup world".to_vec();
    repo.write(b"greeting", &data).unwrap();
    let mut out = Vec::new();
    repo.read(b"greeting", &mut out, &sk).unwrap();
    assert_eq!(out, data);
}

#[test]
fn test_round_trip_zeros_64k() {
    let (mut repo, sk) = Repo::init(b"/tmp/r".to_vec());
    let data = vec![0u8; 64 * 1024];
    repo.write(b"a", &data).unwrap();
    assert!(repo.list_stored_chunks().len() >= 1);
    let mut out = Vec::new();
    repo.read(b"a", &mut out, &sk).unwrap();
    assert_eq!(out, data);
}

#[test]
fn test_empty_stream() {
    let (mut repo, sk) = Repo::init(b"r".to_vec());
    repo.write(b"empty", &[]).unwrap();
    let mut out = Vec::new();
    repo.read(b"empty", &mut out, &sk).unwrap();
    assert_eq!(out, Vec::<u8>::new());
    // Exactly one data chunk exists: the chunk of the empty stream, keyed by
    // the well-known SHA-256 of no bytes at all.
    let empty_digest =
        from_hex(b"e3b0c44298fc1c149afbf4c8996fb92427ae41e4649b934ca495991b7852b855").unwrap();
    assert_eq!(repo.chunks.len(), 1);
    assert!(repo.chunks.contains_key(&empty_digest));
    assert_eq!(repo.index.len(), 0);
    assert_eq!(repo.name_to_digest(b"empty").unwrap(), empty_digest);
}

#[test]
fn test_determinism() {
    let data = pseudo_random(300 * 1024, 42);
    let (mut repo1, _sk1) = Repo::init(b"r1".to_vec());
    let (mut repo2, _sk2) = Repo::init(b"r2".to_vec());
    repo1.write(b"n", &data).unwrap();
    repo2.write(b"n", &data).unwrap();
    assert_eq!(repo1.name_to_digest(b"n").unwrap(), repo2.name_to_digest(b"n").unwrap());
    let mut d1 = repo1.list_stored_chunks();
    let mut d2 = repo2.list_stored_chunks();
    d1.sort();
    d2.sort();
    assert_eq!(d1, d2);
}

#[test]
fn test_dedup_shared_prefix() {
    let s1 = pseudo_random(256 * 1024, 7);
    let mut s2 = s1.clone();
    let n = s2.len();
    for b in s2[n - 100..].iter_mut() {
        *b = b.wrapping_add(1);
    }
    let (mut repo, sk) = Repo::init(b"r".to_vec());
    repo.write(b"one", &s1).unwrap();
    let count1 = repo.list_stored_chunks().len();
    repo.write(b"two", &s2).unwrap();
    let count2 = repo.list_stored_chunks().len();
    // Only the trailing chunk and the index layers differ.
    assert!(count2 - count1 <= 4, "second write added {} chunks", count2 - count1);
    assert!(count2 < 2 * count1);
    let mut out1 = Vec::new();
    repo.read(b"one", &mut out1, &sk).unwrap();
    assert_eq!(out1, s1);
    let mut out2 = Vec::new();
    repo.read(b"two", &mut out2, &sk).unwrap();
    assert_eq!(out2, s2);
}

#[test]
fn test_backup_name_write_once() {
    let (mut repo, sk) = Repo::init(b"r".to_vec());
    let s1 = b"first contents".to_vec();
    let s2 = b"second contents".to_vec();
    repo.write(b"n", &s1).unwrap();
    assert_eq!(repo.write(b"n", &s2), Err(Error::Exists));
    let mut out = Vec::new();
    repo.read(b"n", &mut out, &sk).unwrap();
    assert_eq!(out, s1);
}

#[test]
fn test_tamper_detection() {
    let data = pseudo_random(128 * 1024, 99);
    let (mut repo, sk) = Repo::init(b"r".to_vec());
    repo.write(b"x", &data).unwrap();
    // Rebuild the repository with a single flipped byte in one data chunk.
    let pk_hex = to_hex(&repo.pub_key);
    let mut bad = Repo::open(b"r".to_vec(), &pk_hex).unwrap();
    let mut flipped = false;
    for digest in repo.list_stored_chunks() {
        if repo.index.contains_key(&digest) {
            let file = repo.index.get(&digest).unwrap().clone();
            bad.index.insert(digest, file);
        } else {
            let mut file = repo.chunks.get(&digest).unwrap().clone();
            if !flipped {
                let last = file.len() - 1;
                file[last] ^= 0x01;
                flipped = true;
            }
            bad.chunks.insert(digest, file);
        }
    }
    assert!(flipped);
    let root = repo.name_to_digest(b"x").unwrap();
    bad.store_digest_as_backup_name(&root, b"x").unwrap();
    let mut out = Vec::new();
    let r = bad.read(b"x", &mut out, &sk);
    assert!(
        matches!(r, Err(Error::DecryptionFailed)) || matches!(r, Err(Error::Corrupted)),
        "tampered read returned {:?}",
        r
    );
}

#[test]
fn test_wrong_secret_key() {
    let (mut repo, _sk_right) = Repo::init(b"r".to_vec());
    let (_other_repo, sk_wrong) = Repo::init(b"other".to_vec());
    repo.write(b"n", b"some secret bytes").unwrap();
    let mut out = Vec::new();
    assert_eq!(repo.read(b"n", &mut out, &sk_wrong), Err(Error::DecryptionFailed));
}

#[test]
fn test_large_stream_root_is_index() {
    let data = pseudo_random(256 * 1024, 5);
    let (mut repo, sk) = Repo::init(b"r".to_vec());
    repo.write(b"big", &data).unwrap();
    let root = repo.name_to_digest(b"big").unwrap();
    // Several chunks were cut, so the root resolves to an index chunk.
    assert_eq!(repo.chunk_type(&root).unwrap(), ChunkType::Index);
    let mut out = Vec::new();
    repo.read(b"big", &mut out, &sk).unwrap();
    assert_eq!(out, data);
}

#[test]
fn test_content_addressing_single_chunk() {
    let data = pseudo_random(64, 3);
    let (mut repo, sk) = Repo::init(b"r".to_vec());
    repo.write(b"tiny", &data).unwrap();
    let root = repo.name_to_digest(b"tiny").unwrap();
    // A stream that fits in one chunk is addressed by its own SHA-256.
    assert_eq!(repo.chunk_type(&root).unwrap(), ChunkType::Data);
    let mut out = Vec::new();
    repo.read(b"tiny", &mut out, &sk).unwrap();
    assert_eq!(out, data);
    assert_eq!(sha256(&out), root);
}

#[test]
fn test_hex_codec() {
    assert_eq!(to_hex(&[0x00, 0x0f, 0xa5, 0xff]), b"000fa5ff".to_vec());
    assert_eq!(from_hex(b"000fa5ff").unwrap(), vec![0x00, 0x0f, 0xa5, 0xff]);
    assert_eq!(from_hex(b"000FA5FF").unwrap(), vec![0x00, 0x0f, 0xa5, 0xff]);
    assert_eq!(from_hex(b"abc"), None);
    assert_eq!(from_hex(b"zz"), None);
    assert_eq!(from_hex(b"").unwrap(), Vec::<u8>::new());
}

#[test]
fn test_secret_key_hex_round_trip() {
    let (_repo, sk) = Repo::init(b"r".to_vec());
    let text = sk.to_string();
    assert_eq!(text.len(), 64);
    let back = SecretKey::from_str(&text).unwrap();
    assert_eq!(back.to_string(), text);
    assert!(SecretKey::from_str("zz").is_none());
    assert!(SecretKey::from_str("abcd").is_none());
}

#[test]
fn test_pub_key_file_path() {
    assert_eq!(rdedup::repo::pub_key_file_path(b"/tmp/r"), b"/tmp/r/pub_key".to_vec());
}

#[test]
fn test_chunk_path_by_digest() {
    let (repo, _sk) = Repo::init(b"r".to_vec());
    let mut digest = vec![0u8; 32];
    digest[0] = 0xab;
    digest[1] = 0xcd;
    let path = repo.chunk_path_by_digest(&digest, ChunkType::Data);
    let expected =
        b"r/chunks/ab/cd/abcd000000000000000000000000000000000000000000000000000000000000"
            .to_vec();
    assert_eq!(path, expected);
    let index_path = repo.chunk_path_by_digest(&digest, ChunkType::Index);
    assert!(index_path.starts_with(b"r/index/ab/cd/"));
}

#[test]
fn test_open_rejects_bad_pub_key() {
    assert_eq!(
        Repo::open(b"r".to_vec(), b"nothex!!").err(),
        Some(Error::InvalidPubKey)
    );
    assert_eq!(Repo::open(b"r".to_vec(), b"abcd").err(), Some(Error::InvalidPubKey));
    let (repo, _sk) = Repo::init(b"r".to_vec());
    let good = to_hex(&repo.pub_key);
    assert!(Repo::open(b"r".to_vec(), &good).is_ok());
}

#[test]
fn test_read_unknown_name() {
    let (repo, sk) = Repo::init(b"r".to_vec());
    let mut out = Vec::new();
    assert_eq!(repo.read(b"missing", &mut out, &sk), Err(Error::NotFound));
    assert_eq!(repo.name_to_digest(b"missing").err(), Some(Error::NotFound));
}

#[test]
fn test_list_names() {
    let (mut repo, _sk) = Repo::init(b"r".to_vec());
    repo.write(b"alpha", b"one").unwrap();
    repo.write(b"beta", b"two").unwrap();
    let names = repo.list_names();
    assert_eq!(names.len(), 2);
    assert!(names.contains(&b"alpha".to_vec()));
    assert!(names.contains(&b"beta".to_vec()));
}

#[test]
fn test_chunk_kind_flags() {
    assert!(ChunkType::Data.should_compress());
    assert!(ChunkType::Data.should_encrypt());
    assert!(!ChunkType::Index.should_compress());
    assert!(!ChunkType::Index.should_encrypt());
}

#[test]
fn test_round_trip_multi_chunk_index_level() {
    // Large enough that the leaf-digest blob itself is cut into several
    // index chunks, so the reader must regroup 32-byte digests across
    // content-defined (unaligned) chunk boundaries.
    let data = pseudo_random(6 * 1024 * 1024, 11);
    let (mut repo, sk) = Repo::init(b"r".to_vec());
    repo.write(b"big", &data).unwrap();
    assert!(
        repo.index.len() >= 4,
        "expected a multi-chunk index level, index store holds {} entries",
        repo.index.len()
    );
    let mut out = Vec::new();
    repo.read(b"big", &mut out, &sk).unwrap();
    assert_eq!(out.len(), data.len());
    assert!(out == data);
}
