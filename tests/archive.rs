use moonball::archive::{ArchiveConfig, ArchiveMetadata, MoonBallArchive, DEFAULT_CHUNK_SIZE};
use moonball::codec::Algo;
use moonball::error::ArchiveError;
use moonball::totp::totp_code;

const SECRET: &str = "JBSWY3DPEHPK3PXP";
const NOW: u64 = 1_700_000_000;

fn config(chunk_size: usize, encryption: bool, secret: Option<&str>) -> ArchiveConfig {
    ArchiveConfig {
        chunk_size,
        encryption_enabled: encryption,
        secret_key: secret.map(|s| s.to_string()),
        passphrase: b"moonball".to_vec(),
    }
}

fn header_of(meta: &ArchiveMetadata) -> Vec<u8> {
    format!("{:?}", meta).into_bytes()
}

fn build(cfg: ArchiveConfig, files: &[(&str, &[u8])]) -> (Vec<u8>, ArchiveMetadata) {
    let mut a = MoonBallArchive::new(cfg).unwrap();
    for (name, data) in files {
        a.add_file(name, data).unwrap();
    }
    let meta = a.metadata().clone();
    (a.save_archive(&header_of(&meta)), meta)
}

fn reader(cfg: ArchiveConfig) -> MoonBallArchive {
    MoonBallArchive::new(cfg).unwrap()
}

fn reassemble(chunks: &[moonball::archive::ExtractedChunk], name: &str) -> Vec<u8> {
    let mut out = Vec::new();
    for c in chunks {
        if c.file_name == name {
            out.extend_from_slice(&c.data);
        }
    }
    out
}

fn pseudo_random(n: usize, seed: u64) -> Vec<u8> {
    let mut x = seed;
    (0..n)
        .map(|_| {
            x ^= x << 13;
            x ^= x >> 7;
            x ^= x << 17;
            (x >> 24) as u8
        })
        .collect()
}

#[test]
fn single_small_file() {
    let cfg = config(DEFAULT_CHUNK_SIZE, false, None);
    let (ar, meta) = build(cfg.clone(), &[("hello.txt", b"hello world\n")]);
    assert_eq!(meta.chunks.len(), 1);
    assert_eq!(meta.chunks[0].compression_algo, Algo::Zstd);
    assert_eq!(meta.chunks[0].compression_algo.tag(), "zstd");
    assert_eq!(meta.chunks[0].original_size, 12);
    assert_eq!(meta.chunks[0].chunk_id, 0);
    let r = reader(cfg);
    assert_eq!(r.read_header(&ar).unwrap(), header_of(&meta));
    let out = r.extract(&ar, &meta, None, NOW).unwrap();
    assert_eq!(reassemble(&out, "hello.txt"), b"hello world\n".to_vec());
}

#[test]
fn file_spans_chunks() {
    let unit = 1024;
    let data = pseudo_random(11 * unit, 0x9E3779B97F4A7C15);
    let cfg = config(5 * unit, false, None);
    let (ar, meta) = build(cfg.clone(), &[("big.bin", &data)]);
    let sizes: Vec<usize> = meta.chunks.iter().map(|c| c.original_size).collect();
    let ids: Vec<usize> = meta.chunks.iter().map(|c| c.chunk_id).collect();
    assert_eq!(sizes, vec![5 * unit, 5 * unit, unit]);
    assert_eq!(ids, vec![0, 1, 2]);
    let out = reader(cfg).extract(&ar, &meta, None, NOW).unwrap();
    assert_eq!(reassemble(&out, "big.bin"), data);
}

#[test]
fn large_chunk_uses_brotli() {
    let data: Vec<u8> = b"moonball archive ".iter().cycle().take(1_048_577).cloned().collect();
    let cfg = config(DEFAULT_CHUNK_SIZE, false, None);
    let (ar, meta) = build(cfg.clone(), &[("big.txt", &data)]);
    assert_eq!(meta.chunks.len(), 1);
    assert_eq!(meta.chunks[0].compression_algo, Algo::Brotli);
    assert!(meta.chunks[0].compressed_size < data.len());
    let out = reader(cfg).extract(&ar, &meta, None, NOW).unwrap();
    assert_eq!(reassemble(&out, "big.txt"), data);
}

#[test]
fn encryption_on_differs_and_round_trips() {
    let cfg = config(DEFAULT_CHUNK_SIZE, true, None);
    let (ar1, meta1) = build(cfg.clone(), &[("hello.txt", b"hello world\n")]);
    let (ar2, meta2) = build(cfg.clone(), &[("hello.txt", b"hello world\n")]);
    assert_ne!(ar1, ar2);
    let r = reader(cfg);
    assert_eq!(r.read_header(&ar1).unwrap(), header_of(&meta1));
    let out1 = r.extract(&ar1, &meta1, None, NOW).unwrap();
    let out2 = r.extract(&ar2, &meta2, None, NOW).unwrap();
    assert_eq!(reassemble(&out1, "hello.txt"), b"hello world\n".to_vec());
    assert_eq!(reassemble(&out2, "hello.txt"), b"hello world\n".to_vec());
}

#[test]
fn two_factor_correct_code() {
    let cfg = config(DEFAULT_CHUNK_SIZE, false, Some(SECRET));
    let (ar, meta) = build(cfg.clone(), &[("hello.txt", b"hello world\n")]);
    assert!(meta.requires_2fa);
    let code = totp_code(SECRET, NOW).unwrap();
    let out = reader(cfg).extract(&ar, &meta, Some(&code), NOW).unwrap();
    assert_eq!(reassemble(&out, "hello.txt"), b"hello world\n".to_vec());
}

#[test]
fn two_factor_wrong_code() {
    let cfg = config(DEFAULT_CHUNK_SIZE, false, Some(SECRET));
    let (ar, meta) = build(cfg.clone(), &[("hello.txt", b"hello world\n")]);
    let err = reader(cfg).extract(&ar, &meta, Some("000000"), NOW).unwrap_err();
    assert_eq!(err, ArchiveError::OtpInvalid);
    assert!(err.is_auth_failure());
    assert_eq!(err.exit_code(), 3);
}

#[test]
fn two_factor_missing_code() {
    let cfg = config(DEFAULT_CHUNK_SIZE, false, Some(SECRET));
    let (ar, meta) = build(cfg.clone(), &[("hello.txt", b"hello world\n")]);
    let err = reader(cfg).extract(&ar, &meta, None, NOW).unwrap_err();
    assert_eq!(err, ArchiveError::OtpMissing);
}

#[test]
fn two_factor_stale_code() {
    let cfg = config(DEFAULT_CHUNK_SIZE, false, Some(SECRET));
    let (ar, meta) = build(cfg.clone(), &[("hello.txt", b"hello world\n")]);
    let stale = totp_code(SECRET, NOW - 60).unwrap();
    let err = reader(cfg.clone()).extract(&ar, &meta, Some(&stale), NOW).unwrap_err();
    assert_eq!(err, ArchiveError::OtpInvalid);
    let previous = totp_code(SECRET, NOW - 30).unwrap();
    assert!(reader(cfg).extract(&ar, &meta, Some(&previous), NOW).is_ok());
}

#[test]
fn corrupt_footer() {
    let cfg = config(DEFAULT_CHUNK_SIZE, false, None);
    let (mut ar, meta) = build(cfg.clone(), &[("hello.txt", b"hello world\n")]);
    let n = ar.len();
    for b in &mut ar[n - 4..] {
        *b = 0xFF;
    }
    let err = reader(cfg).extract(&ar, &meta, None, NOW).unwrap_err();
    assert_eq!(err, ArchiveError::CorruptArchive);
    assert_eq!(err.exit_code(), 4);
}

#[test]
fn shortened_body_is_corrupt() {
    let cfg = config(DEFAULT_CHUNK_SIZE, false, None);
    let (ar, meta) = build(cfg.clone(), &[("hello.txt", b"hello world\n")]);
    let header_len = 8 + header_of(&meta).len() + 1;
    let mut short = ar.clone();
    short.remove(header_len);
    let err = reader(cfg).extract(&short, &meta, None, NOW).unwrap_err();
    assert_eq!(err, ArchiveError::CorruptArchive);
}

#[test]
fn header_and_body_align() {
    let cfg = config(4, false, None);
    let (ar, meta) = build(cfg, &[("a.txt", b"abcdefghij"), ("b.txt", b"xyz")]);
    let header = header_of(&meta);
    let body: usize = meta.chunks.iter().map(|c| c.compressed_size).sum();
    assert_eq!(ar.len(), 8 + header.len() + 1 + body + 32);
    assert_eq!(&ar[..8], &(header.len() as u64).to_be_bytes());
    assert_eq!(ar[8 + header.len()], b'\n');
    let footer = &ar[ar.len() - 32..];
    assert_eq!(footer, format!("{:x}", md5::compute(&header)).as_bytes());
    let names: Vec<(&str, usize)> = meta.chunks.iter().map(|c| (c.file_name.as_str(), c.chunk_id)).collect();
    assert_eq!(names, vec![("a.txt", 0), ("a.txt", 1), ("a.txt", 2), ("b.txt", 0)]);
}

#[test]
fn multiple_files_round_trip() {
    let cfg = config(7, true, None);
    let a = pseudo_random(100, 7);
    let b = pseudo_random(7, 11);
    let c = pseudo_random(1, 13);
    let (ar, meta) = build(cfg.clone(), &[("a", &a), ("b", &b), ("c", &c)]);
    let out = reader(cfg).extract(&ar, &meta, None, NOW).unwrap();
    assert_eq!(out.len(), meta.chunks.len());
    assert_eq!(reassemble(&out, "a"), a);
    assert_eq!(reassemble(&out, "b"), b);
    assert_eq!(reassemble(&out, "c"), c);
}

#[test]
fn chunk_size_edges_round_trip() {
    let size = 16;
    for len in [1usize, size - 1, size, size + 1, 10 * size] {
        let data = pseudo_random(len, len as u64 + 1);
        let cfg = config(size, false, None);
        let (ar, meta) = build(cfg.clone(), &[("f", &data)]);
        assert_eq!(meta.chunks.len(), (len + size - 1) / size);
        let out = reader(cfg).extract(&ar, &meta, None, NOW).unwrap();
        assert_eq!(reassemble(&out, "f"), data);
    }
}

#[test]
fn empty_file_is_refused() {
    let mut a = MoonBallArchive::new(config(DEFAULT_CHUNK_SIZE, false, None)).unwrap();
    assert_eq!(a.add_file("empty", b""), Err(ArchiveError::Usage));
    assert_eq!(a.metadata().chunks.len(), 0);
    assert_eq!(ArchiveError::Usage.exit_code(), 2);
}

#[test]
fn bad_configuration_is_refused() {
    assert_eq!(MoonBallArchive::new(config(0, false, None)).err(), Some(ArchiveError::Config));
    assert_eq!(MoonBallArchive::new(config(8, false, Some(""))).err(), Some(ArchiveError::Config));
    assert!(MoonBallArchive::new(config(8, false, Some(SECRET))).is_ok());
}

#[test]
fn wrong_passphrase_fails_to_open_header() {
    let cfg = config(DEFAULT_CHUNK_SIZE, true, None);
    let (ar, _meta) = build(cfg.clone(), &[("hello.txt", b"hello world\n")]);
    let mut other = cfg;
    other.passphrase = b"another".to_vec();
    match reader(other).read_header(&ar) {
        Ok(h) => assert_ne!(h, format!("{:?}", _meta).into_bytes()),
        Err(e) => assert_eq!(e, ArchiveError::DecryptionFailed),
    }
}

#[test]
fn truncated_archive_is_corrupt() {
    let r = reader(config(DEFAULT_CHUNK_SIZE, false, None));
    assert_eq!(r.read_header(b"short"), Err(ArchiveError::CorruptArchive));
    let mut bad = 3u64.to_be_bytes().to_vec();
    bad.extend_from_slice(b"abcX");
    assert_eq!(r.read_header(&bad), Err(ArchiveError::CorruptArchive));
}

#[test]
fn unencrypted_builds_are_identical() {
    let cfg = config(5, false, None);
    let data = pseudo_random(23, 3);
    let (ar1, meta1) = build(cfg.clone(), &[("x", &data), ("y", b"hello world\n")]);
    let (ar2, meta2) = build(cfg, &[("x", &data), ("y", b"hello world\n")]);
    assert_eq!(meta1, meta2);
    assert_eq!(ar1, ar2);
}

#[test]
fn changing_any_footer_byte_is_detected() {
    let cfg = config(DEFAULT_CHUNK_SIZE, false, None);
    let (ar, meta) = build(cfg.clone(), &[("hello.txt", b"hello world\n")]);
    let r = reader(cfg);
    for i in ar.len() - 32..ar.len() {
        let mut bad = ar.clone();
        bad[i] ^= 0x01;
        assert_eq!(r.extract(&bad, &meta, None, NOW).unwrap_err(), ArchiveError::CorruptArchive);
    }
}

#[test]
fn encrypted_header_and_footer_are_sealed() {
    let cfg = config(DEFAULT_CHUNK_SIZE, true, None);
    let (ar, meta) = build(cfg, &[("hello.txt", b"hello world\n")]);
    let header = header_of(&meta);
    let stored_len = u64::from_be_bytes(ar[..8].try_into().unwrap()) as usize;
    assert_eq!(stored_len, 32 + (header.len() / 16 + 1) * 16);
    assert_eq!(ar[8 + stored_len], b'\n');
    assert_eq!(meta.chunks[0].compressed_size % 16, 0);
    let body: usize = meta.chunks.iter().map(|c| c.compressed_size).sum();
    assert_eq!(ar.len() - (9 + stored_len + body), 32 + 48);
}

#[test]
fn empty_header_seals_and_opens() {
    let cfg = config(DEFAULT_CHUNK_SIZE, true, None);
    let mut a = MoonBallArchive::new(cfg.clone()).unwrap();
    a.add_file("hello.txt", b"hello world\n").unwrap();
    let ar = a.save_archive(b"");
    assert_eq!(reader(cfg).read_header(&ar).unwrap(), Vec::<u8>::new());
}

#[test]
fn shortened_body_is_corrupt_under_encryption() {
    let cfg = config(4, true, None);
    let (ar, meta) = build(cfg.clone(), &[("a.txt", b"abcdefghij")]);
    let header_len = u64::from_be_bytes(ar[..8].try_into().unwrap()) as usize;
    let r = reader(cfg);
    for k in [9 + header_len, 9 + header_len + 20, ar.len() - 81] {
        let mut short = ar.clone();
        short.remove(k);
        assert_eq!(r.extract(&short, &meta, None, NOW).unwrap_err(), ArchiveError::CorruptArchive);
    }
}

#[test]
fn changed_sealed_footer_is_corrupt() {
    let cfg = config(DEFAULT_CHUNK_SIZE, true, None);
    let (ar, meta) = build(cfg.clone(), &[("hello.txt", b"hello world\n")]);
    let r = reader(cfg);
    for i in ar.len() - 48..ar.len() {
        let mut bad = ar.clone();
        bad[i] ^= 0x80;
        assert_eq!(r.extract(&bad, &meta, None, NOW).unwrap_err(), ArchiveError::CorruptArchive);
    }
}
