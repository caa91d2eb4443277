use crypto::buffer::{ReadBuffer, RefReadBuffer, RefWriteBuffer, WriteBuffer};
use crypto::mac::Mac;
use moonball::cipher::{open, seal, seal_with};
use moonball::codec::{compress, decompress, select_algo, Algo};
use moonball::error::ArchiveError;
use moonball::model::{model_exists, model_path};
use moonball::totp::{check_otp, totp_code};

#[test]
fn codecs_round_trip() {
    let data = b"the quick brown fox jumps over the lazy dog, again and again and again".to_vec();
    for algo in [Algo::Brotli, Algo::Lzma, Algo::Zstd] {
        let packed = compress(algo, &data).unwrap();
        assert_ne!(packed, data);
        assert_eq!(decompress(algo, &packed).unwrap(), data);
    }
}

#[test]
fn zstd_output_is_a_zstd_frame() {
    let packed = compress(Algo::Zstd, b"abc").unwrap();
    assert_eq!(&packed[..4], &[0x28, 0xB5, 0x2F, 0xFD]);
}

#[test]
fn lzma_output_is_an_xz_stream() {
    let packed = compress(Algo::Lzma, b"abc").unwrap();
    assert_eq!(&packed[..6], &[0xFD, b'7', b'z', b'X', b'Z', 0x00]);
}

#[test]
fn garbage_does_not_decompress() {
    assert_eq!(decompress(Algo::Zstd, b"not a frame"), Err(ArchiveError::CorruptArchive));
    assert_eq!(decompress(Algo::Lzma, b"not a stream"), Err(ArchiveError::CorruptArchive));
}

#[test]
fn tags_round_trip() {
    for algo in [Algo::Brotli, Algo::Lzma, Algo::Zstd] {
        assert_eq!(Algo::from_tag(&algo.tag()), Ok(algo));
    }
    assert_eq!(Algo::Lzma.tag(), "lzma");
    assert_eq!(Algo::from_tag("gzip"), Err(ArchiveError::CorruptArchive));
}

#[test]
fn selector_threshold() {
    assert_eq!(select_algo(&vec![0u8; 1_048_576]), Algo::Zstd);
    assert_eq!(select_algo(&vec![0u8; 1_048_577]), Algo::Brotli);
    assert_eq!(select_algo(b"x"), Algo::Zstd);
    let chunk = vec![1u8; 2_000_000];
    assert_eq!(select_algo(&chunk), select_algo(&chunk));
}

#[test]
fn sealing_with_fixed_salt_is_deterministic() {
    let salt = [1u8; 16];
    let iv = [2u8; 16];
    let a = seal_with(b"pass", &salt, &iv, b"payload");
    let b = seal_with(b"pass", &salt, &iv, b"payload");
    assert_eq!(a, b);
    assert_eq!(&a[..16], &salt);
    assert_eq!(&a[16..32], &iv);
    assert_eq!(a.len(), 48);
    assert_ne!(&a[32..], b"payload".as_slice());
    assert_eq!(open(b"pass", &a).unwrap(), b"payload".to_vec());
}

#[test]
fn sealing_is_randomised() {
    let a = seal(b"pass", b"same");
    let b = seal(b"pass", b"same");
    assert_ne!(a, b);
    assert_eq!(open(b"pass", &a).unwrap(), b"same".to_vec());
    assert_eq!(open(b"pass", &b).unwrap(), b"same".to_vec());
}

#[test]
fn short_blob_fails_to_open() {
    assert_eq!(open(b"pass", &[0u8; 32]), Err(ArchiveError::DecryptionFailed));
    assert_eq!(open(b"pass", &[0u8; 40]), Err(ArchiveError::DecryptionFailed));
}

#[test]
fn totp_matches_reference_vector() {
    let secret = base32::encode(base32::Alphabet::RFC4648 { padding: false }, b"12345678901234567890123456789012");
    assert_eq!(totp_code(&secret, 59).unwrap(), "119246");
    assert_eq!(totp_code(&secret, 1111111109).unwrap(), "084774");
}

#[test]
fn otp_gate() {
    let secret = "JBSWY3DPEHPK3PXP";
    let now = 1_700_000_000u64;
    assert_eq!(check_otp(secret, None, now), Err(ArchiveError::OtpMissing));
    let code = totp_code(secret, now).unwrap();
    assert_eq!(code.len(), 6);
    assert_eq!(check_otp(secret, Some(&code), now), Ok(()));
    let next = totp_code(secret, now + 30).unwrap();
    assert_eq!(check_otp(secret, Some(&next), now), Ok(()));
    let old = totp_code(secret, now - 60).unwrap();
    assert_eq!(check_otp(secret, Some(&old), now), Err(ArchiveError::OtpInvalid));
    assert_eq!(check_otp("not base32!", Some("123456"), now), Err(ArchiveError::CorruptArchive));
}

#[test]
fn model_helpers() {
    assert_eq!(model_path("distilbert-base-uncased"), "./models/distilbert-base-uncased");
    let entries = vec!["a".to_string(), "distilbert".to_string()];
    assert!(model_exists("distilbert", &entries));
    assert!(!model_exists("bert", &entries));
    assert!(!model_exists("a", &Vec::new()));
}

#[test]
fn error_kinds() {
    assert!(ArchiveError::OtpMissing.is_auth_failure());
    assert!(ArchiveError::DecryptionFailed.is_auth_failure());
    assert!(!ArchiveError::CorruptArchive.is_auth_failure());
    assert_eq!(ArchiveError::CorruptArchive.exit_code(), 4);
    assert_eq!(ArchiveError::DecryptionFailed.exit_code(), 3);
    assert_eq!(ArchiveError::Config.exit_code(), 2);
}

#[test]
fn key_depends_on_salt_and_passphrase() {
    let iv = [9u8; 16];
    let a = seal_with(b"pass", &[1u8; 16], &iv, b"payload");
    let b = seal_with(b"pass", &[2u8; 16], &iv, b"payload");
    let c = seal_with(b"other", &[1u8; 16], &iv, b"payload");
    assert_ne!(&a[32..], &b[32..]);
    assert_ne!(&a[32..], &c[32..]);
    assert_eq!(open(b"pass", &b).unwrap(), b"payload".to_vec());
}

#[test]
fn sealing_empty_data_round_trips() {
    let sealed = seal(b"pass", b"");
    assert_eq!(sealed.len(), 48);
    assert_eq!(open(b"pass", &sealed).unwrap(), Vec::<u8>::new());
    let fixed = seal_with(b"pass", &[3u8; 16], &[4u8; 16], b"");
    assert_eq!(fixed.len(), 48);
    assert_eq!(open(b"pass", &fixed).unwrap(), Vec::<u8>::new());
}

#[test]
fn sealed_length_is_padded() {
    for n in [0usize, 1, 15, 16, 17, 32, 100] {
        let data = vec![7u8; n];
        let sealed = seal(b"k", &data);
        assert_eq!(sealed.len(), 32 + 16 * (n / 16 + 1));
        assert_eq!(open(b"k", &sealed).unwrap(), data);
    }
}

fn raw_blob(pass: &[u8], plain_blocks: &[u8]) -> Vec<u8> {
    let salt = [5u8; 16];
    let iv = [6u8; 16];
    let mut mac = crypto::hmac::Hmac::new(crypto::sha2::Sha256::new(), pass);
    mac.input(&salt);
    let key = mac.result().code().to_vec();
    let mut enc = crypto::aes::cbc_encryptor(crypto::aes::KeySize::KeySize256, &key, &iv, crypto::blockmodes::NoPadding);
    let mut buf = vec![0u8; plain_blocks.len()];
    let mut src = RefReadBuffer::new(plain_blocks);
    let mut dst = RefWriteBuffer::new(&mut buf);
    enc.encrypt(&mut src, &mut dst, true).unwrap();
    let ct = dst.take_read_buffer().take_remaining().to_vec();
    [salt.to_vec(), iv.to_vec(), ct].concat()
}

#[test]
fn bad_padding_fails_to_open() {
    assert_eq!(open(b"pass", &raw_blob(b"pass", &[32u8; 16])), Err(ArchiveError::DecryptionFailed));
    assert_eq!(open(b"pass", &raw_blob(b"pass", &[0u8; 16])), Err(ArchiveError::DecryptionFailed));
    let mut uneven = [4u8; 16];
    uneven[13] = 9;
    assert_eq!(open(b"pass", &raw_blob(b"pass", &uneven)), Err(ArchiveError::DecryptionFailed));
    let mut good = [1u8; 16];
    good[15] = 2;
    good[14] = 2;
    assert_eq!(open(b"pass", &raw_blob(b"pass", &good)), Ok(vec![1u8; 14]));
}

#[test]
fn uneven_body_fails_to_open() {
    let sealed = seal(b"pass", b"abc");
    assert_eq!(open(b"pass", &sealed[..sealed.len() - 1]), Err(ArchiveError::DecryptionFailed));
}
