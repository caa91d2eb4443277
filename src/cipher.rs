use vstd::prelude::*;
use crypto::buffer::{BufferResult, ReadBuffer, RefReadBuffer, RefWriteBuffer, WriteBuffer};
use crypto::mac::Mac;
use crate::error::ArchiveError;

verus! {

/// Length of the random salt that starts a sealed blob.
pub const SALT_LEN: usize = 16;
/// Length of the random IV that follows the salt.
pub const IV_LEN: usize = 16;

/// What `crypto::hmac::Hmac<Sha256>` with key `key` yields over `msg`.
pub uninterp spec fn hmac_sha256_of(key: Seq<u8>, msg: Seq<u8>) -> Seq<u8>;

/// What `crypto::aes::cbc_encryptor` (AES-256, no padding) yields for whole blocks `data`.
pub uninterp spec fn aes256_cbc_of(key: Seq<u8>, iv: Seq<u8>, data: Seq<u8>) -> Seq<u8>;

/// Relies on `crypto::hmac::Hmac` over `crypto::sha2::Sha256`: a 32-byte code of `msg` under `key`.
#[verifier::external_body]
fn hmac_sha256(key: &[u8], msg: &[u8]) -> (r: Vec<u8>)
    ensures
        r@ == hmac_sha256_of(key@, msg@),
        r@.len() == 32,
{
    let mut mac = crypto::hmac::Hmac::new(crypto::sha2::Sha256::new(), key);
    mac.input(msg);
    mac.result().code().to_vec()
}

/// Relies on `crypto::aes::cbc_encryptor` with `NoPadding`: whole 16-byte blocks are
/// encrypted one for one.
#[verifier::external_body]
fn aes256_cbc_encrypt(key: &[u8], iv: &[u8], data: &[u8]) -> (r: Vec<u8>)
    requires
        key@.len() == 32,
        iv@.len() == 16,
        data@.len() % 16 == 0,
    ensures
        r@ == aes256_cbc_of(key@, iv@, data@),
        r@.len() == data@.len(),
{
    let mut enc = crypto::aes::cbc_encryptor(crypto::aes::KeySize::KeySize256, key, iv, crypto::blockmodes::NoPadding);
    let (mut out, mut buf) = (Vec::new(), [0u8; 4096]);
    let mut src = RefReadBuffer::new(data);
    loop {
        let mut dst = RefWriteBuffer::new(&mut buf);
        let res = enc.encrypt(&mut src, &mut dst, true);
        out.extend_from_slice(dst.take_read_buffer().take_remaining());
        if !matches!(res, Ok(BufferResult::BufferOverflow)) {
            return out;
        }
    }
}

/// Relies on `crypto::aes::cbc_decryptor` with `NoPadding`: a whole number of blocks
/// decrypts to as many bytes, which encrypt back to the input (CBC is a permutation of
/// block sequences under a fixed key and IV); a partial last block is an error.
#[verifier::external_body]
fn aes256_cbc_decrypt(key: &[u8], iv: &[u8], data: &[u8]) -> (r: Option<Vec<u8>>)
    requires
        key@.len() == 32,
        iv@.len() == 16,
    ensures
        match r {
            Some(v) => data@.len() % 16 == 0 && v@.len() == data@.len()
                && aes256_cbc_of(key@, iv@, v@) == data@
                && forall|x: Seq<u8>| x.len() % 16 == 0 && #[trigger] aes256_cbc_of(key@, iv@, x) == data@ ==> v@ == x,
            None => data@.len() % 16 != 0,
        },
{
    let mut dec = crypto::aes::cbc_decryptor(crypto::aes::KeySize::KeySize256, key, iv, crypto::blockmodes::NoPadding);
    let (mut out, mut buf) = (Vec::new(), [0u8; 4096]);
    let mut src = RefReadBuffer::new(data);
    loop {
        let mut dst = RefWriteBuffer::new(&mut buf);
        let res = dec.decrypt(&mut src, &mut dst, true);
        out.extend_from_slice(dst.take_read_buffer().take_remaining());
        match res {
            Err(_) => return None,
            Ok(BufferResult::BufferUnderflow) => return Some(out),
            Ok(BufferResult::BufferOverflow) => {},
        }
    }
}

/// Number of PKCS#7 padding bytes for `n` bytes of data: one to sixteen.
pub open spec fn pad_count(n: nat) -> nat {
    (16 - n % 16) as nat
}

/// `d` followed by PKCS#7 padding to a whole number of 16-byte blocks.
pub open spec fn pkcs7_pad(d: Seq<u8>) -> Seq<u8> {
    d + Seq::new(pad_count(d.len()), |i: int| pad_count(d.len()) as u8)
}

/// `p` is a whole number of blocks ending in valid PKCS#7 padding.
pub open spec fn pkcs7_valid(p: Seq<u8>) -> bool {
    &&& p.len() >= 16
    &&& p.len() % 16 == 0
    &&& 1 <= p.last() <= 16
    &&& forall|i: int| p.len() - p.last() <= i < p.len() ==> #[trigger] p[i] == p.last()
}

/// `p` with its padding removed.
pub open spec fn pkcs7_unpad(p: Seq<u8>) -> Seq<u8> {
    p.subrange(0, p.len() - p.last())
}

/// Length of the padded form of `n` bytes.
pub open spec fn padded_len(n: nat) -> nat {
    16 * (n / 16 + 1)
}

/// Padding gives whole blocks with valid padding, which removing gives back.
pub proof fn lemma_pad_unpad(d: Seq<u8>)
    ensures
        pkcs7_pad(d).len() == padded_len(d.len()),
        pkcs7_valid(pkcs7_pad(d)),
        pkcs7_unpad(pkcs7_pad(d)) == d,
{
    let n = d.len();
    let p = pkcs7_pad(d);
    assert(n == 16 * (n / 16) + n % 16) by (nonlinear_arith);
    assert(p.len() == 16 * (n / 16 + 1));
    assert((16 * (n / 16 + 1)) % 16 == 0) by (nonlinear_arith);
    assert(p.last() == pad_count(n));
    assert(p.subrange(0, p.len() - p.last()) =~= d);
}

/// Valid padding that removes to `m`, at the padded length of `m`, is the padding of `m`.
pub proof fn lemma_unpad_determines(p: Seq<u8>, m: Seq<u8>)
    requires
        pkcs7_valid(p),
        pkcs7_unpad(p) == m,
        p.len() == padded_len(m.len()),
    ensures
        p == pkcs7_pad(m),
{
    let n = m.len();
    assert(n == 16 * (n / 16) + n % 16) by (nonlinear_arith);
    assert(p.last() == pad_count(n));
    assert(p =~= pkcs7_pad(m));
}

/// Appends PKCS#7 padding to a copy of `d`.
fn pad(d: &[u8]) -> (r: Vec<u8>)
    ensures
        r@ == pkcs7_pad(d@),
{
    let mut out = crate::bytes::copy_bytes(d);
    let k: u8 = (16 - d.len() % 16) as u8;
    let mut i: u8 = 0;
    while i < k
        invariant
            k as nat == pad_count(d@.len()),
            i <= k,
            out@ == d@ + Seq::new(i as nat, |j: int| k),
        decreases k - i,
    {
        out.push(k);
        i = i + 1;
        assert(out@ =~= d@ + Seq::new(i as nat, |j: int| k));
    }
    assert(out@ =~= pkcs7_pad(d@));
    out
}

/// Checks and removes PKCS#7 padding.
fn unpad(p: &[u8]) -> (r: Option<Vec<u8>>)
    ensures
        pkcs7_valid(p@) ==> (r matches Some(v) && v@ == pkcs7_unpad(p@)),
        !pkcs7_valid(p@) ==> r is None,
{
    let n = p.len();
    if n < 16 || n % 16 != 0 {
        return None;
    }
    let k = p[n - 1];
    if k < 1 || k > 16 {
        return None;
    }
    let mut i: usize = n - k as usize;
    while i < n
        invariant
            n == p@.len(),
            k == p@.last(),
            n - k as nat <= i <= n,
            forall|j: int| n - k <= j < i ==> #[trigger] p@[j] == k,
        decreases n - i,
    {
        if p[i] != k {
            return None;
        }
        i = i + 1;
    }
    Some(crate::bytes::copy_bytes(&p[0..n - k as usize]))
}

/// Relies on `rand::random`: sixteen bytes from the thread-local generator.
#[verifier::external_body]
fn random_block() -> (r: Vec<u8>)
    ensures
        r@.len() == 16,
{
    rand::random::<[u8; 16]>().to_vec()
}

/// The blob that sealing `plain` with the given salt and IV produces:
/// `salt ‖ iv ‖ AES-256-CBC(HMAC-SHA-256(pass, salt), iv, PKCS#7(plain))`.
pub open spec fn sealed_spec(pass: Seq<u8>, salt: Seq<u8>, iv: Seq<u8>, plain: Seq<u8>) -> Seq<u8> {
    salt + iv + aes256_cbc_of(hmac_sha256_of(pass, salt), iv, pkcs7_pad(plain))
}

/// Length of the sealed form of `n` bytes: salt, IV and the padded ciphertext.
pub open spec fn sealed_len(n: nat) -> nat {
    32 + padded_len(n)
}

/// `blob` is `plain` sealed under `pass`, with the salt and IV that the blob carries.
pub open spec fn is_sealed(pass: Seq<u8>, blob: Seq<u8>, plain: Seq<u8>) -> bool {
    &&& blob.len() == sealed_len(plain.len())
    &&& blob == sealed_spec(pass, blob.subrange(0, 16), blob.subrange(16, 32), plain)
}

/// `blob` is how `plain` is stored: sealed under `pass` when `encrypted`, as it is otherwise.
pub open spec fn stored_as(pass: Seq<u8>, encrypted: bool, blob: Seq<u8>, plain: Seq<u8>) -> bool {
    if encrypted {
        is_sealed(pass, blob, plain)
    } else {
        blob == plain
    }
}

/// Seals `data` with a chosen salt and IV; the result depends on its arguments alone.
pub fn seal_with(pass: &[u8], salt: &[u8], iv: &[u8], data: &[u8]) -> (r: Vec<u8>)
    requires
        salt@.len() == SALT_LEN,
        iv@.len() == IV_LEN,
    ensures
        r@ == sealed_spec(pass@, salt@, iv@, data@),
        r@.len() == sealed_len(data@.len()),
        is_sealed(pass@, r@, data@),
{
    let key = hmac_sha256(pass, salt);
    let padded = pad(data);
    proof { lemma_pad_unpad(data@); }
    let ct = aes256_cbc_encrypt(key.as_slice(), iv, padded.as_slice());
    let mut out: Vec<u8> = Vec::new();
    out.extend_from_slice(salt);
    out.extend_from_slice(iv);
    out.extend_from_slice(ct.as_slice());
    proof {
        assert(out@.subrange(0, 16) =~= salt@);
        assert(out@.subrange(16, 32) =~= iv@);
        assert(out@ =~= sealed_spec(pass@, salt@, iv@, data@));
    }
    out
}

/// Seals `data` under `pass` with a fresh random salt and IV.
pub fn seal(pass: &[u8], data: &[u8]) -> (r: Vec<u8>)
    ensures
        is_sealed(pass@, r@, data@),
        r@.len() == sealed_len(data@.len()),
{
    let salt = random_block();
    let iv = random_block();
    seal_with(pass, salt.as_slice(), iv.as_slice(), data)
}

/// What opening `blob` must give: the blob carries salt, IV and whole blocks, the
/// blocks decrypt under the derived key to `x`, and `x` has valid padding.
pub open spec fn opens_to(pass: Seq<u8>, blob: Seq<u8>, x: Seq<u8>) -> bool {
    &&& blob.len() > SALT_LEN + IV_LEN
    &&& x.len() == blob.len() - 32
    &&& x.len() % 16 == 0
    &&& aes256_cbc_of(hmac_sha256_of(pass, blob.subrange(0, 16)), blob.subrange(16, 32), x)
        == blob.subrange(32, blob.len() as int)
}

/// Opens a sealed blob. A blob of 32 bytes or fewer, one whose body is not whole
/// 16-byte blocks, and one whose decrypted padding is wrong fail with `DecryptionFailed`.
pub fn open(pass: &[u8], blob: &[u8]) -> (r: Result<Vec<u8>, ArchiveError>)
    ensures
        (blob@.len() <= SALT_LEN + IV_LEN || (blob@.len() - 32) % 16 != 0)
            ==> r == Err::<Vec<u8>, ArchiveError>(ArchiveError::DecryptionFailed),
        forall|x: Seq<u8>| #[trigger] opens_to(pass@, blob@, x) ==> if pkcs7_valid(x) {
            r matches Ok(v) && v@ == pkcs7_unpad(x)
        } else {
            r == Err::<Vec<u8>, ArchiveError>(ArchiveError::DecryptionFailed)
        },
        r matches Ok(v) ==> (blob@.len() - 32) % 16 == 0 && blob@.len() - 48 <= v@.len() <= blob@.len() - 33,
        r matches Ok(v) ==> exists|x: Seq<u8>| #[trigger] opens_to(pass@, blob@, x) && pkcs7_valid(x)
            && v@ == pkcs7_unpad(x),
        forall|x: Seq<u8>| #[trigger] is_sealed(pass@, blob@, x) ==> (r matches Ok(v) && v@ == x),
        r is Err ==> r == Err::<Vec<u8>, ArchiveError>(ArchiveError::DecryptionFailed),
{
    if blob.len() <= SALT_LEN + IV_LEN {
        return Err(ArchiveError::DecryptionFailed);
    }
    let salt = &blob[0..16];
    let iv = &blob[16..32];
    let body = &blob[32..blob.len()];
    let key = hmac_sha256(pass, salt);
    let dec = aes256_cbc_decrypt(key.as_slice(), iv, body);
    proof {
        assert forall|x: Seq<u8>| #[trigger] is_sealed(pass@, blob@, x) implies
            opens_to(pass@, blob@, pkcs7_pad(x)) && pkcs7_valid(pkcs7_pad(x)) && pkcs7_unpad(pkcs7_pad(x)) == x by {
            lemma_pad_unpad(x);
            let s = sealed_spec(pass@, salt@, iv@, x);
            assert(s.subrange(32, s.len() as int) =~= aes256_cbc_of(key@, iv@, pkcs7_pad(x)));
            assert(salt@ =~= blob@.subrange(0, 16));
            assert(iv@ =~= blob@.subrange(16, 32));
            assert(body@ =~= blob@.subrange(32, blob@.len() as int));
        }
        assert forall|x: Seq<u8>| #[trigger] opens_to(pass@, blob@, x) implies
            aes256_cbc_of(key@, iv@, x) == body@ by {
            assert(salt@ =~= blob@.subrange(0, 16));
            assert(iv@ =~= blob@.subrange(16, 32));
            assert(body@ =~= blob@.subrange(32, blob@.len() as int));
        }
    }
    let padded = match dec {
        Some(v) => v,
        None => return Err(ArchiveError::DecryptionFailed),
    };
    proof {
        assert(opens_to(pass@, blob@, padded@)) by {
            assert(salt@ =~= blob@.subrange(0, 16));
            assert(iv@ =~= blob@.subrange(16, 32));
            assert(body@ =~= blob@.subrange(32, blob@.len() as int));
        }
    }
    match unpad(padded.as_slice()) {
        Some(v) => Ok(v),
        None => Err(ArchiveError::DecryptionFailed),
    }
}

/// Stores `data` as the archive keeps it: sealed when `encrypted`, unchanged otherwise.
pub fn store(pass: &[u8], encrypted: bool, data: &[u8]) -> (r: Vec<u8>)
    ensures
        stored_as(pass@, encrypted, r@, data@),
        encrypted ==> r@.len() == sealed_len(data@.len()),
{
    if encrypted {
        seal(pass, data)
    } else {
        crate::bytes::copy_bytes(data)
    }
}

/// Recovers what `store` stored.
pub fn unstore(pass: &[u8], encrypted: bool, blob: &[u8]) -> (r: Result<Vec<u8>, ArchiveError>)
    ensures
        forall|x: Seq<u8>| #[trigger] stored_as(pass@, encrypted, blob@, x) ==> (r matches Ok(v) && v@ == x),
        !encrypted ==> (r matches Ok(v) && v@ == blob@),
        encrypted && r is Ok ==> exists|x: Seq<u8>| #[trigger] opens_to(pass@, blob@, x) && pkcs7_valid(x)
            && r->Ok_0@ == pkcs7_unpad(x),
        r is Err ==> r == Err::<Vec<u8>, ArchiveError>(ArchiveError::DecryptionFailed),
{
    if encrypted {
        open(pass, blob)
    } else {
        Ok(crate::bytes::copy_bytes(blob))
    }
}

} // verus!
