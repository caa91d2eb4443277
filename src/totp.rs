use vstd::prelude::*;
use crate::error::ArchiveError;

verus! {

/// Length of a TOTP time step, in seconds.
pub const TOTP_STEP: u64 = 30;
/// Number of decimal digits of a TOTP code.
pub const TOTP_DIGITS: u32 = 6;

/// What `base32::decode` with the RFC 4648 alphabet gives for `s`.
pub uninterp spec fn base32_decode_of(s: Seq<char>) -> Option<Seq<u8>>;

/// What `totp_lite::totp_custom::<Sha256>` yields for the time-step `counter`.
pub uninterp spec fn totp_sha256_of(secret: Seq<u8>, counter: u64, digits: u32) -> Seq<char>;

/// Relies on `base32::decode` (RFC 4648 alphabet): the bytes `s` encodes, if any.
#[verifier::external_body]
fn base32_decode(s: &str) -> (r: Option<Vec<u8>>)
    ensures
        match r {
            Some(v) => base32_decode_of(s@) == Some(v@),
            None => base32_decode_of(s@) is None,
        },
{
    base32::decode(base32::Alphabet::RFC4648 { padding: false }, s)
}

/// Relies on `totp_lite::totp_custom` with SHA-256: it hashes `time / step` under the
/// secret and prints the code zero-padded to `digits` characters.
#[verifier::external_body]
fn totp_sha256(step: u64, digits: u32, secret: &[u8], time: u64) -> (r: String)
    requires
        step > 0,
        1 <= digits <= 9,
    ensures
        r@ == totp_sha256_of(secret@, time / step, digits),
        r@.len() == digits,
{
    totp_lite::totp_custom::<totp_lite::Sha256>(step, digits, secret, time)
}

/// The code of the time step `window` under a decoded secret.
pub open spec fn code_at(secret: Seq<u8>, window: u64) -> Seq<char> {
    totp_sha256_of(secret, window, TOTP_DIGITS)
}

/// A code is accepted at time `now` when it is the code of the current step or of
/// one of the two steps next to it.
pub open spec fn accepted(secret: Seq<u8>, now: u64, code: Seq<char>) -> bool {
    let t = now / TOTP_STEP;
    ||| code == code_at(secret, t)
    ||| (now >= TOTP_STEP && code == code_at(secret, (t - 1) as u64))
    ||| (now <= u64::MAX - TOTP_STEP && code == code_at(secret, (t + 1) as u64))
}

/// The code of the time step that holds `now`, for a base32 secret.
pub fn totp_code(secret_b32: &str, now: u64) -> (r: Result<String, ArchiveError>)
    ensures
        match base32_decode_of(secret_b32@) {
            Some(k) => r matches Ok(c) && c@ == code_at(k, now / TOTP_STEP),
            None => r == Err::<String, ArchiveError>(ArchiveError::CorruptArchive),
        },
{
    match base32_decode(secret_b32) {
        Some(k) => Ok(totp_sha256(TOTP_STEP, TOTP_DIGITS, k.as_slice(), now)),
        None => Err(ArchiveError::CorruptArchive),
    }
}

/// Checks a caller's code against a base32 secret at time `now`. No code gives
/// `OtpMissing`; a secret that is not base32 gives `CorruptArchive`; a code outside
/// the accepted steps gives `OtpInvalid`.
pub fn check_otp(secret_b32: &str, otp: Option<&str>, now: u64) -> (r: Result<(), ArchiveError>)
    ensures
        otp is None ==> r == Err::<(), ArchiveError>(ArchiveError::OtpMissing),
        otp matches Some(c) ==> match base32_decode_of(secret_b32@) {
            None => r == Err::<(), ArchiveError>(ArchiveError::CorruptArchive),
            Some(k) => if accepted(k, now, c@) {
                r is Ok
            } else {
                r == Err::<(), ArchiveError>(ArchiveError::OtpInvalid)
            },
        },
{
    let code = match otp {
        None => return Err(ArchiveError::OtpMissing),
        Some(c) => c.to_owned(),
    };
    let key = match base32_decode(secret_b32) {
        Some(k) => k,
        None => return Err(ArchiveError::CorruptArchive),
    };
    if code == totp_sha256(TOTP_STEP, TOTP_DIGITS, key.as_slice(), now) {
        return Ok(());
    }
    if now >= TOTP_STEP {
        let earlier = now - TOTP_STEP;
        assert(earlier / TOTP_STEP == now / TOTP_STEP - 1);
        if code == totp_sha256(TOTP_STEP, TOTP_DIGITS, key.as_slice(), earlier) {
            return Ok(());
        }
    }
    if now <= u64::MAX - TOTP_STEP {
        let later = now + TOTP_STEP;
        assert(later / TOTP_STEP == now / TOTP_STEP + 1);
        if code == totp_sha256(TOTP_STEP, TOTP_DIGITS, key.as_slice(), later) {
            return Ok(());
        }
    }
    Err(ArchiveError::OtpInvalid)
}

/// The code of the current time step is accepted.
pub proof fn lemma_current_code_accepted(secret: Seq<u8>, now: u64)
    ensures
        accepted(secret, now, code_at(secret, now / TOTP_STEP)),
{
}

/// A code of two steps back is refused, unless it happens to equal the code of the
/// previous, current or next step.
pub proof fn lemma_stale_code_refused(secret: Seq<u8>, now: u64)
    requires
        now >= 2 * TOTP_STEP,
        code_at(secret, (now / TOTP_STEP - 2) as u64) != code_at(secret, (now / TOTP_STEP - 1) as u64),
        code_at(secret, (now / TOTP_STEP - 2) as u64) != code_at(secret, now / TOTP_STEP),
        now <= u64::MAX - TOTP_STEP ==> code_at(secret, (now / TOTP_STEP - 2) as u64)
            != code_at(secret, (now / TOTP_STEP + 1) as u64),
    ensures
        !accepted(secret, now, code_at(secret, (now / TOTP_STEP - 2) as u64)),
{
}

} // verus!
