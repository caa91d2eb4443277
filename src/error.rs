use vstd::prelude::*;

verus! {

/// The ways a build or an extraction can fail.
#[derive(Debug, Clone, Copy, PartialEq, Eq, Structural)]
pub enum ArchiveError {
    /// A caller handed the library an input it does not accept (an empty file).
    Usage,
    /// The configuration is unusable (a zero chunk size, an empty OTP secret).
    Config,
    /// A compressor reported a failure while building.
    Codec,
    /// The archive asks for a one-time password and none was given.
    OtpMissing,
    /// The one-time password does not match the archive's secret.
    OtpInvalid,
    /// A payload could not be decrypted (short input or bad padding).
    DecryptionFailed,
    /// The archive's layout, sizes, tags or checksum do not agree.
    CorruptArchive,
}

impl ArchiveError {
    /// True for the errors that deny access: a missing or wrong code, or a failed decryption.
    pub fn is_auth_failure(&self) -> (r: bool)
        ensures
            r <==> (*self == ArchiveError::OtpMissing || *self == ArchiveError::OtpInvalid
                || *self == ArchiveError::DecryptionFailed),
    {
        match self {
            ArchiveError::OtpMissing | ArchiveError::OtpInvalid | ArchiveError::DecryptionFailed => true,
            _ => false,
        }
    }

    /// The process exit code that reports this error.
    pub fn exit_code(&self) -> (r: i32)
        ensures
            r == match *self {
                ArchiveError::Usage | ArchiveError::Config => 2i32,
                ArchiveError::OtpMissing | ArchiveError::OtpInvalid
                | ArchiveError::DecryptionFailed => 3i32,
                ArchiveError::CorruptArchive | ArchiveError::Codec => 4i32,
            },
    {
        match self {
            ArchiveError::Usage | ArchiveError::Config => 2,
            ArchiveError::OtpMissing | ArchiveError::OtpInvalid | ArchiveError::DecryptionFailed => 3,
            ArchiveError::CorruptArchive | ArchiveError::Codec => 4,
        }
    }
}

} // verus!
