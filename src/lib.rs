//! MoonBall: a chunked, compressed, optionally encrypted and OTP-gated archive format.
pub mod error;
pub mod codec;
pub mod bytes;
pub mod chunker;
pub mod cipher;
pub mod totp;
pub mod archive;
pub mod model;
