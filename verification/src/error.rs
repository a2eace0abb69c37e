//! What can go wrong in what the library decides and computes.

use crate::hexdigits::HexError;
use vstd::prelude::*;

verus! {

/// `std::io::Error`, opaque: carried from the PEM reader to the caller.
#[verifier::external_type_specification]
#[verifier::external_body]
pub struct ExIoError(std::io::Error);

#[derive(Debug)]
pub enum Error {
    /// The certificate file is not valid PEM.
    ParseCertificate(std::io::Error),
    /// The certificate file holds no certificate.
    NoCertificate,
    /// The key file is not valid PEM.
    ParsePrivateKey(std::io::Error),
    /// The key file holds no private key.
    NoPrivateKey,
    /// The private key is not in PKCS#8 form.
    UnsupportedKeyFormat,
    /// The private key does not belong to the certificate.
    KeyMismatch,
    /// The certificate and the private key cannot be used, for the reason given.
    UnusableKey(String),
    /// No self-signed certificate could be made, for the reason given.
    GenerateCertificate(String),
    /// The fingerprint is not hexadecimal.
    InvalidFingerprint(HexError),
    /// The fingerprint has this many bytes.
    FingerprintLength(usize),
    /// Neither a fingerprint nor a way to fetch one was given.
    MissingAuthentication,
    /// The peer does not know the session.
    SessionRejected,
    /// The link ended, or the peer did not say hello.
    LinkClosed,
    /// The stream ended inside a frame.
    UnexpectedEof,
    /// The local side did not take what was delivered.
    StdoutWrite(std::io::Error),
    /// The link stayed down for too long.
    ReconnectGaveUp,
    /// The bootstrap command failed.
    BootstrapExit,
    /// The bootstrap command printed nothing.
    BootstrapEmpty,
    /// A payload is too long for the length field of a frame.
    FrameTooLarge,
}

pub type Result<T> = std::result::Result<T, Error>;

} // verus!
