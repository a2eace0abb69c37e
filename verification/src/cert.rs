//! The server's certificate and private key.

use crate::error::{Error, Result};
use crate::hexdigits::{hex_encode, hex_encoded};
use crate::tls::{sha256, sha256_digest, FINGERPRINT_LEN};
use vstd::prelude::*;
use vstd::utf8::encode_utf8;

verus! {

/// The certificate in DER form and its private key in PKCS#8 DER form.
#[derive(Debug)]
pub struct Identity {
    pub cert_der: Vec<u8>,
    pub key_pkcs8_der: Vec<u8>,
}

impl Identity {
    /// The SHA-256 digest of the certificate.
    pub fn fingerprint(&self) -> (fp: [u8; FINGERPRINT_LEN])
        ensures
            fp@ == sha256(self.cert_der@),
    {
        sha256_digest(self.cert_der.as_slice())
    }

    /// The fingerprint in lower-case hexadecimal.
    pub fn fingerprint_hex(&self) -> (hex: String)
        ensures
            hex@ == hex_encoded(sha256(self.cert_der@)),
    {
        hex_encode(&self.fingerprint())
    }

    /// The private key belongs to the certificate.
    pub open spec fn matched(self) -> bool {
        keys_matched(self.cert_der@, self.key_pkcs8_der@)
    }

    /// Checks that TLS can use the certificate with the private key.
    pub fn check_key(&self) -> (r: Result<()>)
        ensures
            r is Ok ==> self.matched(),
            r matches Err(e) ==> (e is KeyMismatch && !self.matched()) || e is UnusableKey,
    {
        key_checked(keys_match(self.cert_der.as_slice(), self.key_pkcs8_der.as_slice()))
    }
}

/// The public part of the private key, in PKCS#8 DER form, is the public key of
/// the certificate, in DER form.
pub uninterp spec fn keys_matched(cert_der: Seq<u8>, key_pkcs8_der: Seq<u8>) -> bool;

/// The result says whether the keys match, if it says anything.
pub open spec fn tells_match(r: std::result::Result<bool, String>, matched: bool) -> bool {
    r matches Ok(same) ==> same == matched
}

/// `CertifiedKey::from_der` of rustls, with the `ring` provider: whether it takes
/// the key for the certificate, or rejects it because their public keys differ.
/// Where it fails otherwise, because either cannot be read or the source of
/// randomness failed, the text of its error, of which nothing is said.
#[verifier::external_body]
fn keys_match(cert_der: &[u8], key_pkcs8_der: &[u8]) -> (r: std::result::Result<bool, String>)
    ensures
        tells_match(r, keys_matched(cert_der@, key_pkcs8_der@)),
{
    let cert = rustls::pki_types::CertificateDer::from(cert_der.to_vec());
    let key = rustls::pki_types::PrivateKeyDer::Pkcs8(key_pkcs8_der.to_vec().into());
    let provider = rustls::crypto::ring::default_provider();
    match rustls::sign::CertifiedKey::from_der(vec![cert], key, &provider) {
        Ok(_) => Ok(true),
        Err(rustls::Error::InconsistentKeys(rustls::InconsistentKeys::KeyMismatch)) => Ok(false),
        Err(e) => Err(e.to_string()),
    }
}

/// What a comparison of the keys comes to.
pub fn key_checked(matched: std::result::Result<bool, String>) -> (r: Result<()>)
    ensures
        match matched {
            Ok(true) => r == Ok::<(), Error>(()),
            Ok(false) => r == Err::<(), Error>(Error::KeyMismatch),
            Err(reason) => r == Err::<(), Error>(Error::UnusableKey(reason)),
        },
{
    match matched {
        Ok(true) => Ok(()),
        Ok(false) => Err(Error::KeyMismatch),
        Err(reason) => Err(Error::UnusableKey(reason)),
    }
}

/// The first certificate in a PEM file, in DER form: none, or an error if the
/// file breaks off or is malformed before there is one.
pub uninterp spec fn pem_certificate(data: Seq<u8>) -> Option<std::result::Result<Seq<u8>, ()>>;

/// The first private key in a PEM file: none, or one in PKCS#8 DER form, or
/// (the inner `None`) one in another form.
pub uninterp spec fn pem_private_key(data: Seq<u8>) -> std::result::Result<
    Option<Option<Seq<u8>>>,
    (),
>;

pub open spec fn certificate_view(
    r: Option<std::result::Result<Vec<u8>, std::io::Error>>,
) -> Option<std::result::Result<Seq<u8>, ()>> {
    match r {
        None => None,
        Some(Ok(der)) => Some(Ok(der@)),
        Some(Err(_)) => Some(Err(())),
    }
}

/// `rustls_pemfile::certs`, its first item: the first certificate in the file.
/// The name stands for it.
#[verifier::external_body]
fn first_certificate(data: &[u8]) -> (r: Option<std::result::Result<Vec<u8>, std::io::Error>>)
    ensures
        certificate_view(r) == pem_certificate(data@),
{
    let mut reader = std::io::BufReader::new(data);
    let first = rustls_pemfile::certs(&mut reader).next();
    match first {
        None => None,
        Some(Ok(cert)) => Some(Ok(cert.to_vec())),
        Some(Err(e)) => Some(Err(e)),
    }
}

/// A private key as found in a PEM file.
pub enum PrivateKey {
    /// In PKCS#8 DER form.
    Pkcs8(Vec<u8>),
    /// In another form.
    Other,
}

pub open spec fn private_key_view(
    r: std::result::Result<Option<PrivateKey>, std::io::Error>,
) -> std::result::Result<Option<Option<Seq<u8>>>, ()> {
    match r {
        Err(_) => Err(()),
        Ok(None) => Ok(None),
        Ok(Some(PrivateKey::Other)) => Ok(Some(None)),
        Ok(Some(PrivateKey::Pkcs8(der))) => Ok(Some(Some(der@))),
    }
}

/// `rustls_pemfile::private_key`: the first private key in the file. The name
/// stands for it.
#[verifier::external_body]
fn first_private_key(data: &[u8]) -> (r: std::result::Result<Option<PrivateKey>, std::io::Error>)
    ensures
        private_key_view(r) == pem_private_key(data@),
{
    let mut reader = std::io::BufReader::new(data);
    match rustls_pemfile::private_key(&mut reader) {
        Err(e) => Err(e),
        Ok(None) => Ok(None),
        Ok(Some(rustls::pki_types::PrivateKeyDer::Pkcs8(key))) => {
            Ok(Some(PrivateKey::Pkcs8(key.secret_pkcs8_der().to_vec())))
        },
        Ok(Some(_)) => Ok(Some(PrivateKey::Other)),
    }
}

/// The result says what the first certificate of a PEM file is.
pub open spec fn reads_certificate(
    r: Result<Vec<u8>>,
    found: Option<std::result::Result<Seq<u8>, ()>>,
) -> bool {
    match found {
        None => r matches Err(Error::NoCertificate),
        Some(Err(_)) => r matches Err(Error::ParseCertificate(_)),
        Some(Ok(der)) => r matches Ok(bytes) && bytes@ == der,
    }
}

/// What a search for the first certificate comes to: the certificate, or the
/// error for there being none or for malformed PEM.
pub fn certificate_found(
    found: Option<std::result::Result<Vec<u8>, std::io::Error>>,
) -> (r: Result<Vec<u8>>)
    ensures
        reads_certificate(r, certificate_view(found)),
        found matches Some(Err(e)) ==> r == Err::<Vec<u8>, Error>(Error::ParseCertificate(e)),
{
    match found {
        None => Err(Error::NoCertificate),
        Some(Err(e)) => Err(Error::ParseCertificate(e)),
        Some(Ok(der)) => Ok(der),
    }
}

/// The DER form of the certificate in a PEM file.
pub fn read_cert_der(pem: &[u8]) -> (r: Result<Vec<u8>>)
    ensures
        reads_certificate(r, pem_certificate(pem@)),
{
    certificate_found(first_certificate(pem))
}

/// The result says what the first private key of a PEM file is.
pub open spec fn reads_private_key(
    r: Result<Vec<u8>>,
    found: std::result::Result<Option<Option<Seq<u8>>>, ()>,
) -> bool {
    match found {
        Err(_) => r matches Err(Error::ParsePrivateKey(_)),
        Ok(None) => r matches Err(Error::NoPrivateKey),
        Ok(Some(None)) => r matches Err(Error::UnsupportedKeyFormat),
        Ok(Some(Some(der))) => r matches Ok(bytes) && bytes@ == der,
    }
}

/// What a search for the first private key comes to. Only PKCS#8 keys will do.
pub fn private_key_found(
    found: std::result::Result<Option<PrivateKey>, std::io::Error>,
) -> (r: Result<Vec<u8>>)
    ensures
        reads_private_key(r, private_key_view(found)),
        found matches Err(e) ==> r == Err::<Vec<u8>, Error>(Error::ParsePrivateKey(e)),
{
    match found {
        Err(e) => Err(Error::ParsePrivateKey(e)),
        Ok(None) => Err(Error::NoPrivateKey),
        Ok(Some(PrivateKey::Other)) => Err(Error::UnsupportedKeyFormat),
        Ok(Some(PrivateKey::Pkcs8(der))) => Ok(der),
    }
}

/// The PKCS#8 DER form of the private key in a PEM file.
pub fn read_key_pkcs8_der(pem: &[u8]) -> (r: Result<Vec<u8>>)
    ensures
        reads_private_key(r, pem_private_key(pem@)),
{
    private_key_found(first_private_key(pem))
}

/// A new identity and the text of the files that keep it.
#[derive(Debug)]
pub struct NewIdentity {
    /// The name that the certificate was asked for.
    pub name: String,
    pub identity: Identity,
    pub cert_pem: String,
    pub key_pem: String,
}

impl NewIdentity {
    /// The files hold this identity: reading them gives it back.
    pub open spec fn kept(self) -> bool {
        &&& pem_certificate(encode_utf8(self.cert_pem@)) == Some(
            Ok::<Seq<u8>, ()>(self.identity.cert_der@),
        )
        &&& pem_private_key(encode_utf8(self.key_pem@)) == Ok::<Option<Option<Seq<u8>>>, ()>(
            Some(Some(self.identity.key_pkcs8_der@)),
        )
    }
}

/// The name in the certificate of a server.
pub open spec fn server_name() -> Seq<char> {
    "quash"@
}

impl NewIdentity {
    /// An identity for `name`, whose key belongs to its certificate and whose
    /// files hold it.
    pub open spec fn made_for(self, name: Seq<char>) -> bool {
        &&& self.name@ == name
        &&& self.identity.matched()
        &&& self.kept()
    }
}

pub open spec fn made_for(r: std::result::Result<NewIdentity, String>, name: Seq<char>) -> bool {
    r matches Ok(made) ==> made.made_for(name)
}

/// `rcgen::generate_simple_self_signed` for `name`, with the certificate and key
/// that it makes in DER and PEM form, or the text of its error. The key pair is
/// random, so nothing is said of the certificate and the key but that the key
/// belongs to the certificate, and that their PEM forms hold their DER forms, the
/// key as PKCS#8. What else the certificate holds is left unsaid. The PEM reader
/// gives up on sections of 256 MiB, so the name is short. The call panics where
/// the system's source of randomness fails just after it gave the key, which no
/// argument brings about.
#[verifier::external_body]
fn self_signed(name: &str) -> (r: std::result::Result<NewIdentity, String>)
    requires
        name@.len() <= 253,
    ensures
        made_for(r, name@),
{
    let certified = match rcgen::generate_simple_self_signed(vec![name.to_string()]) {
        Ok(certified) => certified,
        Err(e) => return Err(e.to_string()),
    };
    let identity = Identity {
        cert_der: certified.cert.der().to_vec(),
        key_pkcs8_der: certified.signing_key.serialize_der(),
    };
    let cert_pem = certified.cert.pem();
    let key_pem = certified.signing_key.serialize_pem();
    Ok(NewIdentity { name: name.to_string(), identity, cert_pem, key_pem })
}

/// A new identity with a self-signed certificate.
fn new_identity() -> (r: Result<NewIdentity>)
    ensures
        r matches Ok(made) ==> made.made_for(server_name()),
        r matches Err(e) ==> e is GenerateCertificate,
{
    proof {
        reveal_strlit("quash");
    }
    match self_signed("quash") {
        Err(e) => Err(Error::GenerateCertificate(e)),
        Ok(made) => Ok(made),
    }
}

/// Where an identity comes from.
#[derive(Debug)]
pub enum CertPlan {
    /// Read both files.
    Load,
    /// Write both files, then set their permissions.
    Create(NewIdentity),
}

/// Decides whether to read the identity that the files hold, or to make one and
/// keep it: it is made unless both files exist.
pub fn load_or_create(cert_exists: bool, key_exists: bool) -> (r: Result<CertPlan>)
    ensures
        r matches Ok(CertPlan::Load) <==> cert_exists && key_exists,
        r matches Ok(CertPlan::Create(made)) ==> made.made_for(server_name()),
        r matches Err(e) ==> e is GenerateCertificate,
{
    if cert_exists && key_exists {
        return Ok(CertPlan::Load);
    }
    match new_identity() {
        Err(e) => Err(e),
        Ok(made) => Ok(CertPlan::Create(made)),
    }
}

/// A fingerprint to print, and the identity to keep first if it is a new one.
#[derive(Debug)]
pub struct PrintedFingerprint {
    pub hex: String,
    pub made: Option<NewIdentity>,
}

/// The result says what the fingerprint of the certificate file `cert_pem` is.
pub open spec fn prints_fingerprint(
    r: Result<PrintedFingerprint>,
    cert_pem: Option<Seq<u8>>,
) -> bool {
    match cert_pem {
        Some(pem) => match pem_certificate(pem) {
            None => r matches Err(Error::NoCertificate),
            Some(Err(_)) => r matches Err(Error::ParseCertificate(_)),
            Some(Ok(der)) => r matches Ok(printed) && printed.made is None && printed.hex@
                == hex_encoded(sha256(der)),
        },
        None => match r {
            Ok(printed) => printed.made matches Some(made) && made.made_for(server_name())
                && printed.hex@ == hex_encoded(sha256(made.identity.cert_der@)),
            Err(e) => e is GenerateCertificate,
        },
    }
}

/// The fingerprint in hexadecimal of the certificate in a PEM file. Only the
/// public certificate is read, so that the fingerprint can be printed without
/// access to the private key. Falls back to a new identity when there is no
/// certificate file yet (`None`).
pub fn fingerprint_hex(cert_pem: Option<&[u8]>) -> (r: Result<PrintedFingerprint>)
    ensures
        prints_fingerprint(
            r,
            match cert_pem {
                Some(pem) => Some(pem@),
                None => None,
            },
        ),
{
    match cert_pem {
        Some(pem) => match read_cert_der(pem) {
            Err(e) => Err(e),
            Ok(der) => {
                let hex = hex_encode(&sha256_digest(der.as_slice()));
                Ok(PrintedFingerprint { hex, made: None })
            },
        },
        None => match new_identity() {
            Err(e) => Err(e),
            Ok(made) => {
                let hex = made.identity.fingerprint_hex();
                Ok(PrintedFingerprint { hex, made: Some(made) })
            },
        },
    }
}

/// The files of a new identity give it back: the certificate and the key that
/// are read from them are its own, and so is the fingerprint that is printed.
pub proof fn law_new_identity_is_kept(
    made: NewIdentity,
    cert: Result<Vec<u8>>,
    key: Result<Vec<u8>>,
    print: Result<PrintedFingerprint>,
)
    requires
        made.kept(),
        reads_certificate(cert, pem_certificate(encode_utf8(made.cert_pem@))),
        reads_private_key(key, pem_private_key(encode_utf8(made.key_pem@))),
        prints_fingerprint(print, Some(encode_utf8(made.cert_pem@))),
    ensures
        cert matches Ok(der) && der@ == made.identity.cert_der@,
        key matches Ok(der) && der@ == made.identity.key_pkcs8_der@,
        print matches Ok(printed) && printed.made is None && printed.hex@ == hex_encoded(
            sha256(made.identity.cert_der@),
        ),
{
}

/// The two files of an identity.
#[derive(Debug, Clone, Copy, PartialEq, Eq)]
pub enum CertFile {
    Certificate,
    PrivateKey,
}

/// The file modes to set, in order, once the files of a new identity are
/// written. The private key is for its owner alone, while everyone may read the
/// certificate, so that any user can print the fingerprint. Only Unix has modes.
pub fn set_cert_permissions(unix: bool) -> (modes: Vec<(CertFile, u32)>)
    ensures
        modes@ == if unix {
            seq![(CertFile::Certificate, 0o644u32), (CertFile::PrivateKey, 0o600u32)]
        } else {
            Seq::empty()
        },
{
    let mut modes: Vec<(CertFile, u32)> = Vec::new();
    if unix {
        modes.push((CertFile::Certificate, 0o644));
        modes.push((CertFile::PrivateKey, 0o600));
    }
    assert(modes@ =~= if unix {
        seq![(CertFile::Certificate, 0o644u32), (CertFile::PrivateKey, 0o600u32)]
    } else {
        Seq::empty()
    });
    modes
}

/// A directory: a root, or the current directory, and names to append to it.
#[derive(Debug)]
pub struct CertDir<P> {
    pub root: Option<P>,
    pub below: Vec<&'static str>,
}

impl<P> CertDir<P> {
    pub open spec fn is(self, root: Option<P>, below: Seq<Seq<char>>) -> bool {
        &&& self.root == root
        &&& self.below@.map_values(|name: &'static str| name@) == below
    }
}

/// Where the identity is kept: a root, or the current directory, and the names
/// below it.
pub open spec fn identity_dir<P>(
    cert_dir: Option<P>,
    config_home: Option<P>,
    home: Option<P>,
) -> (Option<P>, Seq<Seq<char>>) {
    if cert_dir is Some {
        (cert_dir, Seq::empty())
    } else if config_home is Some {
        (config_home, seq!["quash"@])
    } else {
        (home, seq![".config"@, "quash"@])
    }
}

/// A certificate directory that was given is used as it is, whatever else there is;
/// else a `quash` below the configuration directory, whatever the home directory
/// is; else `.config/quash` below the home directory, or below the current one.
pub proof fn law_identity_dir<P>(given: P, config: P, any: Option<P>, other: Option<P>)
    ensures
        identity_dir(Some(given), any, other) == (Some(given), Seq::<Seq<char>>::empty()),
        identity_dir(None, Some(config), any) == (Some(config), seq!["quash"@]),
        identity_dir(None, None, any) == (any, seq![".config"@, "quash"@]),
{
}

/// The directory of the identity, from the values of `QUASH_CERT_DIR`,
/// `XDG_CONFIG_HOME` and `HOME`.
pub fn default_cert_dir<P>(
    cert_dir: Option<P>,
    config_home: Option<P>,
    home: Option<P>,
) -> (dir: CertDir<P>)
    ensures
        ({
            let (root, below) = identity_dir(cert_dir, config_home, home);
            dir.is(root, below)
        }),
        cert_dir is Some ==> dir.is(cert_dir, Seq::empty()),
        cert_dir is None && config_home is Some ==> dir.is(config_home, seq!["quash"@]),
        cert_dir is None && config_home is None ==> dir.is(home, seq![".config"@, "quash"@]),
{
    let mut below: Vec<&'static str> = Vec::new();
    if cert_dir.is_some() {
        assert(below@.map_values(|name: &'static str| name@) =~= Seq::empty());
        return CertDir { root: cert_dir, below };
    }
    if config_home.is_some() {
        below.push("quash");
        assert(below@.map_values(|name: &'static str| name@) =~= seq!["quash"@]);
        return CertDir { root: config_home, below };
    }
    below.push(".config");
    below.push("quash");
    assert(below@.map_values(|name: &'static str| name@) =~= seq![".config"@, "quash"@]);
    CertDir { root: home, below }
}

/// What is printed is the fingerprint that a client pins: a client that reads it,
/// with white space around, has the SHA-256 digest of the certificate in the file,
/// or of the new certificate if there was no file.
pub proof fn law_printed_fingerprint_is_pinned(
    r: Result<PrintedFingerprint>,
    pem: Seq<u8>,
    der: Seq<u8>,
    before: Seq<char>,
    after: Seq<char>,
)
    requires
        r is Ok,
        forall|i: int|
            0 <= i < before.len() ==> crate::text::white_space(#[trigger] before[i]),
        forall|i: int| 0 <= i < after.len() ==> crate::text::white_space(#[trigger] after[i]),
    ensures
        prints_fingerprint(r, Some(pem)) && pem_certificate(pem) == Some(
            Ok::<Seq<u8>, ()>(der),
        ) && sha256(der).len() == 32 ==> crate::tls::parsed_fingerprint(
            before + r->Ok_0.hex@ + after,
        ) == (crate::tls::Parsed::Fingerprint { bytes: sha256(der) }) && r->Ok_0.made is None,
        prints_fingerprint(r, Some(pem)) ==> pem_certificate(pem) matches Some(Ok(_)),
        prints_fingerprint(r, None) ==> (r->Ok_0.made matches Some(made) && (sha256(
            made.identity.cert_der@,
        ).len() == 32 ==> crate::tls::parsed_fingerprint(before + r->Ok_0.hex@ + after) == (
        crate::tls::Parsed::Fingerprint { bytes: sha256(made.identity.cert_der@) }))),
{
    if sha256(der).len() == 32 {
        crate::tls::law_fingerprint_reads_back(before, sha256(der), after);
    }
    if prints_fingerprint(r, None) {
        let made = r->Ok_0.made->0;
        if sha256(made.identity.cert_der@).len() == 32 {
            crate::tls::law_fingerprint_reads_back(
                before,
                sha256(made.identity.cert_der@),
                after,
            );
        }
    }
}

/// What a search in a PEM file found is what is read, byte for byte, and each way
/// to find nothing of use has an error of its own.
pub proof fn law_what_was_found_is_read(
    cert: Result<Vec<u8>>,
    key: Result<Vec<u8>>,
    print: Result<PrintedFingerprint>,
    pem: Seq<u8>,
    der: Seq<u8>,
)
    ensures
        prints_fingerprint(print, Some(pem)) && pem_certificate(pem) is None ==> (
        print matches Err(e) && e is NoCertificate),
        prints_fingerprint(print, Some(pem)) && pem_certificate(pem) == Some(
            Err::<Seq<u8>, ()>(()),
        ) ==> (print matches Err(e) && e is ParseCertificate),
        prints_fingerprint(print, Some(pem)) && pem_certificate(pem) == Some(
            Ok::<Seq<u8>, ()>(der),
        ) ==> print is Ok,
        prints_fingerprint(print, None) && print is Err ==> (print matches Err(e) && e
            is GenerateCertificate),
        reads_certificate(cert, Some(Ok(der))) ==> (cert matches Ok(bytes) && bytes@ == der),
        reads_certificate(cert, Some(Err(()))) ==> (cert matches Err(e) && e is ParseCertificate),
        reads_certificate(cert, None) ==> (cert matches Err(e) && e is NoCertificate),
        reads_private_key(key, Ok(Some(Some(der)))) ==> (key matches Ok(bytes) && bytes@ == der),
        reads_private_key(key, Ok(Some(None))) ==> (key matches Err(e) && e
            is UnsupportedKeyFormat),
        reads_private_key(key, Ok(None)) ==> (key matches Err(e) && e is NoPrivateKey),
        reads_private_key(key, Err(())) ==> (key matches Err(e) && e is ParsePrivateKey),
{
}

} // verus!
