//! Certificate fingerprints and what the QUIC transport is set to.

use crate::error::{Error, Result};
use crate::hexdigits::{
    hex_decode, hex_decoded, hex_encode, hex_encoded, law_hex_reads_back, HexError,
};
use crate::text::{trim, trimmed, trimmed_start, white_space};
use sha2::{Digest, Sha256};
use vstd::prelude::*;
use vstd::utf8::encode_utf8;

verus! {

/// The number of bytes in a fingerprint.
pub const FINGERPRINT_LEN: usize = 32;

/// The SHA-256 digest of `data`.
pub uninterp spec fn sha256(data: Seq<u8>) -> Seq<u8>;

/// `Sha256::digest`: the SHA-256 digest of `data`, which the name stands for.
#[verifier::external_body]
pub(crate) fn sha256_digest(data: &[u8]) -> (digest: [u8; FINGERPRINT_LEN])
    ensures
        digest@ == sha256(data@),
{
    Sha256::digest(data).into()
}

/// What a text that should be a fingerprint gives: its bytes, or why it is none.
pub enum Parsed {
    Fingerprint { bytes: Seq<u8> },
    NotHex { error: HexError },
    WrongLength { len: nat },
}

/// A fingerprint is 32 bytes in hexadecimal, with or without white space around.
pub open spec fn parsed_fingerprint(text: Seq<char>) -> Parsed {
    match hex_decoded(encode_utf8(trimmed(text))) {
        Err(error) => Parsed::NotHex { error },
        Ok(bytes) => if bytes.len() == FINGERPRINT_LEN {
            Parsed::Fingerprint { bytes }
        } else {
            Parsed::WrongLength { len: bytes.len() }
        },
    }
}

/// The result says what `parsed` says.
pub open spec fn reports(r: Result<[u8; FINGERPRINT_LEN]>, parsed: Parsed) -> bool {
    match parsed {
        Parsed::Fingerprint { bytes } => r matches Ok(fp) && fp@ == bytes,
        Parsed::NotHex { error } => r matches Err(Error::InvalidFingerprint(e)) && e == error,
        Parsed::WrongLength { len } => r matches Err(Error::FingerprintLength(n)) && n == len,
    }
}

/// Reads a fingerprint.
pub fn parse_fingerprint(text: &str) -> (r: Result<[u8; FINGERPRINT_LEN]>)
    ensures
        reports(r, parsed_fingerprint(text@)),
{
    match hex_decode(trim(text)) {
        Err(e) => Err(Error::InvalidFingerprint(e)),
        Ok(bytes) => {
            if bytes.len() != FINGERPRINT_LEN {
                return Err(Error::FingerprintLength(bytes.len()));
            }
            let mut out: [u8; FINGERPRINT_LEN] = [0u8; FINGERPRINT_LEN];
            let mut i: usize = 0;
            while i < FINGERPRINT_LEN
                invariant
                    0 <= i <= FINGERPRINT_LEN,
                    bytes@.len() == FINGERPRINT_LEN,
                    out@.len() == FINGERPRINT_LEN,
                    forall|k: int| 0 <= k < i ==> out@[k] == bytes@[k],
                decreases FINGERPRINT_LEN - i,
            {
                out[i] = bytes[i];
                i = i + 1;
            }
            assert(out@ =~= bytes@);
            Ok(out)
        },
    }
}

/// What is said of a certificate that does not match its pin.
pub open spec fn mismatch(expected: Seq<u8>, actual: Seq<u8>) -> Seq<char> {
    "certificate fingerprint mismatch: expected "@ + hex_encoded(expected) + ", got "@
        + hex_encoded(actual)
}

fn same_bytes(a: &[u8; FINGERPRINT_LEN], b: &[u8; FINGERPRINT_LEN]) -> (same: bool)
    ensures
        same == (a@ == b@),
{
    let mut i: usize = 0;
    while i < FINGERPRINT_LEN
        invariant
            0 <= i <= FINGERPRINT_LEN,
            forall|k: int| 0 <= k < i ==> a@[k] == b@[k],
        decreases FINGERPRINT_LEN - i,
    {
        if a[i] != b[i] {
            return false;
        }
        i = i + 1;
    }
    assert(a@ =~= b@);
    true
}

/// Accepts the one certificate whose fingerprint was pinned.
#[derive(Debug)]
pub struct PinnedCertVerifier {
    pub expected: [u8; FINGERPRINT_LEN],
}

impl PinnedCertVerifier {
    /// The fingerprint is the one that was pinned.
    pub open spec fn accepts(self, fingerprint: Seq<u8>) -> bool {
        fingerprint == self.expected@
    }

    /// Checks the fingerprint of a certificate against the pin.
    pub fn check_fingerprint(&self, actual: &[u8; FINGERPRINT_LEN]) -> (r: std::result::Result<
        (),
        String,
    >)
        ensures
            r is Ok <==> actual@ == self.expected@,
            r is Ok <==> self.accepts(actual@),
            r matches Err(message) ==> message@ == mismatch(self.expected@, actual@),
    {
        if same_bytes(actual, &self.expected) {
            return Ok(());
        }
        let mut message = "certificate fingerprint mismatch: expected ".to_owned();
        let expected = hex_encode(&self.expected);
        message.append(expected.as_str());
        message.append(", got ");
        let got = hex_encode(actual);
        message.append(got.as_str());
        Err(message)
    }

    /// Checks a server's certificate against the pin.
    pub fn verify_server_cert(&self, end_entity: &[u8]) -> (r: std::result::Result<(), String>)
        ensures
            r is Ok <==> sha256(end_entity@) == self.expected@,
            r is Ok <==> self.accepts(sha256(end_entity@)),
            r matches Err(message) ==> message@ == mismatch(
                self.expected@,
                sha256(end_entity@),
            ),
    {
        self.check_fingerprint(&sha256_digest(end_entity))
    }
}

/// What the QUIC transport is set to.
#[derive(Debug, Clone, Copy, PartialEq, Eq)]
pub struct TransportConfig {
    pub min_mtu: u16,
    pub initial_mtu: u16,
    pub mtu_discovery: bool,
}

/// Disables MTU discovery and pins the payload to the smallest safe value.
/// Tailscale and other tunnels cap the path MTU (tailscale0 is 1280), and a
/// larger probe is silently dropped, which deadlocks the in-flight window.
pub fn transport_config() -> (config: TransportConfig)
    ensures
        config.min_mtu == 1200,
        config.initial_mtu == 1200,
        !config.mtu_discovery,
{
    TransportConfig { min_mtu: 1200, initial_mtu: 1200, mtu_discovery: false }
}

/// White space around a text that has none at its ends is all that trimming takes away.
pub proof fn lemma_trimmed_padded(before: Seq<char>, core: Seq<char>, after: Seq<char>)
    requires
        forall|i: int| 0 <= i < before.len() ==> white_space(#[trigger] before[i]),
        forall|i: int| 0 <= i < after.len() ==> white_space(#[trigger] after[i]),
        core.len() > 0,
        !white_space(core[0]),
        !white_space(core.last()),
    ensures
        trimmed(before + core + after) == core,
    decreases before.len() + after.len(),
{
    let whole = before + core + after;
    if before.len() > 0 {
        let rest = before.skip(1);
        assert(whole[0] == before[0]);
        assert(whole.skip(1) =~= rest + core + after);
        assert forall|i: int| 0 <= i < rest.len() implies white_space(#[trigger] rest[i]) by {
            assert(rest[i] == before[i + 1]);
        }
        lemma_trimmed_padded(rest, core, after);
    } else {
        assert(whole =~= core + after);
        assert(whole[0] == core[0]);
        assert(trimmed_start(whole) == whole);
        if after.len() > 0 {
            let rest = after.drop_last();
            assert(whole.last() == after.last());
            assert(whole.drop_last() =~= before + core + rest);
            assert forall|i: int| 0 <= i < rest.len() implies white_space(#[trigger] rest[i]) by {
                assert(rest[i] == after[i]);
            }
            lemma_trimmed_padded(before, core, rest);
            assert(trimmed_start(whole.drop_last()) == whole.drop_last());
        } else {
            assert(whole =~= core);
        }
    }
}

/// The spelling of a fingerprint is all hexadecimal digits, none of them white space.
pub proof fn lemma_hex_has_no_white_space(data: Seq<u8>, i: int)
    requires
        0 <= i < hex_encoded(data).len(),
    ensures
        !white_space(hex_encoded(data)[i]),
        48 <= hex_encoded(data)[i] as int <= 102,
{
}

/// A fingerprint is read back from its hexadecimal spelling, whatever white
/// space stands around it.
pub proof fn law_fingerprint_reads_back(before: Seq<char>, fingerprint: Seq<u8>, after: Seq<char>)
    requires
        fingerprint.len() == FINGERPRINT_LEN,
        forall|i: int| 0 <= i < before.len() ==> white_space(#[trigger] before[i]),
        forall|i: int| 0 <= i < after.len() ==> white_space(#[trigger] after[i]),
    ensures
        parsed_fingerprint(before + hex_encoded(fingerprint) + after) == (Parsed::Fingerprint {
            bytes: fingerprint,
        }),
{
    let hex = hex_encoded(fingerprint);
    lemma_hex_has_no_white_space(fingerprint, 0);
    lemma_hex_has_no_white_space(fingerprint, hex.len() - 1);
    lemma_trimmed_padded(before, hex, after);
    law_hex_reads_back(fingerprint);
}

/// A fingerprint that differs from the pin in a single byte, or in its length, is
/// not accepted, and the pin itself is.
pub proof fn law_only_the_pin_is_accepted(
    verifier: PinnedCertVerifier,
    fingerprint: Seq<u8>,
    i: int,
)
    requires
        0 <= i < 32,
    ensures
        verifier.accepts(verifier.expected@),
        fingerprint.len() != 32 ==> !verifier.accepts(fingerprint),
        fingerprint[i] != verifier.expected@[i] ==> !verifier.accepts(fingerprint),
        fingerprint.len() == 32 && (forall|j: int|
            0 <= j < 32 ==> #[trigger] fingerprint[j] == verifier.expected@[j])
            ==> verifier.accepts(fingerprint),
{
    if fingerprint.len() == 32 && (forall|j: int|
        0 <= j < 32 ==> #[trigger] fingerprint[j] == verifier.expected@[j]) {
        assert(fingerprint =~= verifier.expected@);
    }
}

/// What is said of a mismatch ends with the spelling of the fingerprint that was
/// found, and names the pin before it.
pub proof fn law_mismatch_names_both(expected: Seq<u8>, actual: Seq<u8>)
    requires
        expected.len() == 32,
        actual.len() == 32,
    ensures
        ({
            let text = mismatch(expected, actual);
            let start = "certificate fingerprint mismatch: expected "@.len() as int;
            let between = ", got "@.len() as int;
            &&& text.len() == start + 64 + between + 64
            &&& text.take(start) == "certificate fingerprint mismatch: expected "@
            &&& text.subrange(start, start + 64) == hex_encoded(expected)
            &&& text.subrange(start + 64, start + 64 + between) == ", got "@
            &&& text.skip(start + 64 + between) == hex_encoded(actual)
        }),
{
    let text = mismatch(expected, actual);
    let start = "certificate fingerprint mismatch: expected "@.len() as int;
    let between = ", got "@.len() as int;
    assert(text.take(start) =~= "certificate fingerprint mismatch: expected "@);
    assert(text.subrange(start, start + 64) =~= hex_encoded(expected));
    assert(text.subrange(start + 64, start + 64 + between) =~= ", got "@);
    assert(text.skip(start + 64 + between) =~= hex_encoded(actual));
}

/// A text is a fingerprint just when, without white space around, it is 64
/// hexadecimal digits of either case; each byte is what its two digits spell. Any
/// other text is reported: an odd number of bytes or a byte that is no digit as
/// such, and otherwise the number of bytes that the digits spell.
pub proof fn law_fingerprint_is_64_digits(before: Seq<char>, core: Seq<char>, after: Seq<char>)
    requires
        forall|i: int| 0 <= i < before.len() ==> white_space(#[trigger] before[i]),
        forall|i: int| 0 <= i < after.len() ==> white_space(#[trigger] after[i]),
        core.len() > 0 ==> !white_space(core[0]) && !white_space(core.last()),
    ensures
        ({
            let s = encode_utf8(core);
            let digits = forall|i: int|
                0 <= i < s.len() ==> crate::hexdigits::digit_value(#[trigger] s[i]) is Some;
            match parsed_fingerprint(before + core + after) {
                Parsed::Fingerprint { bytes } => {
                    &&& s.len() == 64 && digits
                    &&& bytes.len() == 32
                    &&& forall|i: int|
                        0 <= i < 32 ==> #[trigger] bytes[i] == 16
                            * crate::hexdigits::digit_value(s[2 * i])->0
                            + crate::hexdigits::digit_value(s[2 * i + 1])->0
                },
                Parsed::WrongLength { len } => s.len() == 2 * len && len != 32 && digits,
                Parsed::NotHex { error } => match error {
                    HexError::OddLength => s.len() % 2 == 1,
                    HexError::InvalidHexCharacter { .. } => s.len() % 2 == 0 && !digits,
                    HexError::InvalidStringLength => false,
                },
            }
        }),
{
    let s = encode_utf8(core);
    crate::text::law_trim(before, core, after);
    crate::hexdigits::lemma_digits_len(s);
    assert forall|i: int|
        0 <= i < s.len() && crate::hexdigits::digit_value(#[trigger] s[i]) is Some implies (
    crate::hexdigits::digit_value(s[i])->0) < 16 by {
    }
}

/// What reading a text as a fingerprint gives: the bytes that its 64 digits spell,
/// with or without white space around, and for any other text an error, which says
/// how many bytes the digits spell if all of it are digits.
pub proof fn law_fingerprint_is_read_or_refused(
    r: Result<[u8; FINGERPRINT_LEN]>,
    before: Seq<char>,
    core: Seq<char>,
    after: Seq<char>,
)
    requires
        reports(r, parsed_fingerprint(before + core + after)),
        forall|i: int| 0 <= i < before.len() ==> white_space(#[trigger] before[i]),
        forall|i: int| 0 <= i < after.len() ==> white_space(#[trigger] after[i]),
        core.len() > 0 ==> !white_space(core[0]) && !white_space(core.last()),
    ensures
        ({
            let s = encode_utf8(core);
            let digits = forall|i: int|
                0 <= i < s.len() ==> crate::hexdigits::digit_value(#[trigger] s[i]) is Some;
            &&& r is Ok <==> s.len() == 64 && digits
            &&& r matches Ok(fp) ==> forall|i: int|
                0 <= i < 32 ==> #[trigger] fp@[i] == 16 * crate::hexdigits::digit_value(
                    s[2 * i],
                )->0 + crate::hexdigits::digit_value(s[2 * i + 1])->0
            &&& r matches Err(e) ==> match e {
                Error::FingerprintLength(n) => s.len() == 2 * n && digits,
                Error::InvalidFingerprint(HexError::OddLength) => s.len() % 2 == 1,
                Error::InvalidFingerprint(HexError::InvalidHexCharacter { .. }) => s.len() % 2 == 0
                    && !digits,
                _ => false,
            }
        }),
{
    law_fingerprint_is_64_digits(before, core, after);
}

} // verus!
