//! Bytes spelled in hexadecimal.

use vstd::prelude::*;
use vstd::utf8::encode_utf8;

verus! {

/// Why a text is not the hexadecimal spelling of bytes.
#[derive(Debug, Clone, Copy, PartialEq, Eq)]
pub enum HexError {
    /// The byte at `index` is no hexadecimal digit; `c` is that byte as a character.
    InvalidHexCharacter { c: char, index: usize },
    /// A digit lacks its partner.
    OddLength,
    /// The text has another length than the buffer asks for.
    InvalidStringLength,
}

/// The value of a hexadecimal digit, in either case.
pub open spec fn digit_value(b: u8) -> Option<u8> {
    if 'A' as u8 <= b <= 'F' as u8 {
        Some((b - 'A' as u8 + 10) as u8)
    } else if 'a' as u8 <= b <= 'f' as u8 {
        Some((b - 'a' as u8 + 10) as u8)
    } else if '0' as u8 <= b <= '9' as u8 {
        Some((b - '0' as u8) as u8)
    } else {
        None
    }
}

/// The lower-case digit for `d`.
pub open spec fn digit_char(d: int) -> char {
    if d < 10 {
        (48 + d) as char
    } else {
        (87 + d) as char
    }
}

/// How many bytes come before the first that is no hexadecimal digit.
pub open spec fn digits_len(s: Seq<u8>) -> nat
    decreases s.len(),
{
    if s.len() == 0 || digit_value(s[0]) is None {
        0
    } else {
        1 + digits_len(s.skip(1))
    }
}

/// The bytes that `s` spells, two digits each, or why it spells none.
pub open spec fn hex_decoded(s: Seq<u8>) -> Result<Seq<u8>, HexError> {
    let bad = digits_len(s) as int;
    if s.len() % 2 != 0 {
        Err(HexError::OddLength)
    } else if bad < s.len() {
        Err(HexError::InvalidHexCharacter { c: s[bad] as char, index: bad as usize })
    } else {
        Ok(
            Seq::new(
                s.len() / 2,
                |i: int| (digit_value(s[2 * i])->0 * 16 + digit_value(s[2 * i + 1])->0) as u8,
            ),
        )
    }
}

/// Two lower-case digits for each byte.
pub open spec fn hex_encoded(data: Seq<u8>) -> Seq<char> {
    Seq::new(
        2 * data.len(),
        |i: int|
            if i % 2 == 0 {
                digit_char(data[i / 2] as int / 16)
            } else {
                digit_char(data[i / 2] as int % 16)
            },
    )
}

/// The bytes, by their view, or the error.
pub open spec fn viewed(r: Result<Vec<u8>, HexError>) -> Result<Seq<u8>, HexError> {
    match r {
        Ok(bytes) => Ok(bytes@),
        Err(e) => Err(e),
    }
}

/// `hex::decode`: the bytes that the text's bytes spell as pairs of digits of
/// either case. An odd length is reported first, then the first byte that is
/// no digit.
#[verifier::external_body]
pub(crate) fn hex_decode(text: &str) -> (r: Result<Vec<u8>, HexError>)
    ensures
        viewed(r) == hex_decoded(encode_utf8(text@)),
{
    match hex::decode(text) {
        Ok(bytes) => Ok(bytes),
        Err(hex::FromHexError::InvalidHexCharacter { c, index }) => {
            Err(HexError::InvalidHexCharacter { c, index })
        },
        Err(hex::FromHexError::OddLength) => Err(HexError::OddLength),
        Err(hex::FromHexError::InvalidStringLength) => Err(HexError::InvalidStringLength),
    }
}

/// `hex::encode`: two lower-case digits for each byte.
#[verifier::external_body]
pub(crate) fn hex_encode(data: &[u8]) -> (text: String)
    ensures
        text@ == hex_encoded(data@),
{
    hex::encode(data)
}

proof fn lemma_digits_len_all(s: Seq<u8>)
    requires
        forall|i: int| 0 <= i < s.len() ==> digit_value(#[trigger] s[i]) is Some,
    ensures
        digits_len(s) == s.len(),
    decreases s.len(),
{
    if s.len() > 0 {
        let rest = s.skip(1);
        assert forall|i: int| 0 <= i < rest.len() implies digit_value(
            #[trigger] rest[i],
        ) is Some by {
            assert(rest[i] == s[i + 1]);
        }
        lemma_digits_len_all(rest);
    }
}

/// All of a text are digits just when none comes before its end that is not.
pub proof fn lemma_digits_len(s: Seq<u8>)
    ensures
        digits_len(s) <= s.len(),
        digits_len(s) == s.len() <==> forall|i: int|
            0 <= i < s.len() ==> digit_value(#[trigger] s[i]) is Some,
    decreases s.len(),
{
    if s.len() > 0 {
        let rest = s.skip(1);
        lemma_digits_len(rest);
        if digits_len(s) == s.len() {
            assert forall|i: int| 0 <= i < s.len() implies digit_value(
                #[trigger] s[i],
            ) is Some by {
                if i > 0 {
                    assert(rest[i - 1] == s[i]);
                }
            }
        } else {
            if forall|i: int| 0 <= i < s.len() ==> digit_value(#[trigger] s[i]) is Some {
                lemma_digits_len_all(s);
            }
        }
    }
}

/// Bytes are read back from their hexadecimal spelling.
pub proof fn law_hex_reads_back(data: Seq<u8>)
    ensures
        hex_decoded(encode_utf8(hex_encoded(data))) == Ok::<Seq<u8>, HexError>(data),
{
    let text = hex_encoded(data);
    assert(vstd::utf8::is_ascii_chars(text));
    vstd::utf8::is_ascii_chars_encode_utf8(text);
    let s = encode_utf8(text);
    assert(s =~= Seq::new(text.len(), |i: int| text[i] as u8));
    assert forall|i: int| 0 <= i < s.len() implies digit_value(#[trigger] s[i]) == Some(
        (if i % 2 == 0 {
            data[i / 2] as int / 16
        } else {
            data[i / 2] as int % 16
        }) as u8,
    ) by {
        assert(s[i] == text[i] as u8);
    }
    lemma_digits_len_all(s);
    assert(hex_decoded(s)->Ok_0 =~= data) by {
        assert forall|i: int| 0 <= i < data.len() implies #[trigger] hex_decoded(s)->Ok_0[i]
            == data[i] by {
            assert(s.len() == 2 * data.len());
            assert((2 * i) / 2 == i && (2 * i) % 2 == 0);
            assert((2 * i + 1) / 2 == i && (2 * i + 1) % 2 == 1);
            assert(digit_value(s[2 * i]) == Some((data[i] as int / 16) as u8));
            assert(digit_value(s[2 * i + 1]) == Some((data[i] as int % 16) as u8));
        }
    }
}

/// The spelling of a byte is its two digits to the base 16, the more significant
/// first, each of `0` to `9` or `a` to `f`.
pub proof fn law_hex_digits(data: Seq<u8>, i: int)
    requires
        0 <= i < data.len(),
    ensures
        hex_encoded(data).len() == 2 * data.len(),
        ({
            let high = hex_encoded(data)[2 * i];
            let low = hex_encoded(data)[2 * i + 1];
            &&& '0' as int <= high as int <= '9' as int || 'a' as int <= high as int <= 'f' as int
            &&& '0' as int <= low as int <= '9' as int || 'a' as int <= low as int <= 'f' as int
            &&& data[i] == 16 * lower_value(high) + lower_value(low)
        }),
{
    assert((2 * i) / 2 == i && (2 * i) % 2 == 0);
    assert((2 * i + 1) / 2 == i && (2 * i + 1) % 2 == 1);
}

/// The value of a lower-case hexadecimal digit.
pub open spec fn lower_value(c: char) -> int {
    if 'a' as int <= c as int {
        c as int - 'a' as int + 10
    } else {
        c as int - '0' as int
    }
}

} // verus!
