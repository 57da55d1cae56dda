//! Text encodings that the library uses: lowercase hex (through the `hex`
//! crate) and JSON string literals (through `serde_json`).
use vstd::prelude::*;
use vstd::utf8::{encode_utf8, is_ascii_chars, is_ascii_chars_encode_utf8};

verus! {

// ---------------------------------------------------------------------------
// Hex
// ---------------------------------------------------------------------------

/// The lowercase hex digit for a nibble.
pub open spec fn hex_digit(n: int) -> char {
    seq!['0', '1', '2', '3', '4', '5', '6', '7', '8', '9', 'a', 'b', 'c', 'd', 'e', 'f'][n]
}

/// Lowercase hex of a byte string: two digits per byte, high nibble first.
pub open spec fn hex_lower(b: Seq<u8>) -> Seq<char>
    decreases b.len(),
{
    if b.len() == 0 {
        seq![]
    } else {
        seq![hex_digit(b[0] as int / 16), hex_digit(b[0] as int % 16)] + hex_lower(b.drop_first())
    }
}

/// The value of a hex digit byte (either case), or -1 for any other byte.
pub open spec fn hex_value(c: u8) -> int {
    if 48 <= c <= 57 {
        c - 48
    } else if 97 <= c <= 102 {
        c - 87
    } else if 65 <= c <= 70 {
        c - 55
    } else {
        -1
    }
}

/// The bytes are a hex text: an even number of hex digits.
pub open spec fn hex_decodable(s: Seq<u8>) -> bool {
    s.len() % 2 == 0 && forall|i: int| 0 <= i < s.len() ==> hex_value(#[trigger] s[i]) >= 0
}

/// The bytes that a hex text stands for, one per pair of digits.
pub open spec fn hex_decode(s: Seq<u8>) -> Seq<u8>
    decreases s.len(),
{
    if s.len() < 2 {
        seq![]
    } else {
        seq![(hex_value(s[0]) * 16 + hex_value(s[1])) as u8] + hex_decode(
            s.subrange(2, s.len() as int),
        )
    }
}

#[verifier::external_type_specification]
#[verifier::external_body]
pub struct ExFromHexError(hex::FromHexError);

/// `hex::encode`: the lowercase hex text of the bytes, two digits per byte,
/// high nibble first (the crate's table `0123456789abcdef`).
#[verifier::external_body]
pub(crate) fn hex_encode(data: &[u8]) -> (r: String)
    ensures
        r@ == hex_lower(data@),
{
    hex::encode(data)
}

/// `hex::decode`: fails on an odd length or on a byte that is not a hex
/// digit (either case); otherwise gives one byte per pair of digits.
#[verifier::external_body]
pub(crate) fn hex_decode_bytes(data: &[u8]) -> (r: Result<Vec<u8>, hex::FromHexError>)
    ensures
        r is Ok <==> hex_decodable(data@),
        r matches Ok(v) ==> v@ == hex_decode(data@),
{
    hex::decode(data)
}

/// Decodes the hex text `s`, `None` when it is not a hex text.
pub fn decode_hex_text(s: &str) -> (r: Option<Vec<u8>>)
    ensures
        r is Some <==> hex_decodable(encode_utf8(s@)),
        r matches Some(v) ==> v@ == hex_decode(encode_utf8(s@)),
{
    match hex_decode_bytes(s.as_bytes()) {
        Ok(v) => Some(v),
        Err(_) => None,
    }
}

/// The hex text of some bytes is made of ASCII digits, so its UTF-8 bytes
/// are its characters, and decoding it gives the bytes back.
pub proof fn lemma_hex_roundtrip(b: Seq<u8>)
    ensures
        encode_utf8(hex_lower(b)).len() == 2 * b.len(),
        hex_decodable(encode_utf8(hex_lower(b))),
        hex_decode(encode_utf8(hex_lower(b))) == b,
    decreases b.len(),
{
    let h = hex_lower(b);
    assert(is_ascii_chars(h)) by {
        lemma_hex_lower_ascii(b);
    }
    is_ascii_chars_encode_utf8(h);
    let e = encode_utf8(h);
    if b.len() > 0 {
        let rest = b.drop_first();
        lemma_hex_roundtrip(rest);
        let hr = hex_lower(rest);
        assert(is_ascii_chars(hr)) by {
            lemma_hex_lower_ascii(rest);
        }
        is_ascii_chars_encode_utf8(hr);
        let er = encode_utf8(hr);
        assert(h =~= seq![hex_digit(b[0] as int / 16), hex_digit(b[0] as int % 16)] + hr);
        assert(e.subrange(2, e.len() as int) =~= er) by {
            assert forall|i: int| 0 <= i < er.len() implies e.subrange(2, e.len() as int)[i]
                == er[i] by {
                assert(h[i + 2] == hr[i]);
            }
        }
        lemma_hex_digit_value(b[0] as int / 16);
        lemma_hex_digit_value(b[0] as int % 16);
        assert(e[0] == h[0] as u8);
        assert(e[1] == h[1] as u8);
        assert(hex_value(e[0]) * 16 + hex_value(e[1]) == b[0] as int);
        assert(hex_decode(e) =~= b);
        assert forall|i: int| 0 <= i < e.len() implies hex_value(#[trigger] e[i]) >= 0 by {
            if i >= 2 {
                assert(e[i] == er[i - 2]);
            }
        }
    }
}

/// Each hex digit is an ASCII character whose byte decodes to its value.
proof fn lemma_hex_digit_value(n: int)
    requires
        0 <= n < 16,
    ensures
        '\0' <= hex_digit(n) <= '\u{7f}',
        hex_value(hex_digit(n) as u8) == n,
{
}

/// The hex text of some bytes is ASCII.
proof fn lemma_hex_lower_ascii(b: Seq<u8>)
    ensures
        is_ascii_chars(hex_lower(b)),
    decreases b.len(),
{
    if b.len() > 0 {
        lemma_hex_lower_ascii(b.drop_first());
        lemma_hex_digit_value(b[0] as int / 16);
        lemma_hex_digit_value(b[0] as int % 16);
        let h = hex_lower(b);
        let hr = hex_lower(b.drop_first());
        assert(h =~= seq![hex_digit(b[0] as int / 16), hex_digit(b[0] as int % 16)] + hr);
        assert forall|i: int| 0 <= i < h.len() implies '\0' <= #[trigger] h[i] <= '\u{7f}' by {
            if i >= 2 {
                assert(h[i] == hr[i - 2]);
            }
        }
    }
}

// ---------------------------------------------------------------------------
// JSON string literals
// ---------------------------------------------------------------------------

/// How `serde_json` writes one character inside a string literal: `"` and
/// `\` and the control characters below U+0020 are escaped (the short forms
/// `\b \t \n \f \r`, else `\u00XX` with lowercase hex), the rest is kept.
pub open spec fn json_escape_char(c: char) -> Seq<char> {
    let v = c as u32;
    if c == '"' {
        seq!['\\', '"']
    } else if c == '\\' {
        seq!['\\', '\\']
    } else if v == 0x08 {
        seq!['\\', 'b']
    } else if v == 0x09 {
        seq!['\\', 't']
    } else if v == 0x0A {
        seq!['\\', 'n']
    } else if v == 0x0C {
        seq!['\\', 'f']
    } else if v == 0x0D {
        seq!['\\', 'r']
    } else if v < 0x20 {
        seq!['\\', 'u', '0', '0', hex_digit(v as int / 16), hex_digit(v as int % 16)]
    } else {
        seq![c]
    }
}

/// The escaped content of a JSON string literal.
pub open spec fn json_escape(s: Seq<char>) -> Seq<char>
    decreases s.len(),
{
    if s.len() == 0 {
        seq![]
    } else {
        json_escape_char(s[0]) + json_escape(s.drop_first())
    }
}

/// The JSON string literal for a text: the escaped text between quotes.
pub open spec fn json_quoted(s: Seq<char>) -> Seq<char> {
    seq!['"'] + json_escape(s) + seq!['"']
}

#[verifier::external_type_specification]
#[verifier::external_body]
pub struct ExJsonError(serde_json::Error);

/// `serde_json::to_string` on a string slice: the JSON string literal of
/// the text (see `json_quoted`, which follows the crate's escape table).
/// It succeeds: a `str` serializes through `format_escaped_str` into an
/// in-memory `Vec`, whose writes do not fail.
#[verifier::external_body]
pub(crate) fn json_string_literal(s: &str) -> (r: Result<String, serde_json::Error>)
    ensures
        r is Ok,
        r matches Ok(t) ==> t@ == json_quoted(s@),
{
    serde_json::to_string(s)
}

/// What `serde_json` reads as the top-level `"name"` field of a JSON text:
/// `None` when the text is not JSON, is not an object, or its `"name"` is
/// missing or not a string.
pub uninterp spec fn json_name_field(raw: Seq<char>) -> Option<Seq<char>>;

/// Parses `raw` as a `serde_json::Value` and reads its `"name"` field as a
/// string.
#[verifier::external_body]
pub(crate) fn json_read_name(raw: &str) -> (r: Option<String>)
    ensures
        match r {
            Some(n) => json_name_field(raw@) == Some(n@),
            None => json_name_field(raw@) is None,
        },
{
    let value: serde_json::Value = serde_json::from_str(raw).ok()?;
    Some(value.get("name")?.as_str()?.to_string())
}

} // verus!
