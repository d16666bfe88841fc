//! Byte and text encodings that block hashing is built from: decimal
//! numbers, JSON string literals, SHA-256 digests and lowercase hex.

use sha2::{Digest, Sha256};
use vstd::prelude::*;
use vstd::utf8::{
    encode_scalar, encode_utf8, has_width_1_encoding, has_width_2_encoding, has_width_3_encoding,
    last_continuation_byte, leading_byte_width_1, leading_byte_width_2, leading_byte_width_3,
    leading_byte_width_4, second_last_continuation_byte, third_last_continuation_byte,
};

verus! {

/// The ASCII decimal digits of `n`, most significant first, without
/// leading zeros (`0` is the single digit `0`).
pub open spec fn decimal(n: nat) -> Seq<u8>
    decreases n,
{
    if n < 10 {
        seq![(48 + n) as u8]
    } else {
        decimal(n / 10) + seq![(48 + n % 10) as u8]
    }
}

/// Appends the decimal digits of `n` to `out`.
pub fn push_decimal(out: &mut Vec<u8>, n: u64)
    ensures
        final(out)@ == old(out)@ + decimal(n as nat),
    decreases n,
{
    if n >= 10 {
        push_decimal(out, n / 10);
    }
    let d: u8 = (n % 10) as u8;
    out.push(48u8 + d);
}

/// The decimal digits of `n` as text.
pub open spec fn decimal_text(n: nat) -> Seq<char> {
    decimal(n).map_values(|b: u8| b as char)
}

/// `String::push` from std: appends the character `c` to the end of `text`.
#[verifier::external_body]
pub(crate) fn push_char(text: &mut String, c: char)
    ensures
        final(text)@ == old(text)@.push(c),
{
    text.push(c);
}

/// Appends the decimal digits of `n` to `text`.
pub fn push_decimal_text(text: &mut String, n: u64)
    ensures
        final(text)@ == old(text)@ + decimal_text(n as nat),
    decreases n,
{
    if n >= 10 {
        push_decimal_text(text, n / 10);
    }
    let d: u8 = (n % 10) as u8;
    let digit: u8 = 48u8 + d;
    push_char(text, digit as char);
    assert(decimal(n as nat) == if n < 10 {
        seq![digit]
    } else {
        decimal((n / 10) as nat) + seq![digit]
    });
    assert(decimal_text(n as nat) =~= if n < 10 {
        seq![digit as char]
    } else {
        decimal_text((n / 10) as nat) + seq![digit as char]
    });
}

/// Appends `bytes` to `out`.
pub fn append_bytes(out: &mut Vec<u8>, bytes: &[u8])
    ensures
        final(out)@ == old(out)@ + bytes@,
{
    let ghost start = out@;
    let mut i: usize = 0;
    while i < bytes.len()
        invariant
            i <= bytes@.len(),
            out@ == start + bytes@.take(i as int),
        decreases bytes@.len() - i,
    {
        out.push(bytes[i]);
        i = i + 1;
        assert(bytes@.take(i as int) == bytes@.take(i - 1) + seq![bytes@[i - 1]]);
    }
    assert(bytes@.take(i as int) == bytes@);
}

/// The lowercase ASCII hex digit of `v`, for `v < 16`.
pub open spec fn hex_digit_byte(v: nat) -> u8 {
    if v < 10 {
        (48 + v) as u8
    } else {
        (87 + v) as u8
    }
}

/// The lowercase hex text of `data`: two digits per byte, high nibble first.
pub open spec fn hex_lower(data: Seq<u8>) -> Seq<char>
    decreases data.len(),
{
    if data.len() == 0 {
        seq![]
    } else {
        seq![
            hex_digit_byte((data[0] / 16) as nat) as char,
            hex_digit_byte((data[0] % 16) as nat) as char,
        ] + hex_lower(data.drop_first())
    }
}

/// `c` is one of the lowercase hex digits `0`-`9`, `a`-`f`.
pub open spec fn is_lower_hex_digit(c: char) -> bool {
    ('0' <= c && c <= '9') || ('a' <= c && c <= 'f')
}

/// Hex text has two digits per byte, each a lowercase hex digit.
pub proof fn lemma_hex_lower_digits(data: Seq<u8>)
    ensures
        hex_lower(data).len() == 2 * data.len(),
        forall|i: int| 0 <= i < hex_lower(data).len() ==> is_lower_hex_digit(#[trigger] hex_lower(data)[i]),
    decreases data.len(),
{
    if data.len() > 0 {
        lemma_hex_lower_digits(data.drop_first());
        let head = seq![
            hex_digit_byte((data[0] / 16) as nat) as char,
            hex_digit_byte((data[0] % 16) as nat) as char,
        ];
        assert(hex_lower(data) == head + hex_lower(data.drop_first()));
        assert forall|i: int| 0 <= i < hex_lower(data).len() implies is_lower_hex_digit(
            #[trigger] hex_lower(data)[i],
        ) by {
            if i >= 2 {
                assert(hex_lower(data)[i] == hex_lower(data.drop_first())[i - 2]);
            }
        }
    }
}

/// `hex::encode` from the `hex` crate: each byte of `data` as two
/// lowercase hex digits, high nibble first (the crate's `encode` uses its
/// lowercase alphabet `0123456789abcdef`).
#[verifier::external_body]
pub(crate) fn hex_encode(data: &[u8]) -> (text: String)
    ensures
        text@ == hex_lower(data@),
{
    hex::encode(data)
}

/// The bytes by which a JSON string literal stands for the character `c`.
pub open spec fn json_char(c: char) -> Seq<u8> {
    if c == '"' {
        seq![92u8, 34u8]
    } else if c == '\\' {
        seq![92u8, 92u8]
    } else if c == '\x08' {
        seq![92u8, 98u8]
    } else if c == '\t' {
        seq![92u8, 116u8]
    } else if c == '\n' {
        seq![92u8, 110u8]
    } else if c == '\x0c' {
        seq![92u8, 102u8]
    } else if c == '\r' {
        seq![92u8, 114u8]
    } else if (c as u32) < 32 {
        seq![
            92u8,
            117u8,
            48u8,
            48u8,
            hex_digit_byte((c as u32 / 16) as nat),
            hex_digit_byte((c as u32 % 16) as nat),
        ]
    } else {
        encode_utf8(seq![c])
    }
}

/// The escaped body of a JSON string literal for `s`.
pub open spec fn json_chars(s: Seq<char>) -> Seq<u8>
    decreases s.len(),
{
    if s.len() == 0 {
        seq![]
    } else {
        json_char(s[0]) + json_chars(s.drop_first())
    }
}

/// The JSON string literal for `s`: in double quotes, with `"` and `\`
/// escaped by a backslash, the control characters that have a short escape
/// (`\b \t \n \f \r`) written so, the other characters below
/// U+0020 written as `\u00` and two lowercase hex digits, and every other
/// character as its UTF-8 bytes.
pub open spec fn json_string(s: Seq<char>) -> Seq<u8> {
    seq![34u8] + json_chars(s) + seq![34u8]
}

/// `serde_json::to_vec` applied to a `str`: the JSON string literal for
/// `text`. The crate's `format_escaped_str` writes the opening quote, each
/// run of unescaped bytes unchanged, each byte that its `ESCAPE` table marks
/// as its escape sequence (`\"`, `\\`, `\b`, `\t`, `\n`,
/// `\f`, `\r`, or `\u00` with two digits from `0123456789abcdef`), and
/// the closing quote. Only bytes below 0x80 are ever escaped, so the
/// characters from U+0080 up pass through as their UTF-8 bytes. Writing into
/// a `Vec` cannot fail, so the `Err` arm is never taken.
#[verifier::external_body]
pub(crate) fn json_string_bytes(text: &str) -> (bytes: Vec<u8>)
    ensures
        bytes@ == json_string(text@),
{
    match serde_json::to_vec(text) {
        Ok(bytes) => bytes,
        Err(_) => Vec::new(),
    }
}

/// How many quote bytes of `bytes` no backslash escapes, scanning from a
/// point that does (`escaped`) or does not follow an escaping backslash.
pub open spec fn unescaped_quotes(bytes: Seq<u8>, escaped: bool) -> nat
    decreases bytes.len(),
{
    if bytes.len() == 0 {
        0
    } else if escaped {
        unescaped_quotes(bytes.drop_first(), false)
    } else if bytes[0] == 92 {
        unescaped_quotes(bytes.drop_first(), true)
    } else if bytes[0] == 34 {
        1 + unescaped_quotes(bytes.drop_first(), false)
    } else {
        unescaped_quotes(bytes.drop_first(), false)
    }
}

/// Whether a backslash at the end of `bytes` is left waiting for the
/// character it escapes, scanning as [`unescaped_quotes`] does.
pub open spec fn escape_pending(bytes: Seq<u8>, escaped: bool) -> bool
    decreases bytes.len(),
{
    if bytes.len() == 0 {
        escaped
    } else if escaped {
        escape_pending(bytes.drop_first(), false)
    } else if bytes[0] == 92 {
        escape_pending(bytes.drop_first(), true)
    } else {
        escape_pending(bytes.drop_first(), false)
    }
}

/// `bytes` is JSON text in which `quotes` quote bytes are not escaped,
/// no escape is left pending at the end, and no byte is a raw control
/// character.
pub open spec fn json_text(bytes: Seq<u8>, quotes: nat) -> bool {
    &&& unescaped_quotes(bytes, false) == quotes
    &&& !escape_pending(bytes, false)
    &&& forall|i: int| 0 <= i < bytes.len() ==> bytes[i] >= 0x20
}

proof fn lemma_scan_concat(a: Seq<u8>, b: Seq<u8>, escaped: bool)
    ensures
        unescaped_quotes(a + b, escaped) == unescaped_quotes(a, escaped) + unescaped_quotes(
            b,
            escape_pending(a, escaped),
        ),
        escape_pending(a + b, escaped) == escape_pending(b, escape_pending(a, escaped)),
    decreases a.len(),
{
    if a.len() == 0 {
        assert(a + b == b);
    } else {
        assert((a + b).drop_first() == a.drop_first() + b);
        assert((a + b)[0] == a[0]);
        lemma_scan_concat(a.drop_first(), b, false);
        lemma_scan_concat(a.drop_first(), b, true);
    }
}

/// JSON text followed by JSON text is JSON text with the quotes of both.
pub proof fn lemma_json_text_concat(a: Seq<u8>, qa: nat, b: Seq<u8>, qb: nat)
    requires
        json_text(a, qa),
        json_text(b, qb),
    ensures
        json_text(a + b, qa + qb),
{
    lemma_scan_concat(a, b, false);
    assert forall|i: int| 0 <= i < (a + b).len() implies (a + b)[i] >= 0x20 by {
        if i >= a.len() {
            assert((a + b)[i] == b[i - a.len()]);
        }
    }
}

/// Bytes with no quote, no backslash and no control character are JSON
/// text without quotes.
pub proof fn lemma_plain_json_text(bytes: Seq<u8>)
    requires
        forall|i: int| 0 <= i < bytes.len() ==> bytes[i] != 34 && bytes[i] != 92 && bytes[i] >= 0x20,
    ensures
        json_text(bytes, 0),
    decreases bytes.len(),
{
    if bytes.len() > 0 {
        lemma_plain_json_text(bytes.drop_first());
    }
}

/// The UTF-8 bytes of a character from U+0020 up that is neither `"` nor
/// `\` are JSON text without quotes.
proof fn lemma_plain_char_json_text(c: char)
    requires
        c as u32 >= 0x20,
        c != '"',
        c != '\\',
    ensures
        json_text(encode_utf8(seq![c]), 0),
{
    let v = c as u32;
    assert(encode_utf8(seq![c]) == encode_scalar(v) + encode_utf8(seq![c].drop_first()));
    assert(seq![c].drop_first() == Seq::<char>::empty());
    assert(encode_scalar(v) + encode_utf8(Seq::<char>::empty()) == encode_scalar(v));
    let bytes = encode_scalar(v);
    if has_width_1_encoding(v) {
        assert(((v & 0x7F) as u8) as u32 == v) by (bit_vector)
            requires
                v <= 0x7F,
        ;
        assert(bytes == seq![leading_byte_width_1(v)]);
        assert(v != 34 && v != 92);
    } else if has_width_2_encoding(v) {
        assert(leading_byte_width_2(v) >= 0x80 && last_continuation_byte(v) >= 0x80) by (bit_vector);
    } else if has_width_3_encoding(v) {
        assert(leading_byte_width_3(v) >= 0x80 && second_last_continuation_byte(v) >= 0x80
            && last_continuation_byte(v) >= 0x80) by (bit_vector);
    } else {
        assert(leading_byte_width_4(v) >= 0x80 && third_last_continuation_byte(v) >= 0x80
            && second_last_continuation_byte(v) >= 0x80 && last_continuation_byte(v) >= 0x80)
            by (bit_vector);
    }
    lemma_plain_json_text(bytes);
}

/// The bytes that stand for one character in a JSON string literal are
/// JSON text without unescaped quotes.
pub proof fn lemma_json_char_json_text(c: char)
    ensures
        json_text(json_char(c), 0),
{
    reveal_with_fuel(unescaped_quotes, 8);
    reveal_with_fuel(escape_pending, 8);
    if c == '"' || c == '\\' || c == '\x08' || c == '\t' || c == '\n' || c == '\x0c' || c == '\r' {
    } else if (c as u32) < 32 {
        let h1 = hex_digit_byte((c as u32 / 16) as nat);
        let h2 = hex_digit_byte((c as u32 % 16) as nat);
        assert(json_char(c) == seq![92u8, 117u8] + seq![48u8, 48u8, h1, h2]);
        lemma_plain_json_text(seq![48u8, 48u8, h1, h2]);
        lemma_scan_concat(seq![92u8, 117u8], seq![48u8, 48u8, h1, h2], false);
    } else {
        lemma_plain_char_json_text(c);
    }
}

/// The escaped body of a JSON string literal is JSON text without
/// unescaped quotes.
pub proof fn lemma_json_chars_json_text(s: Seq<char>)
    ensures
        json_text(json_chars(s), 0),
    decreases s.len(),
{
    if s.len() > 0 {
        lemma_json_char_json_text(s[0]);
        lemma_json_chars_json_text(s.drop_first());
        lemma_json_text_concat(json_char(s[0]), 0, json_chars(s.drop_first()), 0);
    }
}

/// A JSON string literal opens and closes with a quote, and those two are
/// its only quotes that no backslash escapes; no escape is left pending
/// and no byte is a raw control character.
pub proof fn lemma_json_string_well_formed(s: Seq<char>)
    ensures
        json_text(json_string(s), 2),
        json_string(s)[0] == 34,
        json_string(s).last() == 34,
{
    reveal_with_fuel(unescaped_quotes, 2);
    reveal_with_fuel(escape_pending, 2);
    lemma_json_chars_json_text(s);
    lemma_json_text_concat(seq![34u8], 1, json_chars(s), 0);
    lemma_json_text_concat(seq![34u8] + json_chars(s), 1, seq![34u8], 1);
}

/// The SHA-256 digest of `data`.
pub uninterp spec fn sha256(data: Seq<u8>) -> Seq<u8>;

/// The SHA-256 digest of `data`, from the `sha2` crate (`Sha256::new`,
/// `update`, `finalize`). The digest is a function of `data` alone and is
/// 32 bytes long (the output size of `Sha256`).
#[verifier::external_body]
pub(crate) fn sha256_digest(data: &[u8]) -> (digest: Vec<u8>)
    ensures
        digest@ == sha256(data@),
        digest@.len() == 32,
{
    let mut hasher = Sha256::new();
    hasher.update(data);
    hasher.finalize().to_vec()
}

} // verus!
