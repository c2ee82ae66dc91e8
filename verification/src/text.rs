//! Base64 text and the bytes it stands for.

use base64::engine::general_purpose::{STANDARD, STANDARD_NO_PAD, URL_SAFE, URL_SAFE_NO_PAD};
use base64::{DecodeError, Engine};
use vstd::prelude::*;

verus! {

/// The error of a failed base64 decoding.
#[verifier::external_type_specification]
#[verifier::external_body]
pub struct ExDecodeError(base64::DecodeError);

/// The characters that have the Unicode property `White_Space`.
pub open spec fn is_white_space(c: char) -> bool {
    let code = c as u32;
    ||| 0x09 <= code <= 0x0d
    ||| code == 0x20
    ||| code == 0x85
    ||| code == 0xa0
    ||| code == 0x1680
    ||| 0x2000 <= code <= 0x200a
    ||| code == 0x2028
    ||| code == 0x2029
    ||| code == 0x202f
    ||| code == 0x205f
    ||| code == 0x3000
}

/// The text without the white space at its two ends.
pub open spec fn trimmed(text: Seq<char>) -> Seq<char>
    decreases text.len(),
{
    if text.len() == 0 {
        text
    } else if is_white_space(text.first()) {
        trimmed(text.drop_first())
    } else if is_white_space(text.last()) {
        trimmed(text.drop_last())
    } else {
        text
    }
}

/// `std`'s `str::trim`: the text without leading and trailing white space.
pub assume_specification[ str::trim ](s: &str) -> (res: &str)
    ensures
        res@ == trimmed(s@),
;

/// The base64 alphabets of RFC 4648.
pub enum Alphabet {
    /// With `+` and `/`.
    Standard,
    /// With `-` and `_` in their place.
    UrlSafe,
}

/// Whether the last four characters of a base64 text are filled up with `=`.
pub enum Padding {
    Canonical,
    Absent,
}

/// The character that stands for the six bits `v`.
pub open spec fn symbol(v: int, alphabet: Alphabet) -> char {
    if v < 26 {
        (65 + v) as char
    } else if v < 52 {
        (97 + (v - 26)) as char
    } else if v < 62 {
        (48 + (v - 52)) as char
    } else if v == 62 {
        match alphabet {
            Alphabet::Standard => '+',
            Alphabet::UrlSafe => '-',
        }
    } else {
        match alphabet {
            Alphabet::Standard => '/',
            Alphabet::UrlSafe => '_',
        }
    }
}

/// The padding, where `n` characters are wanting.
pub open spec fn fill(padding: Padding, n: nat) -> Seq<char> {
    match padding {
        Padding::Canonical => Seq::new(n, |i: int| '='),
        Padding::Absent => Seq::empty(),
    }
}

/// The bytes in base64 (RFC 4648): each three bytes as four characters of six bits, the last
/// one or two bytes as two or three characters, filled up to four where padding is used.
pub open spec fn base64_text(bytes: Seq<u8>, alphabet: Alphabet, padding: Padding) -> Seq<char>
    decreases bytes.len(),
{
    let b = |i: int| bytes[i] as int;
    if bytes.len() == 0 {
        Seq::empty()
    } else if bytes.len() == 1 {
        seq![symbol(b(0) / 4, alphabet), symbol(b(0) % 4 * 16, alphabet)] + fill(padding, 2)
    } else if bytes.len() == 2 {
        seq![
            symbol(b(0) / 4, alphabet),
            symbol(b(0) % 4 * 16 + b(1) / 16, alphabet),
            symbol(b(1) % 16 * 4, alphabet),
        ] + fill(padding, 1)
    } else {
        seq![
            symbol(b(0) / 4, alphabet),
            symbol(b(0) % 4 * 16 + b(1) / 16, alphabet),
            symbol(b(1) % 16 * 4 + b(2) / 64, alphabet),
            symbol(b(2) % 64, alphabet),
        ] + base64_text(bytes.skip(3), alphabet, padding)
    }
}

/// The text is the base64 form of `bytes`.
pub open spec fn encodes(
    text: Seq<char>,
    bytes: Seq<u8>,
    alphabet: Alphabet,
    padding: Padding,
) -> bool {
    text == base64_text(bytes, alphabet, padding)
}

/// `r` is what decoding `text` gives: the bytes whose base64 form it is, if there are any.
pub open spec fn is_decoding(
    r: Result<Vec<u8>, DecodeError>,
    text: Seq<char>,
    alphabet: Alphabet,
    padding: Padding,
) -> bool {
    match r {
        Ok(bytes) => encodes(text, bytes@, alphabet, padding),
        Err(_) => forall|bytes: Seq<u8>| !encodes(text, bytes, alphabet, padding),
    }
}

/// `base64`'s `Engine::decode` of the engine `STANDARD`: the standard alphabet, with
/// canonical padding. It succeeds exactly on what encoding some bytes gives, with those
/// bytes.
#[verifier::external_body]
fn decode_standard(text: &str) -> (r: Result<Vec<u8>, DecodeError>)
    ensures
        is_decoding(r, text@, Alphabet::Standard, Padding::Canonical),
{
    STANDARD.decode(text)
}

/// `base64`'s `Engine::decode` of the engine `STANDARD_NO_PAD`: the standard alphabet,
/// without padding. It succeeds exactly on what encoding some bytes gives, with those bytes.
#[verifier::external_body]
fn decode_standard_no_pad(text: &str) -> (r: Result<Vec<u8>, DecodeError>)
    ensures
        is_decoding(r, text@, Alphabet::Standard, Padding::Absent),
{
    STANDARD_NO_PAD.decode(text)
}

/// `base64`'s `Engine::decode` of the engine `URL_SAFE`: the URL-safe alphabet, with
/// canonical padding. It succeeds exactly on what encoding some bytes gives, with those
/// bytes.
#[verifier::external_body]
fn decode_url_safe(text: &str) -> (r: Result<Vec<u8>, DecodeError>)
    ensures
        is_decoding(r, text@, Alphabet::UrlSafe, Padding::Canonical),
{
    URL_SAFE.decode(text)
}

/// `base64`'s `Engine::decode` of the engine `URL_SAFE_NO_PAD`: the URL-safe alphabet,
/// without padding. It succeeds exactly on what encoding some bytes gives, with those bytes.
#[verifier::external_body]
fn decode_url_safe_no_pad(text: &str) -> (r: Result<Vec<u8>, DecodeError>)
    ensures
        is_decoding(r, text@, Alphabet::UrlSafe, Padding::Absent),
{
    URL_SAFE_NO_PAD.decode(text)
}

/// The text is a base64 form of `bytes`: in either alphabet, with padding or without.
pub open spec fn is_base64_of(text: Seq<char>, bytes: Seq<u8>) -> bool {
    exists|alphabet: Alphabet, padding: Padding| encodes(text, bytes, alphabet, padding)
}

/// The six bits that a character stands for, in either alphabet.
spec fn symbol_value(c: char) -> int {
    let code = c as int;
    if 65 <= code <= 90 {
        code - 65
    } else if 97 <= code <= 122 {
        code - 97 + 26
    } else if 48 <= code <= 57 {
        code - 48 + 52
    } else if c == '+' || c == '-' {
        62
    } else {
        63
    }
}

/// A symbol stands for one value only, and is not the padding character.
proof fn lemma_symbol(v: int, alphabet: Alphabet)
    requires
        0 <= v < 64,
    ensures
        symbol_value(symbol(v, alphabet)) == v,
        symbol(v, alphabet) != '=',
{
}

/// The first byte that the first two of some characters spell, the second, the third.
spec fn first_byte(t: Seq<char>) -> int {
    symbol_value(t[0]) * 4 + symbol_value(t[1]) / 16
}

spec fn second_byte(t: Seq<char>) -> int {
    symbol_value(t[1]) % 16 * 16 + symbol_value(t[2]) / 4
}

spec fn third_byte(t: Seq<char>) -> int {
    symbol_value(t[2]) % 4 * 64 + symbol_value(t[3])
}

/// What the front of a base64 text says of the bytes: how many there are, up to three, and
/// which.
proof fn lemma_base64_front(bytes: Seq<u8>, alphabet: Alphabet, padding: Padding)
    ensures
        ({
            let t = base64_text(bytes, alphabet, padding);
            &&& bytes.len() == 0 ==> t.len() == 0
            &&& bytes.len() == 1 ==> (t.len() == 2 || t.len() == 4 && t[2] == '=')
            &&& bytes.len() == 2 ==> (t.len() == 3 || t.len() == 4 && t[2] != '=' && t[3] == '=')
            &&& bytes.len() >= 3 ==> t.len() >= 4 && t[2] != '=' && t[3] != '='
            &&& bytes.len() >= 1 ==> bytes[0] == first_byte(t)
            &&& bytes.len() >= 2 ==> bytes[1] == second_byte(t)
            &&& bytes.len() >= 3 ==> bytes[2] == third_byte(t)
            &&& bytes.len() >= 3 ==> t.skip(4) == base64_text(bytes.skip(3), alphabet, padding)
        }),
{
    let t = base64_text(bytes, alphabet, padding);
    if bytes.len() >= 1 {
        let b0 = bytes[0] as int;
        let b1 = if bytes.len() >= 2 { bytes[1] as int } else { 0 };
        let b2 = if bytes.len() >= 3 { bytes[2] as int } else { 0 };
        lemma_symbol(b0 / 4, alphabet);
        lemma_symbol(b0 % 4 * 16 + b1 / 16, alphabet);
        lemma_symbol(b1 % 16 * 4 + b2 / 64, alphabet);
        lemma_symbol(b2 % 64, alphabet);
        if bytes.len() >= 3 {
            assert(t.skip(4) =~= base64_text(bytes.skip(3), alphabet, padding));
        }
    }
}

/// Two base64 texts that are equal spell the same bytes, whichever alphabets and paddings
/// they are in.
proof fn lemma_base64_equal(
    a: Seq<u8>,
    a_alphabet: Alphabet,
    a_padding: Padding,
    b: Seq<u8>,
    b_alphabet: Alphabet,
    b_padding: Padding,
)
    requires
        base64_text(a, a_alphabet, a_padding) == base64_text(b, b_alphabet, b_padding),
    ensures
        a == b,
    decreases a.len(),
{
    lemma_base64_front(a, a_alphabet, a_padding);
    lemma_base64_front(b, b_alphabet, b_padding);
    if a.len() >= 3 && b.len() >= 3 {
        lemma_base64_equal(a.skip(3), a_alphabet, a_padding, b.skip(3), b_alphabet, b_padding);
        assert(a =~= seq![a[0], a[1], a[2]] + a.skip(3));
        assert(b =~= seq![b[0], b[1], b[2]] + b.skip(3));
    } else {
        assert(a =~= b);
    }
}

/// A text is a base64 form of at most one sequence of bytes: it does not matter in which
/// order the alphabets and paddings are tried.
pub proof fn lemma_base64_injective(text: Seq<char>, a: Seq<u8>, b: Seq<u8>)
    requires
        is_base64_of(text, a),
        is_base64_of(text, b),
    ensures
        a == b,
{
    let (u, p) = choose|u: Alphabet, p: Padding| encodes(text, a, u, p);
    let (v, q) = choose|v: Alphabet, q: Padding| encodes(text, b, v, q);
    lemma_base64_equal(a, u, p, b, v, q);
}

/// Decodes base64 text: in either alphabet, with padding or without.
pub fn decode_base64(text: &str) -> (r: Option<Vec<u8>>)
    ensures
        match r {
            Some(bytes) => is_base64_of(text@, bytes@),
            None => forall|bytes: Seq<u8>| !is_base64_of(text@, bytes),
        },
{
    if let Ok(bytes) = decode_standard(text) {
        assert(is_base64_of(text@, bytes@));
        return Some(bytes);
    }
    if let Ok(bytes) = decode_standard_no_pad(text) {
        assert(is_base64_of(text@, bytes@));
        return Some(bytes);
    }
    if let Ok(bytes) = decode_url_safe(text) {
        assert(is_base64_of(text@, bytes@));
        return Some(bytes);
    }
    if let Ok(bytes) = decode_url_safe_no_pad(text) {
        assert(is_base64_of(text@, bytes@));
        return Some(bytes);
    }
    None
}

} // verus!
