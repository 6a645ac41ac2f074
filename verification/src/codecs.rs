//! Encodings and Unicode tables that other crates and the standard library supply.

use base64::Engine;
use vstd::prelude::*;
use vstd::utf8::{
    char_is_scalar, char_u32_cast, decode_utf8, encode_scalar, encode_utf8, encode_utf8_decode_utf8,
    encode_utf8_valid_utf8, is_ascii_chars, is_scalar, valid_utf8,
};

use crate::text::lowered;

verus! {

// ---------------------------------------------------------------------------
// Base64

/// The character of the standard Base64 alphabet that stands for `v`.
pub open spec fn base64_char(v: int) -> char {
    if v < 26 {
        ('A' as int + v) as char
    } else if v < 52 {
        ('a' as int + v - 26) as char
    } else if v < 62 {
        ('0' as int + v - 52) as char
    } else if v == 62 {
        '+'
    } else {
        '/'
    }
}

/// The standard, padded Base64 form of `b`: four characters for three bytes, six bits to each.
pub open spec fn base64_text(b: Seq<u8>) -> Seq<char>
    decreases b.len(),
{
    let x = b[0] as int;
    let y = b[1] as int;
    let z = b[2] as int;
    if b.len() == 0 {
        seq![]
    } else if b.len() == 1 {
        seq![base64_char(x / 4), base64_char((x % 4) * 16), '=', '=']
    } else if b.len() == 2 {
        seq![
            base64_char(x / 4),
            base64_char((x % 4) * 16 + y / 16),
            base64_char((y % 16) * 4),
            '=',
        ]
    } else {
        seq![
            base64_char(x / 4),
            base64_char((x % 4) * 16 + y / 16),
            base64_char((y % 16) * 4 + z / 64),
            base64_char(z % 64),
        ] + base64_text(b.skip(3))
    }
}

/// What the standard, padded Base64 text `text` stands for, if it is such a text.
pub open spec fn base64_bytes(text: Seq<char>) -> Option<Seq<u8>> {
    if exists|b: Seq<u8>| #[trigger] base64_text(b) == text {
        Some(choose|b: Seq<u8>| #[trigger] base64_text(b) == text)
    } else {
        None
    }
}

/// A character of the standard Base64 alphabet, or its padding.
pub open spec fn is_base64_char(c: char) -> bool {
    'A' <= c <= 'Z' || 'a' <= c <= 'z' || '0' <= c <= '9' || c == '+' || c == '/' || c == '='
}

/// Calls `encode` of `base64::engine::general_purpose::STANDARD`, which writes the standard
/// alphabet with padding.
#[verifier::external_body]
pub(crate) fn base64_encode(bytes: &[u8]) -> (r: String)
    ensures
        r@ == base64_text(bytes@),
{
    base64::engine::general_purpose::STANDARD.encode(bytes)
}

/// Calls `decode` of `base64::engine::general_purpose::STANDARD`, which takes what `encode` writes
/// and nothing else: padding must be there, and the bits that it leaves over must be zero. `None`
/// stands for its error.
#[verifier::external_body]
pub(crate) fn base64_decode(text: &str) -> (r: Option<Vec<u8>>)
    ensures
        match r {
            Some(v) => base64_text(v@) == text@,
            None => forall|b: Seq<u8>| #[trigger] base64_text(b) != text@,
        },
{
    base64::engine::general_purpose::STANDARD.decode(text).ok()
}

/// The characters of the alphabet are different ones, and none is the padding.
proof fn lemma_base64_char(v: int, w: int)
    requires
        0 <= v < 64,
        0 <= w < 64,
    ensures
        base64_char(v) == base64_char(w) ==> v == w,
        base64_char(v) != '=',
        is_base64_char(base64_char(v)),
{
}

/// A Base64 text holds nothing but the alphabet and its padding.
pub proof fn law_base64_alphabet(b: Seq<u8>)
    ensures
        forall|i: int| 0 <= i < base64_text(b).len() ==> is_base64_char(#[trigger] base64_text(b)[i]),
    decreases b.len(),
{
    let t = base64_text(b);
    if b.len() > 0 {
        lemma_base64_char((b[0] as int) / 4, ((b[0] as int) % 4) * 16);
    }
    if b.len() > 1 {
        lemma_base64_char(((b[0] as int) % 4) * 16 + (b[1] as int) / 16, ((b[1] as int) % 16) * 4);
    }
    if b.len() > 2 {
        lemma_base64_char(((b[1] as int) % 16) * 4 + (b[2] as int) / 64, (b[2] as int) % 64);
        let rest = base64_text(b.skip(3));
        law_base64_alphabet(b.skip(3));
        assert forall|i: int| 0 <= i < t.len() implies is_base64_char(#[trigger] t[i]) by {
            if i >= 4 {
                assert(t[i] == rest[i - 4]);
            }
        }
    }
}

/// The byte `i` of `b`, or zero behind its end.
spec fn byte_at(b: Seq<u8>, i: int) -> int {
    if i < b.len() {
        b[i] as int
    } else {
        0
    }
}

/// The first four characters of a Base64 text, and where the padding begins.
proof fn lemma_base64_quad(b: Seq<u8>)
    requires
        b.len() > 0,
    ensures
        ({
            let t = base64_text(b);
            let x = byte_at(b, 0);
            let y = byte_at(b, 1);
            let z = byte_at(b, 2);
            &&& t.len() >= 4
            &&& t[0] == base64_char(x / 4)
            &&& t[1] == base64_char((x % 4) * 16 + y / 16)
            &&& b.len() > 1 ==> t[2] == base64_char((y % 16) * 4 + z / 64)
            &&& b.len() > 2 ==> t[3] == base64_char(z % 64)
            &&& b.len() == 1 <==> t[2] == '='
            &&& b.len() <= 2 <==> t[3] == '='
        }),
{
    let x = byte_at(b, 0);
    let y = byte_at(b, 1);
    let z = byte_at(b, 2);
    lemma_base64_char((y % 16) * 4 + z / 64, z % 64);
    lemma_base64_char(z % 64, z % 64);
    if b.len() == 1 {
        assert((x % 4) * 16 + y / 16 == (x % 4) * 16);
    } else if b.len() == 2 {
        assert((y % 16) * 4 + z / 64 == (y % 16) * 4);
    }
}

/// Three bytes come back from their bits in groups of six.
proof fn lemma_bits(x: int, y: int, z: int, u: int, v: int, w: int)
    requires
        0 <= x < 256,
        0 <= y < 256,
        0 <= z < 256,
        0 <= u < 256,
        0 <= v < 256,
        0 <= w < 256,
        x / 4 == u / 4,
        (x % 4) * 16 + y / 16 == (u % 4) * 16 + v / 16,
    ensures
        x == u,
        y / 16 == v / 16,
        (y % 16) * 4 + z / 64 == (v % 16) * 4 + w / 64 ==> y == v && z / 64 == w / 64,
        (y % 16) * 4 + z / 64 == (v % 16) * 4 + w / 64 && z % 64 == w % 64 ==> z == w,
{
}

/// Texts that are the same stand for the same first bytes.
proof fn lemma_base64_first(a: Seq<u8>, b: Seq<u8>)
    requires
        a.len() > 0,
        b.len() > 0,
        base64_text(a) == base64_text(b),
    ensures
        b.len() == 1 <==> a.len() == 1,
        b.len() == 2 <==> a.len() == 2,
        forall|i: int| 0 <= i < 3 && i < a.len() ==> #[trigger] a[i] == b[i],
{
    lemma_base64_quad(a);
    lemma_base64_quad(b);
    let x = byte_at(a, 0);
    let y = byte_at(a, 1);
    let z = byte_at(a, 2);
    let u = byte_at(b, 0);
    let v = byte_at(b, 1);
    let w = byte_at(b, 2);
    lemma_base64_char(x / 4, u / 4);
    lemma_base64_char((x % 4) * 16 + y / 16, (u % 4) * 16 + v / 16);
    lemma_base64_char((y % 16) * 4 + z / 64, (v % 16) * 4 + w / 64);
    lemma_base64_char(z % 64, w % 64);
    lemma_bits(x, y, z, u, v, w);
    assert(a[0] == b[0]);
}

/// Different bytes have different Base64 texts.
pub proof fn law_base64_tells_bytes_apart(a: Seq<u8>, b: Seq<u8>)
    requires
        base64_text(a) == base64_text(b),
    ensures
        a == b,
    decreases a.len(),
{
    if a.len() == 0 || b.len() == 0 {
        if b.len() > 0 {
            lemma_base64_quad(b);
        }
        if a.len() > 0 {
            lemma_base64_quad(a);
        }
        assert(a == b);
    } else {
        lemma_base64_first(a, b);
        if a.len() > 2 {
            let s = base64_text(a);
            let t = base64_text(b);
            assert(s.skip(4) == base64_text(a.skip(3)));
            assert(t.skip(4) == base64_text(b.skip(3)));
            law_base64_tells_bytes_apart(a.skip(3), b.skip(3));
            assert(a == seq![a[0], a[1], a[2]] + a.skip(3));
            assert(b == seq![b[0], b[1], b[2]] + b.skip(3));
        } else {
            assert(a == b);
        }
    }
}

/// What was written in Base64 is read back.
pub proof fn law_base64_round_trip(b: Seq<u8>)
    ensures
        base64_bytes(base64_text(b)) == Some(b),
{
    let t = base64_text(b);
    let c = choose|c: Seq<u8>| #[trigger] base64_text(c) == t;
    law_base64_tells_bytes_apart(c, b);
}

/// Reads a Base64 text.
pub fn read_base64(text: &str) -> (r: Option<Vec<u8>>)
    ensures
        r is Some == base64_bytes(text@) is Some,
        r matches Some(v) ==> base64_bytes(text@) == Some(v@),
{
    match base64_decode(text) {
        Some(v) => {
            proof {
                law_base64_round_trip(v@);
            }
            Some(v)
        },
        None => None,
    }
}

// ---------------------------------------------------------------------------
// Addresses

/// The value of a digit in base sixteen.
pub open spec fn hex_value(b: u8) -> Option<u8> {
    if 48 <= b <= 57 {
        Some((b - 48) as u8)
    } else if 65 <= b <= 70 {
        Some((b - 55) as u8)
    } else if 97 <= b <= 102 {
        Some((b - 87) as u8)
    } else {
        None
    }
}

/// `b` with every percent sign that two digits in base sixteen follow replaced, with them, by the
/// byte that they give.
pub open spec fn escapes_decoded(b: Seq<u8>) -> Seq<u8>
    decreases b.len(),
{
    if b.len() == 0 {
        seq![]
    } else if b.len() >= 3 && b[0] == 37 && hex_value(b[1]) is Some && hex_value(b[2]) is Some {
        let byte = (16 * hex_value(b[1])->0 + hex_value(b[2])->0) as u8;
        seq![byte] + escapes_decoded(b.skip(3))
    } else {
        seq![b[0]] + escapes_decoded(b.skip(1))
    }
}

/// `text` with its percent escapes decoded, if the result is UTF-8.
pub open spec fn percent_decoded(text: Seq<char>) -> Option<Seq<char>> {
    let bytes = escapes_decoded(encode_utf8(text));
    if valid_utf8(bytes) {
        Some(decode_utf8(bytes))
    } else {
        None
    }
}

/// Calls `urlencoding::decode`, which decodes the escapes and reads the bytes as UTF-8; `None`
/// stands for its error, that they are none.
#[verifier::external_body]
pub(crate) fn percent_decode(text: &str) -> (r: Option<String>)
    ensures
        r is Some == percent_decoded(text@) is Some,
        r matches Some(s) ==> percent_decoded(text@) == Some(s@),
{
    urlencoding::decode(text).ok().map(|s| s.into_owned())
}

/// Bytes with the high bit are none of ASCII.
proof fn lemma_high_bytes(x: u8)
    by (bit_vector)
    ensures
        0x80u8 | x >= 0x80u8,
        0xc0u8 | x >= 0x80u8,
        0xe0u8 | x >= 0x80u8,
        0xf0u8 | x >= 0x80u8,
{
}

/// The first byte of an ASCII character is the character.
proof fn lemma_ascii_byte(c: u32)
    by (bit_vector)
    requires
        c <= 0x7f,
    ensures
        (c & 0x7f) as u8 == c,
{
}

/// A character that is no percent sign has no byte that is one.
proof fn lemma_no_percent_in(c: u32)
    requires
        is_scalar(c),
        c != 37,
    ensures
        forall|i: int| 0 <= i < encode_scalar(c).len() ==> #[trigger] encode_scalar(c)[i] != 37,
{
    lemma_high_bytes((c & 0x3f) as u8);
    if c <= 0x7f {
        lemma_ascii_byte(c);
    } else if c <= 0x7ff {
        lemma_high_bytes(((c >> 6) & 0x1f) as u8);
    } else if c <= 0xffff {
        lemma_high_bytes(((c >> 6) & 0x3f) as u8);
        lemma_high_bytes(((c >> 12) & 0xf) as u8);
    } else {
        lemma_high_bytes(((c >> 6) & 0x3f) as u8);
        lemma_high_bytes(((c >> 12) & 0x3f) as u8);
        lemma_high_bytes(((c >> 18) & 0x7) as u8);
    }
}

/// A text without a percent sign has no byte that is one.
proof fn lemma_no_percent_byte(text: Seq<char>)
    requires
        !text.contains('%'),
    ensures
        forall|i: int| 0 <= i < encode_utf8(text).len() ==> #[trigger] encode_utf8(text)[i] != 37,
    decreases text.len(),
{
    if text.len() > 0 {
        let rest = text.drop_first();
        assert forall|i: int| 0 <= i < rest.len() implies #[trigger] rest[i] != '%' by {
            assert(rest[i] == text[i + 1]);
        }
        lemma_no_percent_byte(rest);
        assert(text[0] != '%');
        char_is_scalar(text[0]);
        char_u32_cast(text[0], text[0] as u32);
        assert(37u32 as char == '%');
        lemma_no_percent_in(text[0] as u32);
        let first = encode_scalar(text[0] as u32);
        let all = encode_utf8(text);
        assert forall|i: int| 0 <= i < all.len() implies #[trigger] all[i] != 37 by {
            if i < first.len() {
                assert(all[i] == first[i]);
            } else {
                assert(all[i] == encode_utf8(rest)[i - first.len()]);
            }
        }
    }
}

/// Bytes without a percent sign hold no escape.
proof fn lemma_no_escape(b: Seq<u8>)
    requires
        forall|i: int| 0 <= i < b.len() ==> #[trigger] b[i] != 37,
    ensures
        escapes_decoded(b) == b,
    decreases b.len(),
{
    if b.len() > 0 {
        let rest = b.skip(1);
        assert forall|i: int| 0 <= i < rest.len() implies #[trigger] rest[i] != 37 by {
            assert(rest[i] == b[i + 1]);
        }
        lemma_no_escape(rest);
        assert(b[0] != 37);
        assert(seq![b[0]] + rest == b);
    }
}

/// A text without a percent sign is its own decoding.
pub proof fn law_text_without_escapes_stays(text: Seq<char>)
    requires
        !text.contains('%'),
    ensures
        percent_decoded(text) == Some(text),
{
    lemma_no_percent_byte(text);
    lemma_no_escape(encode_utf8(text));
    encode_utf8_valid_utf8(text);
    encode_utf8_decode_utf8(text);
}

/// The path of the absolute address `url`, if it is one.
pub uninterp spec fn parsed_path(url: Seq<char>) -> Option<Seq<char>>;

/// Calls `reqwest::Url::parse` and `path` of what it gives; `None` stands for the parser's error.
#[verifier::external_body]
pub(crate) fn url_path(url: &str) -> (r: Option<String>)
    ensures
        r is Some == parsed_path(url@) is Some,
        r matches Some(s) ==> parsed_path(url@) == Some(s@),
{
    reqwest::Url::parse(url).ok().map(|u| u.path().to_string())
}

// ---------------------------------------------------------------------------
// Image formats

/// The image formats that the clipboard can embed, and the rest.
#[derive(Clone, Copy, Debug, PartialEq, Eq, Structural)]
pub enum ImageKind {
    /// Portable Network Graphics.
    Png,
    /// JPEG.
    Jpeg,
    /// Graphics Interchange Format.
    Gif,
    /// WebP.
    WebP,
    /// Windows bitmap.
    Bmp,
    /// A format that is known but not embedded.
    Other,
}

/// The bytes carry the mark of a WebP file: `RIFF`, four bytes of any value, `WEBP`.
pub open spec fn has_webp_mark(b: Seq<u8>) -> bool {
    seq![82u8, 73, 70, 70].is_prefix_of(b) && b.len() >= 12 && b.subrange(8, 12) == seq![
        87u8,
        69,
        66,
        80,
    ]
}

/// The embeddable format that the first bytes of an image tell.
pub open spec fn kind_by_mark(b: Seq<u8>) -> Option<ImageKind> {
    if seq![137u8, 80, 78, 71, 13, 10, 26, 10].is_prefix_of(b) {
        Some(ImageKind::Png)
    } else if seq![255u8, 216, 255].is_prefix_of(b) {
        Some(ImageKind::Jpeg)
    } else if is_gif(b) {
        Some(ImageKind::Gif)
    } else if has_webp_mark(b) {
        Some(ImageKind::WebP)
    } else if seq![66u8, 77].is_prefix_of(b) {
        Some(ImageKind::Bmp)
    } else {
        None
    }
}

/// The bytes begin with `GIF89a` or `GIF87a`.
pub open spec fn is_gif(b: Seq<u8>) -> bool {
    seq![71u8, 73, 70, 56, 57, 97].is_prefix_of(b) || seq![71u8, 73, 70, 56, 55, 97].is_prefix_of(b)
}

/// The bytes carry the mark of a format that is known but not embedded: TIFF, DDS, ICO, HDR, AVIF,
/// OpenEXR, QOI, PNM or farbfeld.
pub open spec fn has_other_mark(b: Seq<u8>) -> bool {
    ||| seq![77u8, 77, 0, 42].is_prefix_of(b)
    ||| seq![73u8, 73, 42, 0].is_prefix_of(b)
    ||| seq![68u8, 68, 83, 32].is_prefix_of(b)
    ||| seq![0u8, 0, 1, 0].is_prefix_of(b)
    ||| seq![35u8, 63, 82, 65, 68, 73, 65, 78, 67, 69].is_prefix_of(b)
    ||| b.len() >= 12 && b[0] == 0 && b[1] == 0 && b.subrange(4, 12) == seq![
        102u8,
        116,
        121,
        112,
        97,
        118,
        105,
        102,
    ]
    ||| seq![118u8, 47, 49, 1].is_prefix_of(b)
    ||| seq![113u8, 111, 105, 102].is_prefix_of(b)
    ||| b.len() >= 2 && b[0] == 80 && 49 <= b[1] <= 55
    ||| seq![102u8, 97, 114, 98, 102, 101, 108, 100].is_prefix_of(b)
}

/// Calls `image::guess_format`, which looks the first bytes up in a table of marks; `None` stands
/// for its error.
#[verifier::external_body]
pub(crate) fn guess_format(bytes: &[u8]) -> (r: Option<ImageKind>)
    ensures
        match kind_by_mark(bytes@) {
            Some(k) => r == Some(k),
            None => if has_other_mark(bytes@) {
                r == Some(ImageKind::Other)
            } else {
                r is None
            },
        },
{
    match image::guess_format(bytes) {
        Ok(image::ImageFormat::Png) => Some(ImageKind::Png),
        Ok(image::ImageFormat::Jpeg) => Some(ImageKind::Jpeg),
        Ok(image::ImageFormat::Gif) => Some(ImageKind::Gif),
        Ok(image::ImageFormat::WebP) => Some(ImageKind::WebP),
        Ok(image::ImageFormat::Bmp) => Some(ImageKind::Bmp),
        Ok(_) => Some(ImageKind::Other),
        Err(_) => None,
    }
}

// ---------------------------------------------------------------------------
// Text in bytes

/// What `bytes` read as, with ill-formed UTF-8 replaced.
pub uninterp spec fn lossy_utf8(bytes: Seq<u8>) -> Seq<char>;

/// Calls `String::from_utf8_lossy`. Well-formed UTF-8 is read as what it is.
#[verifier::external_body]
pub(crate) fn utf8_lossy(bytes: &[u8]) -> (r: String)
    ensures
        r@ == lossy_utf8(bytes@),
        valid_utf8(bytes@) ==> r@ == decode_utf8(bytes@),
{
    String::from_utf8_lossy(bytes).into_owned()
}

/// What `bytes` read as: what they are where they are well-formed UTF-8, and else with what is
/// ill-formed replaced.
pub open spec fn utf8_read(bytes: Seq<u8>) -> Seq<char> {
    if valid_utf8(bytes) {
        decode_utf8(bytes)
    } else {
        lossy_utf8(bytes)
    }
}

/// The first half of a pair that stands for one character in UTF-16.
pub open spec fn is_high_half(u: u16) -> bool {
    0xd800 <= u <= 0xdbff
}

/// The second half of a pair that stands for one character in UTF-16.
pub open spec fn is_low_half(u: u16) -> bool {
    0xdc00 <= u <= 0xdfff
}

/// What `units` read as in UTF-16, with each half that has no partner replaced.
pub open spec fn utf16_read(units: Seq<u16>) -> Seq<char>
    decreases units.len(),
{
    if units.len() == 0 {
        seq![]
    } else if is_high_half(units[0]) && units.len() > 1 && is_low_half(units[1]) {
        let c = (0x10000 + (units[0] - 0xd800) * 0x400 + (units[1] - 0xdc00)) as char;
        seq![c] + utf16_read(units.skip(2))
    } else if is_high_half(units[0]) || is_low_half(units[0]) {
        seq!['\u{fffd}'] + utf16_read(units.skip(1))
    } else {
        seq![units[0] as char] + utf16_read(units.skip(1))
    }
}

/// Calls `String::from_utf16_lossy`: pairs become one character, and a half without a partner
/// becomes U+FFFD.
#[verifier::external_body]
pub(crate) fn utf16_lossy(units: &[u16]) -> (r: String)
    ensures
        r@ == utf16_read(units@),
{
    String::from_utf16_lossy(units)
}

// ---------------------------------------------------------------------------
// Unicode tables

/// The small form of `s` by the Unicode tables.
pub uninterp spec fn unicode_lowered(s: Seq<char>) -> Seq<char>;

/// Calls `str::to_lowercase`. On ASCII text only the capital letters change.
#[verifier::external_body]
pub(crate) fn to_lowercase(s: &str) -> (r: String)
    ensures
        r@ == unicode_lowered(s@),
        is_ascii_chars(s@) ==> r@ == lowered(s@),
{
    s.to_lowercase()
}

/// The small form of `s`: of ASCII text that with small letters, of other text that by the Unicode
/// tables.
pub open spec fn small_form(s: Seq<char>) -> Seq<char> {
    if is_ascii_chars(s) {
        lowered(s)
    } else {
        unicode_lowered(s)
    }
}

/// The character has the Unicode property `Uppercase`.
pub uninterp spec fn unicode_upper(c: char) -> bool;

/// The character has the Unicode property `Lowercase`.
pub uninterp spec fn unicode_lower(c: char) -> bool;

/// The character is a number by its Unicode category.
pub uninterp spec fn unicode_numeric(c: char) -> bool;

/// The character is a letter or a number by the Unicode tables.
pub uninterp spec fn unicode_alnum(c: char) -> bool;

/// `char::is_uppercase`: of the ASCII characters, the capital letters.
pub assume_specification[ char::is_uppercase ](c: char) -> (b: bool)
    ensures
        b == unicode_upper(c),
        c <= '\u{7f}' ==> b == ('A' <= c <= 'Z'),
;

/// `char::is_lowercase`: of the ASCII characters, the small letters.
pub assume_specification[ char::is_lowercase ](c: char) -> (b: bool)
    ensures
        b == unicode_lower(c),
        c <= '\u{7f}' ==> b == ('a' <= c <= 'z'),
;

/// `char::is_numeric`: of the ASCII characters, the digits.
pub assume_specification[ char::is_numeric ](c: char) -> (b: bool)
    ensures
        b == unicode_numeric(c),
        c <= '\u{7f}' ==> b == ('0' <= c <= '9'),
;

/// `char::is_alphanumeric`: of the ASCII characters, the letters and the digits.
pub assume_specification[ char::is_alphanumeric ](c: char) -> (b: bool)
    ensures
        b == unicode_alnum(c),
        c <= '\u{7f}' ==> b == crate::chars::is_ascii_alnum(c),
;

/// The character is a capital letter.
pub open spec fn is_capital(c: char) -> bool {
    if c <= '\u{7f}' {
        'A' <= c <= 'Z'
    } else {
        unicode_upper(c)
    }
}

/// The character is a small letter.
pub open spec fn is_small(c: char) -> bool {
    if c <= '\u{7f}' {
        'a' <= c <= 'z'
    } else {
        unicode_lower(c)
    }
}

/// The character is a number.
pub open spec fn is_number(c: char) -> bool {
    if c <= '\u{7f}' {
        '0' <= c <= '9'
    } else {
        unicode_numeric(c)
    }
}

/// The character is a letter or a number.
pub open spec fn is_alnum(c: char) -> bool {
    if c <= '\u{7f}' {
        crate::chars::is_ascii_alnum(c)
    } else {
        unicode_alnum(c)
    }
}

} // verus!
