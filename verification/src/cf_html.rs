//! The `HTML Format` clipboard flavor: a text header with offsets, and the markup behind it.

use vstd::prelude::*;
use vstd::slice::slice_subrange;
use vstd::utf8::{
    decode_utf8, encode_utf8, encode_utf8_decode_utf8, encode_utf8_valid_utf8, is_ascii_chars,
    is_ascii_chars_encode_utf8,
};

use crate::chars::{digit, is_digit, is_space, lower_char, space};
use crate::codecs::{small_form, to_lowercase, utf16_lossy, utf16_read, utf8_lossy, utf8_read};
use crate::regexes::{found, pattern_found};
use crate::text::{
    all_space, byte_len, byte_slice, bytes_in, contains, decimal, first_of, join, join2, joined,
    lemma_encoded_parts, lemma_ends_on_boundary, lemma_first_from, lemma_first_is,
    lemma_lowered_twice, lemma_trimmed_around, lemma_trimmed_parts, lemma_trimmed_start_before,
    lemma_trimmed_twice, line_list, lines, lowered, number, occurs, occurs_at, on_boundary,
    parse_number, piece, slice_bytes, split_once, starts_with, string_opt, strings, to_chars,
    to_lower, trim, trim_start, trim_start_char, trimmed, trimmed_start, without_leading,
};

verus! {

/// What begins the fragment of a document.
pub const START_FRAGMENT: &'static str = "<!--StartFragment-->";

/// What ends the fragment of a document.
pub const END_FRAGMENT: &'static str = "<!--EndFragment-->";

/// A tag that has lost its opening bracket, at the start of a text.
pub const BARE_TAG: &'static str =
    r"(?is)^(table|tbody|thead|tfoot|tr|td|th|colgroup|col|div|span|p|ul|ol|li|blockquote|pre|h[1-6]|meta|style|img|a)\b[^>]*>";

// ---------------------------------------------------------------------------
// Recognizing markup

/// `s` holds the marks of a header of this flavor.
pub open spec fn has_cf_header(s: Seq<char>) -> bool {
    let l = lowered(s);
    occurs(l, "version:0.9"@) || (occurs(l, "starthtml:"@) && occurs(l, "startfragment:"@))
}

/// Tells whether `text` holds the marks of a header of this flavor.
pub fn looks_like_cf_html_header_text(text: &str) -> (r: bool)
    ensures
        r == has_cf_header(text@),
{
    let lower = to_lower(text);
    contains(&lower, "version:0.9") || (contains(&lower, "starthtml:") && contains(
        &lower,
        "startfragment:",
    ))
}

/// The small-letter text `l` begins like a tag without its opening bracket.
pub open spec fn begins_like_tag(l: Seq<char>) -> bool {
    ||| "table "@.is_prefix_of(l)
    ||| "tbody"@.is_prefix_of(l)
    ||| "thead"@.is_prefix_of(l)
    ||| "tfoot"@.is_prefix_of(l)
    ||| "tr "@.is_prefix_of(l)
    ||| "td "@.is_prefix_of(l)
    ||| "th "@.is_prefix_of(l)
    ||| "col "@.is_prefix_of(l)
    ||| "colgroup"@.is_prefix_of(l)
    ||| "div "@.is_prefix_of(l)
    ||| "span "@.is_prefix_of(l)
    ||| "p "@.is_prefix_of(l)
    ||| "meta "@.is_prefix_of(l)
    ||| "style "@.is_prefix_of(l)
}

/// `s` looks like a piece of HTML, by its beginning and by the attributes of a table.
pub open spec fn html_like(s: Seq<char>) -> bool {
    let t = trimmed_start(without_leading(s, '\u{feff}'));
    let l = lowered(t);
    if "<"@.is_prefix_of(t) {
        true
    } else if has_cf_header(t) {
        false
    } else {
        begins_like_tag(l) || (occurs(l, "cellpadding="@) && occurs(l, "cellspacing="@))
    }
}

/// Tells whether `text` looks like a piece of HTML.
pub fn looks_like_html_fragment_shallow(text: &str) -> (r: bool)
    ensures
        r == html_like(text@),
{
    let trimmed = trim_start(&trim_start_char(text, '\u{feff}'));
    if starts_with(&trimmed, "<") {
        return true;
    }
    if looks_like_cf_html_header_text(&trimmed) {
        return false;
    }
    let lower = to_lower(&trimmed);
    starts_with(&lower, "table ") || starts_with(&lower, "tbody") || starts_with(&lower, "thead")
        || starts_with(&lower, "tfoot") || starts_with(&lower, "tr ") || starts_with(&lower, "td ")
        || starts_with(&lower, "th ") || starts_with(&lower, "col ") || starts_with(
        &lower,
        "colgroup",
    ) || starts_with(&lower, "div ") || starts_with(&lower, "span ") || starts_with(&lower, "p ")
        || starts_with(&lower, "meta ") || starts_with(&lower, "style ") || (contains(
        &lower,
        "cellpadding=",
    ) && contains(&lower, "cellspacing="))
}

/// `s` without white space at its ends, and with an opening bracket where it has none and `bare`
/// holds.
pub open spec fn bracket_restored(s: Seq<char>, bare: bool) -> Seq<char> {
    let t = trimmed(s);
    if t.len() > 0 && !"<"@.is_prefix_of(t) && bare {
        "<"@ + t
    } else {
        t
    }
}

/// `s` without white space at its ends, and with the opening bracket that its first tag has lost.
pub open spec fn repaired(s: Seq<char>) -> Seq<char> {
    bracket_restored(s, pattern_found(BARE_TAG@, trimmed(s)))
}

/// Gives `html` an opening bracket where it has none and `bare` holds.
pub fn restore_bracket(html: &str, bare: bool) -> (r: String)
    ensures
        r@ == bracket_restored(html@, bare),
{
    let trimmed = trim(html);
    if trimmed.as_str().is_empty() || starts_with(&trimmed, "<") || !bare {
        return trimmed;
    }
    join2("<", &trimmed)
}

/// Gives the first tag of `html` the opening bracket that it has lost.
pub fn repair_html_fragment(html: &str) -> (r: String)
    ensures
        r@ == repaired(html@),
{
    let trimmed = trim(html);
    if trimmed.as_str().is_empty() || starts_with(&trimmed, "<") {
        return trimmed;
    }
    restore_bracket(html, found(BARE_TAG, &trimmed))
}

/// To repair markup twice is to repair it once.
pub proof fn law_repaired_twice(s: Seq<char>)
    ensures
        repaired(repaired(s)) == repaired(s),
{
    reveal_strlit("<");
    let t = trimmed(s);
    lemma_trimmed_twice(s);
    let (_, _) = lemma_trimmed_parts(s);
    if t.len() > 0 && !"<"@.is_prefix_of(t) && pattern_found(BARE_TAG@, t) {
        let r = "<"@ + t;
        let e = Seq::<char>::empty();
        assert(r.last() == t.last());
        lemma_trimmed_around(e, r, e);
        assert(e + r + e == r);
        assert("<"@ =~= r.subrange(0, 1));
    }
}

/// Repaired markup has no white space at its ends, and it is the markup without that white space or
/// one opening bracket and that.
pub proof fn law_repaired_adds_a_bracket_at_most(s: Seq<char>)
    ensures
        trimmed(repaired(s)) == repaired(s),
        repaired(s) == trimmed(s) || repaired(s) == "<"@ + trimmed(s),
{
    law_repaired_twice(s);
    lemma_trimmed_twice(s);
    let (_, _) = lemma_trimmed_parts(s);
    if repaired(s) != trimmed(s) {
        reveal_strlit("<");
        let r = repaired(s);
        let e = Seq::<char>::empty();
        assert(r.last() == trimmed(s).last());
        lemma_trimmed_around(e, r, e);
        assert(e + r + e == r);
    }
}

/// The case of the letters makes no difference to whether a text holds the marks of a header.
pub proof fn law_header_whatever_case(s: Seq<char>)
    ensures
        has_cf_header(lowered(s)) == has_cf_header(s),
{
    lemma_lowered_twice(s);
}

/// The character may stand at the edge of markup: it is white space or an opening bracket.
pub open spec fn is_edge(c: char) -> bool {
    is_space(c) || c == '<'
}

/// What holds no edge characters and stands in a text with such characters around it stands in the
/// text.
proof fn lemma_stands_between_edges(a: Seq<char>, s: Seq<char>, b: Seq<char>, p: Seq<char>)
    requires
        occurs(lowered(a + s + b), p),
        p.len() > 0,
        forall|i: int| 0 <= i < p.len() ==> !is_edge(#[trigger] p[i]),
        forall|i: int| 0 <= i < a.len() ==> is_edge(#[trigger] a[i]),
        forall|i: int| 0 <= i < b.len() ==> is_edge(#[trigger] b[i]),
    ensures
        occurs(lowered(s), p),
{
    let whole = a + s + b;
    let j = choose|j: int| occurs_at(lowered(whole), p, j);
    let n = p.len() as int;
    assert forall|x: int| j <= x < j + n implies !is_edge(#[trigger] whole[x]) by {
        assert(lowered(whole).subrange(j, j + n)[x - j] == lower_char(whole[x]));
        assert(!is_edge(p[x - j]));
    }
    if j < a.len() {
        assert(whole[j] == a[j]);
    }
    if j + n > a.len() + s.len() {
        assert(whole[j + n - 1] == b[j + n - 1 - a.len() - s.len()]);
    }
    let i = j - a.len();
    assert(lowered(s).subrange(i, i + n) =~= lowered(whole).subrange(j, j + n));
    assert(occurs_at(lowered(s), p, i));
}

/// White space and opening brackets around a text make no header.
pub proof fn law_edges_make_no_header(a: Seq<char>, s: Seq<char>, b: Seq<char>)
    requires
        !has_cf_header(s),
        forall|i: int| 0 <= i < a.len() ==> is_edge(#[trigger] a[i]),
        forall|i: int| 0 <= i < b.len() ==> is_edge(#[trigger] b[i]),
    ensures
        !has_cf_header(a + s + b),
{
    reveal_strlit("version:0.9");
    reveal_strlit("starthtml:");
    reveal_strlit("startfragment:");
    let l = lowered(a + s + b);
    if occurs(l, "version:0.9"@) {
        lemma_stands_between_edges(a, s, b, "version:0.9"@);
    }
    if occurs(l, "starthtml:"@) && occurs(l, "startfragment:"@) {
        lemma_stands_between_edges(a, s, b, "starthtml:"@);
        lemma_stands_between_edges(a, s, b, "startfragment:"@);
    }
}

/// What stands in a part of a text stands in the text.
proof fn lemma_stands_in_whole(a: Seq<char>, s: Seq<char>, b: Seq<char>, p: Seq<char>)
    requires
        occurs(lowered(s), p),
    ensures
        occurs(lowered(a + s + b), p),
{
    let i = choose|i: int| occurs_at(lowered(s), p, i);
    let j = a.len() + i;
    assert(lowered(a + s + b).subrange(j, j + p.len()) == lowered(s).subrange(i, i + p.len()));
    assert(occurs_at(lowered(a + s + b), p, j));
}

/// A text without a header has none in any part of it.
pub proof fn law_no_header_in_a_part(a: Seq<char>, s: Seq<char>, b: Seq<char>)
    requires
        !has_cf_header(a + s + b),
    ensures
        !has_cf_header(s),
{
    if occurs(lowered(s), "version:0.9"@) {
        lemma_stands_in_whole(a, s, b, "version:0.9"@);
    }
    if occurs(lowered(s), "starthtml:"@) && occurs(lowered(s), "startfragment:"@) {
        lemma_stands_in_whole(a, s, b, "starthtml:"@);
        lemma_stands_in_whole(a, s, b, "startfragment:"@);
    }
}

/// Whether white space at its ends is cut off makes no difference to whether a text has a header.
pub proof fn law_header_whatever_white_space(s: Seq<char>)
    ensures
        has_cf_header(trimmed(s)) == has_cf_header(s),
{
    let (v, w) = lemma_trimmed_parts(s);
    assert(forall|i: int| 0 <= i < v.len() ==> is_edge(#[trigger] v[i]));
    assert(forall|i: int| 0 <= i < w.len() ==> is_edge(#[trigger] w[i]));
    if has_cf_header(s) {
        if !has_cf_header(trimmed(s)) {
            law_edges_make_no_header(v, trimmed(s), w);
        }
    } else {
        law_no_header_in_a_part(v, trimmed(s), w);
    }
}

/// To repair markup makes no header.
pub proof fn law_repair_makes_no_header(s: Seq<char>)
    requires
        !has_cf_header(s),
    ensures
        !has_cf_header(repaired(s)),
{
    law_header_whatever_white_space(s);
    law_repaired_adds_a_bracket_at_most(s);
    if repaired(s) != trimmed(s) {
        reveal_strlit("<");
        let e = Seq::<char>::empty();
        law_edges_make_no_header("<"@, trimmed(s), e);
        assert("<"@ + trimmed(s) + e == "<"@ + trimmed(s));
    }
}

// ---------------------------------------------------------------------------
// Fragments and header lines

/// What stands between the first start mark and the first end mark behind it.
pub open spec fn marked_fragment(s: Seq<char>) -> Option<Seq<char>> {
    match first_of(s, START_FRAGMENT@) {
        Some(i) => {
            let rest = s.skip(i + START_FRAGMENT@.len());
            match first_of(rest, END_FRAGMENT@) {
                Some(j) => Some(rest.take(j)),
                None => None,
            }
        },
        None => None,
    }
}

/// Cuts out what stands between the marks of a fragment.
pub fn cut_marked_fragment(text: &str) -> (r: Option<String>)
    ensures
        string_opt(r) == marked_fragment(text@),
{
    match split_once(text, START_FRAGMENT) {
        Some((_, rest)) => match split_once(&rest, END_FRAGMENT) {
            Some((inner, _)) => Some(inner),
            None => None,
        },
        None => None,
    }
}

/// The small-letter line `l` begins with a key of the header.
pub open spec fn begins_with_key(l: Seq<char>) -> bool {
    ||| "version:"@.is_prefix_of(l)
    ||| "starthtml:"@.is_prefix_of(l)
    ||| "endhtml:"@.is_prefix_of(l)
    ||| "startfragment:"@.is_prefix_of(l)
    ||| "endfragment:"@.is_prefix_of(l)
    ||| "sourceurl:"@.is_prefix_of(l)
}

/// Tells whether a small-letter line begins with a key of the header.
fn starts_with_key(lower: &str) -> (r: bool)
    ensures
        r == begins_with_key(lower@),
{
    starts_with(lower, "version:") || starts_with(lower, "starthtml:") || starts_with(
        lower,
        "endhtml:",
    ) || starts_with(lower, "startfragment:") || starts_with(lower, "endfragment:") || starts_with(
        lower,
        "sourceurl:",
    )
}

/// The line belongs to a header: it is blank or begins with a key. The keys are read without regard
/// to case, by the Unicode tables where `unicode` holds and by ASCII alone otherwise.
pub open spec fn is_header_line(line: Seq<char>, unicode: bool) -> bool {
    let t = trimmed(line);
    t.len() == 0 || begins_with_key(
        if unicode {
            small_form(t)
        } else {
            lowered(t)
        },
    )
}

/// The lines behind the header.
pub open spec fn body_lines(ls: Seq<Seq<char>>, unicode: bool) -> Seq<Seq<char>>
    decreases ls.len(),
{
    if ls.len() > 0 && is_header_line(ls[0], unicode) {
        body_lines(ls.drop_first(), unicode)
    } else {
        ls
    }
}

/// The first line that is not one of the header ends it: the lines behind the header are the last
/// ones, and do not begin with a header line.
pub proof fn law_body_begins_behind_the_header(ls: Seq<Seq<char>>, unicode: bool) -> (k: int)
    ensures
        0 <= k <= ls.len(),
        body_lines(ls, unicode) == ls.skip(k),
        forall|i: int| 0 <= i < k ==> is_header_line(#[trigger] ls[i], unicode),
        k < ls.len() ==> !is_header_line(ls[k], unicode),
    decreases ls.len(),
{
    if ls.len() > 0 && is_header_line(ls[0], unicode) {
        let rest = ls.drop_first();
        let k = law_body_begins_behind_the_header(rest, unicode);
        assert(rest.skip(k) == ls.skip(k + 1));
        assert forall|i: int| 0 <= i < k + 1 implies is_header_line(#[trigger] ls[i], unicode) by {
            if i > 0 {
                assert(ls[i] == rest[i - 1]);
            }
        }
        k + 1
    } else {
        assert(ls.skip(0) == ls);
        0
    }
}

/// The text behind the header, without white space at its ends.
pub open spec fn body_text(s: Seq<char>, unicode: bool) -> Seq<char> {
    trimmed(joined(body_lines(line_list(s), unicode), "\n"@))
}

/// Cuts the header lines off `text`.
pub fn drop_header_lines(text: &str, unicode: bool) -> (r: String)
    ensures
        r@ == body_text(text@, unicode),
{
    let list = lines(text);
    let ghost all = strings(list@);
    let n = list.len();
    let mut i: usize = 0;
    assert(all.skip(0) == all);
    loop
        invariant_except_break
            body_lines(all, unicode) == body_lines(all.skip(i as int), unicode),
        invariant
            n == list@.len(),
            all == strings(list@),
            i <= n,
        ensures
            body_lines(all, unicode) == all.skip(i as int),
        decreases n - i,
    {
        if i >= n {
            break;
        }
        assert(all[i as int] == list@[i as int]@);
        let line = trim(&list[i]);
        let lower = if unicode {
            to_lowercase(&line)
        } else {
            to_lower(&line)
        };
        let in_header = line.as_str().is_empty() || starts_with_key(&lower);
        if !in_header {
            break;
        }
        assert(all.skip(i as int).drop_first() == all.skip(i + 1));
        i = i + 1;
    }
    let rest = slice_subrange(list.as_slice(), i, n);
    assert(strings(rest@) == all.skip(i as int));
    trim(&join(rest, "\n"))
}

// ---------------------------------------------------------------------------
// Reading

/// The bytes are read as UTF-16: they begin with its mark, or their second and fourth byte are
/// zero.
pub open spec fn is_utf16(raw: Seq<u8>) -> bool {
    (raw.len() >= 2 && raw[0] == 0xff && raw[1] == 0xfe) || (raw.len() >= 4 && raw[1] == 0
        && raw[3] == 0)
}

/// The 16-bit units of `raw`, low byte first; an odd byte at the end is left out.
pub open spec fn units_of(raw: Seq<u8>) -> Seq<u16> {
    Seq::new(raw.len() / 2, |i: int| (raw[2 * i] + 256 * raw[2 * i + 1]) as u16)
}

/// Reads the 16-bit units of `raw`.
fn read_units(raw: &[u8]) -> (r: Vec<u16>)
    ensures
        r@ == units_of(raw@),
{
    let n = raw.len();
    let mut r: Vec<u16> = Vec::new();
    for i in 0..n / 2
        invariant
            n == raw@.len(),
            r@ == units_of(raw@).take(i as int),
    {
        let low: u16 = raw[2 * i] as u16;
        let high: u16 = raw[2 * i + 1] as u16;
        r.push(low + 256 * high);
    }
    r
}

/// What `raw` reads as.
pub open spec fn cf_text(raw: Seq<u8>) -> Seq<char> {
    if is_utf16(raw) {
        utf16_read(units_of(raw))
    } else {
        utf8_read(raw)
    }
}

/// How many digits and white space characters stand at the start of `s`.
pub open spec fn digits_len(s: Seq<char>) -> nat
    decreases s.len(),
{
    if s.len() > 0 && (is_digit(s[0]) || is_space(s[0])) {
        1 + digits_len(s.drop_first())
    } else {
        0
    }
}

/// The number behind the first `key` in `s`.
pub open spec fn offset_at(s: Seq<char>, key: Seq<char>) -> Option<usize> {
    match first_of(s, key) {
        Some(i) => {
            let rest = s.skip(i + key.len());
            number(trimmed(rest.take(digits_len(rest) as int)))
        },
        None => None,
    }
}

/// Reads the number behind the first `key` in `text`.
fn parse_offset(text: &str, key: &str) -> (r: Option<usize>)
    ensures
        r == offset_at(text@, key@),
{
    match split_once(text, key) {
        Some((_, rest)) => {
            let v = to_chars(&rest);
            let mut n: usize = 0;
            assert(v@.skip(0) == v@);
            while n < v.len() && (digit(v[n]) || space(v[n]))
                invariant
                    n <= v@.len(),
                    digits_len(v@) == n + digits_len(v@.skip(n as int)),
                decreases v@.len() - n,
            {
                assert(v@.skip(n as int).drop_first() == v@.skip(n + 1));
                n = n + 1;
            }
            parse_number(&trim(&piece(&v, 0, n)))
        },
        None => None,
    }
}

/// The byte range that the header gives, and whether it is that of the whole document. The range of
/// the document comes before that of the fragment.
pub open spec fn cf_offsets(s: Seq<char>) -> (usize, usize, bool) {
    match (offset_at(s, "StartHTML:"@), offset_at(s, "EndHTML:"@)) {
        (Some(a), Some(b)) => (a, b, true),
        _ => match (offset_at(s, "StartFragment:"@), offset_at(s, "EndFragment:"@)) {
            (Some(a), Some(b)) => (a, b, false),
            _ => (0, 0, false),
        },
    }
}

/// Reads the byte range that the header gives.
fn parse_offsets(text: &str) -> (r: (usize, usize, bool))
    ensures
        r == cf_offsets(text@),
{
    match (parse_offset(text, "StartHTML:"), parse_offset(text, "EndHTML:")) {
        (Some(a), Some(b)) => (a, b, true),
        _ => match (parse_offset(text, "StartFragment:"), parse_offset(text, "EndFragment:")) {
            (Some(a), Some(b)) => (a, b, false),
            _ => (0, 0, false),
        },
    }
}

/// The range that the header gives cuts no character in two.
pub open spec fn cf_offsets_fit(raw: Seq<u8>) -> bool {
    let s = cf_text(raw);
    let (a, b, _) = cf_offsets(s);
    !is_utf16(raw) && a < b <= byte_len(s) ==> on_boundary(s, a as int) && on_boundary(s, b as int)
}

/// What the range that the header gives holds, where it lies inside the data.
pub open spec fn cf_by_offsets(raw: Seq<u8>) -> Option<Seq<char>> {
    let s = cf_text(raw);
    let (a, b, whole) = cf_offsets(s);
    let content = if a >= b {
        None
    } else if is_utf16(raw) {
        if b <= raw.len() {
            Some(utf16_read(units_of(raw.subrange(a as int, b as int))))
        } else {
            None
        }
    } else if b <= byte_len(s) {
        Some(byte_slice(s, a as int, b as int))
    } else {
        None
    };
    match content {
        Some(c) => Some(
            if whole {
                c
            } else {
                repaired(c)
            },
        ),
        None => None,
    }
}

/// What can be saved of a text whose header and marks are of no use.
pub open spec fn cf_salvaged(s: Seq<char>) -> Option<Seq<char>> {
    let body = body_text(s, false);
    let tag = first_of(s, "<"@);
    if occurs(s, "Version:"@) && html_like(body) {
        Some(repaired(body))
    } else if occurs(s, "Version:"@) && tag is Some && html_like(s.skip(tag->0)) {
        Some(repaired(s.skip(tag->0)))
    } else if html_like(s) {
        Some(repaired(s))
    } else {
        None
    }
}

/// The markup in `raw`: by the offsets of the header, else between the marks of the fragment, else
/// what can be saved.
pub open spec fn cf_html(raw: Seq<u8>) -> Option<Seq<char>> {
    let s = cf_text(raw);
    if raw.len() == 0 {
        None
    } else if cf_by_offsets(raw) is Some {
        cf_by_offsets(raw)
    } else {
        match marked_fragment(s) {
            Some(f) => Some(repaired(f)),
            None => cf_salvaged(s),
        }
    }
}

/// Reads `raw` as text.
fn read_text(raw: &[u8]) -> (r: (bool, String))
    ensures
        r.0 == is_utf16(raw@),
        r.1@ == cf_text(raw@),
{
    let n = raw.len();
    let wide = (n >= 2 && raw[0] == 0xff && raw[1] == 0xfe) || (n >= 4 && raw[1] == 0 && raw[3]
        == 0);
    if wide {
        (true, utf16_lossy(&read_units(raw)))
    } else {
        (false, utf8_lossy(raw))
    }
}

/// Tells whether the range that the header gives cuts no character in two.
pub fn offsets_fit(raw: &[u8]) -> (r: bool)
    ensures
        r == cf_offsets_fit(raw@),
{
    let (wide, text) = read_text(raw);
    let (a, b, _) = parse_offsets(&text);
    if !wide && a < b && b <= bytes_in(&text) {
        text.as_str().is_char_boundary(a) && text.as_str().is_char_boundary(b)
    } else {
        true
    }
}

/// Finds the markup that the range in the header gives.
fn cut_by_offsets(raw: &[u8], wide: bool, text: &str) -> (r: Option<String>)
    requires
        wide == is_utf16(raw@),
        text@ == cf_text(raw@),
        cf_offsets_fit(raw@),
    ensures
        string_opt(r) == cf_by_offsets(raw@),
{
    let (a, b, whole) = parse_offsets(text);
    if a >= b {
        return None;
    }
    let content: String = if wide {
        if b > raw.len() {
            return None;
        }
        utf16_lossy(&read_units(slice_subrange(raw, a, b)))
    } else {
        if b > bytes_in(text) {
            return None;
        }
        slice_bytes(text, a, b).to_owned()
    };
    if whole {
        Some(content)
    } else {
        Some(repair_html_fragment(&content))
    }
}

/// Finds what can be saved of a text whose header and marks are of no use.
fn salvage(text: &str) -> (r: Option<String>)
    ensures
        string_opt(r) == cf_salvaged(text@),
{
    if contains(text, "Version:") {
        let body = drop_header_lines(text, false);
        if looks_like_html_fragment_shallow(&body) {
            return Some(repair_html_fragment(&body));
        }
        let v = to_chars(text);
        let bracket = to_chars("<");
        proof {
            lemma_first_from(text@, "<"@, 0);
        }
        if let Some(i) = crate::text::find_in(&v, &bracket, 0) {
            let n = v.len();
            let potential = piece(&v, i, n);
            assert(potential@ == text@.skip(i as int));
            if looks_like_html_fragment_shallow(&potential) {
                return Some(repair_html_fragment(&potential));
            }
        }
    }
    if looks_like_html_fragment_shallow(text) {
        return Some(repair_html_fragment(text));
    }
    None
}

/// Finds the markup in the bytes of this flavor.
pub fn parse_cf_html(raw: &[u8]) -> (r: Option<String>)
    requires
        cf_offsets_fit(raw@),
    ensures
        string_opt(r) == cf_html(raw@),
{
    if raw.len() == 0 {
        return None;
    }
    let (wide, text) = read_text(raw);
    let ranged = cut_by_offsets(raw, wide, &text);
    if ranged.is_some() {
        return ranged;
    }
    match cut_marked_fragment(&text) {
        Some(fragment) => Some(repair_html_fragment(&fragment)),
        None => salvage(&text),
    }
}

// ---------------------------------------------------------------------------
// Laws

/// The bytes of the ASCII text `s` in UTF-16, low byte first.
pub open spec fn wide_bytes(s: Seq<char>) -> Seq<u8> {
    Seq::new(
        2 * s.len(),
        |i: int|
            if i % 2 == 0 {
                s[i / 2] as u8
            } else {
                0
            },
    )
}

/// The text names none of the offsets of a header.
pub open spec fn has_no_offsets(s: Seq<char>) -> bool {
    !occurs(s, "StartHTML:"@) && !occurs(s, "EndHTML:"@) && !occurs(s, "StartFragment:"@)
        && !occurs(s, "EndFragment:"@)
}

/// Units that are ASCII characters read as those.
proof fn lemma_utf16_ascii(units: Seq<u16>, s: Seq<char>)
    requires
        is_ascii_chars(s),
        units.len() == s.len(),
        forall|i: int| 0 <= i < s.len() ==> #[trigger] units[i] == s[i] as u16,
    ensures
        utf16_read(units) == s,
    decreases s.len(),
{
    if s.len() > 0 {
        let u = units.skip(1);
        let t = s.skip(1);
        assert forall|i: int| 0 <= i < t.len() implies '\0' <= #[trigger] t[i] <= '\u{7f}' by {
            assert(t[i] == s[i + 1]);
        }
        assert forall|i: int| 0 <= i < t.len() implies #[trigger] u[i] == t[i] as u16 by {
            assert(u[i] == units[i + 1]);
        }
        lemma_utf16_ascii(u, t);
        assert(s[0] <= '\u{7f}');
        assert(units[0] == s[0] as u16);
        assert(units[0] as char == s[0]);
        assert(seq![s[0]] + t == s);
    }
}

/// Where no offset is named, there is no range.
proof fn lemma_no_offsets(s: Seq<char>)
    requires
        has_no_offsets(s),
    ensures
        cf_offsets(s) == (0usize, 0usize, false),
{
    lemma_first_from(s, "StartHTML:"@, 0);
    lemma_first_from(s, "StartFragment:"@, 0);
    assert(offset_at(s, "StartHTML:"@) is None);
    assert(offset_at(s, "StartFragment:"@) is None);
}

/// The encoding of the data makes no difference to the markup in them: an ASCII text without offsets
/// is read from its UTF-16 bytes as from its UTF-8 bytes.
pub proof fn law_markup_whatever_encoding(s: Seq<char>)
    requires
        is_ascii_chars(s),
        s.len() >= 2,
        !s.contains('\0'),
        has_no_offsets(s),
    ensures
        cf_html(wide_bytes(s)) == cf_html(encode_utf8(s)),
        cf_offsets_fit(wide_bytes(s)),
        cf_offsets_fit(encode_utf8(s)),
{
    let wide = wide_bytes(s);
    let narrow = encode_utf8(s);
    is_ascii_chars_encode_utf8(s);
    encode_utf8_valid_utf8(s);
    encode_utf8_decode_utf8(s);
    assert(wide[1] == 0 && wide[3] == 0);
    let units = units_of(wide);
    assert forall|i: int| 0 <= i < s.len() implies #[trigger] units[i] == s[i] as u16 by {
        assert(wide[2 * i] == s[i] as u8);
        assert(wide[2 * i + 1] == 0);
        assert(s[i] <= '\u{7f}');
    }
    lemma_utf16_ascii(units, s);
    assert(cf_text(wide) == s);
    assert(s[0] <= '\u{7f}' && s[1] <= '\u{7f}');
    assert(s[1] != '\0');
    assert(narrow[0] == s[0] as u8 && narrow[1] == s[1] as u8);
    assert(!is_utf16(narrow));
    assert(cf_text(narrow) == s);
    lemma_no_offsets(s);
}

/// The characters are decimal digits, at least one of them.
pub open spec fn are_digits(s: Seq<char>) -> bool {
    s.len() > 0 && forall|i: int| 0 <= i < s.len() ==> '0' <= #[trigger] s[i] <= '9'
}

/// A header that names the range of the document by `a` and `b` and that of the fragment by `c` and
/// `d`.
pub open spec fn full_header(
    a: Seq<char>,
    b: Seq<char>,
    c: Seq<char>,
    d: Seq<char>,
) -> Seq<char> {
    "Version:0.9\r\nStartHTML:"@ + a + "\r\nEndHTML:"@ + b + "\r\nStartFragment:"@ + c
        + "\r\nEndFragment:"@ + d + "\r\n"@
}

/// A header that names the range of the fragment by `c` and `d`.
pub open spec fn fragment_header(c: Seq<char>, d: Seq<char>) -> Seq<char> {
    "Version:0.9\r\nStartFragment:"@ + c + "\r\nEndFragment:"@ + d + "\r\n"@
}

/// Digits and the white space behind them are read up to what is neither.
proof fn lemma_digits_len(digits: Seq<char>, gap: Seq<char>, rest: Seq<char>)
    requires
        forall|i: int| 0 <= i < digits.len() ==> is_digit(#[trigger] digits[i]),
        forall|i: int| 0 <= i < gap.len() ==> is_space(#[trigger] gap[i]),
        rest.len() > 0 ==> !is_digit(rest[0]) && !is_space(rest[0]),
    ensures
        digits_len(digits + gap + rest) == digits.len() + gap.len(),
    decreases digits.len() + gap.len(),
{
    let s = digits + gap + rest;
    if digits.len() > 0 {
        let t = digits.drop_first();
        assert(s[0] == digits[0]);
        assert(s.drop_first() == t + gap + rest);
        assert forall|i: int| 0 <= i < t.len() implies is_digit(#[trigger] t[i]) by {
            assert(t[i] == digits[i + 1]);
        }
        lemma_digits_len(t, gap, rest);
    } else if gap.len() > 0 {
        let t = gap.drop_first();
        assert(s[0] == gap[0]);
        assert(s.drop_first() == digits + t + rest);
        assert forall|i: int| 0 <= i < t.len() implies is_space(#[trigger] t[i]) by {
            assert(t[i] == gap[i + 1]);
        }
        lemma_digits_len(digits, t, rest);
    } else {
        assert(s == rest);
    }
}

/// The number behind a key that does not begin before.
proof fn lemma_offset_behind(
    before: Seq<char>,
    key: Seq<char>,
    digits: Seq<char>,
    rest: Seq<char>,
)
    requires
        key.len() > 0,
        forall|j: int|
            0 <= j < before.len() ==> !occurs_at(
                before + key + digits + "\r\n"@ + rest,
                key,
                j,
            ),
        are_digits(digits),
        decimal(digits) <= usize::MAX,
        rest.len() > 0,
        !is_digit(rest[0]) && !is_space(rest[0]),
    ensures
        offset_at(before + key + digits + "\r\n"@ + rest, key) == Some(decimal(digits) as usize),
{
    reveal_strlit("\r\n");
    let gap = "\r\n"@;
    let s = before + key + digits + gap + rest;
    let n = before.len() as int;
    let e = Seq::<char>::empty();
    assert(s.subrange(n, n + key.len()) == key);
    lemma_first_is(s, key, 0, n);
    let tail = digits + gap + rest;
    assert(s.skip(n + key.len()) == tail);
    lemma_digits_len(digits, gap, rest);
    assert(tail.take((digits.len() + gap.len()) as int) == e + digits + gap);
    lemma_trimmed_around(e, digits, gap);
}

/// The number behind a key whose first character stands nowhere before it.
proof fn lemma_offset_at(
    before: Seq<char>,
    key: Seq<char>,
    digits: Seq<char>,
    rest: Seq<char>,
)
    requires
        key.len() > 0,
        !before.contains(key[0]),
        are_digits(digits),
        decimal(digits) <= usize::MAX,
        rest.len() > 0,
        !is_digit(rest[0]) && !is_space(rest[0]),
    ensures
        offset_at(before + key + digits + "\r\n"@ + rest, key) == Some(decimal(digits) as usize),
{
    let s = before + key + digits + "\r\n"@ + rest;
    assert forall|j: int| 0 <= j < before.len() implies !occurs_at(s, key, j) by {
        if occurs_at(s, key, j) {
            assert(s.subrange(j, j + key.len())[0] == s[j]);
            assert(s[j] == before[j]);
        }
    }
    lemma_offset_behind(before, key, digits, rest);
}

/// Text in UTF-8 that begins with two ASCII characters other than zero is read as that text.
proof fn lemma_read_as_utf8(s: Seq<char>)
    requires
        s.len() >= 2,
        '\u{1}' <= s[0] <= '\u{7f}',
        '\u{1}' <= s[1] <= '\u{7f}',
    ensures
        !is_utf16(encode_utf8(s)),
        cf_text(encode_utf8(s)) == s,
        encode_utf8(s).len() > 0,
{
    let head = s.take(2);
    lemma_encoded_parts(head, s.skip(2));
    assert(s == head + s.skip(2));
    is_ascii_chars_encode_utf8(head);
    let raw = encode_utf8(s);
    assert(raw[0] == head[0] as u8);
    assert(raw[1] == head[1] as u8);
    encode_utf8_valid_utf8(s);
    encode_utf8_decode_utf8(s);
}

/// The offsets of a document in a header that names them are read, whatever the header names as the
/// offsets of the fragment.
proof fn lemma_full_header(
    a: Seq<char>,
    b: Seq<char>,
    c: Seq<char>,
    d: Seq<char>,
    document: Seq<char>,
)
    requires
        are_digits(a),
        are_digits(b),
        decimal(a) <= usize::MAX,
        decimal(b) <= usize::MAX,
    ensures
        ({
            let s = full_header(a, b, c, d) + document;
            &&& offset_at(s, "StartHTML:"@) == Some(decimal(a) as usize)
            &&& offset_at(s, "EndHTML:"@) == Some(decimal(b) as usize)
            &&& s.len() >= 2 && s[0] == 'V' && s[1] == 'e'
        }),
{
    reveal_strlit("Version:0.9\r\nStartHTML:");
    reveal_strlit("\r\nEndHTML:");
    reveal_strlit("\r\nStartFragment:");
    reveal_strlit("\r\n");
    reveal_strlit("StartHTML:");
    reveal_strlit("EndHTML:");
    let s = full_header(a, b, c, d) + document;
    let first = "Version:0.9\r\nStartHTML:"@;
    let v = first.take(13);
    let tail = "\r\nEndFragment:"@ + d + "\r\n"@ + document;
    let r2 = "\r\nStartFragment:"@.skip(2) + c + tail;
    let r1 = "EndHTML:"@ + b + "\r\n"@ + r2;
    assert(first == v + "StartHTML:"@);
    assert("\r\nEndHTML:"@ == "\r\n"@ + "EndHTML:"@);
    assert("\r\nStartFragment:"@ == "\r\n"@ + "\r\nStartFragment:"@.skip(2));
    assert(s == v + "StartHTML:"@ + a + "\r\n"@ + r1);
    assert(!v.contains('S'));
    assert(r1[0] == 'E');
    lemma_offset_at(v, "StartHTML:"@, a, r1);
    let w = v + "StartHTML:"@ + a + "\r\n"@;
    assert(s == w + "EndHTML:"@ + b + "\r\n"@ + r2);
    assert(!w.contains('E')) by {
        assert forall|i: int| 0 <= i < w.len() implies w[i] != 'E' by {
            if 23 <= i < 23 + a.len() {
                assert(w[i] == a[i - 23]);
            }
        }
    }
    assert(r2[0] == 'S');
    lemma_offset_at(w, "EndHTML:"@, b, r2);
    assert(s[0] == first[0] && s[1] == first[1]);
}

/// The range of the document decides: where a header names it, the markup is what stands in the
/// data from its first byte to its last, whatever the header names as the range of the fragment.
pub proof fn law_markup_is_the_range_of_the_document(
    a: Seq<char>,
    b: Seq<char>,
    c: Seq<char>,
    d: Seq<char>,
    document: Seq<char>,
)
    requires
        are_digits(a),
        are_digits(b),
        ({
            let s = full_header(a, b, c, d) + document;
            &&& decimal(a) < decimal(b) <= byte_len(s) <= usize::MAX
            &&& on_boundary(s, decimal(a) as int)
            &&& on_boundary(s, decimal(b) as int)
        }),
    ensures
        ({
            let raw = encode_utf8(full_header(a, b, c, d) + document);
            &&& cf_offsets_fit(raw)
            &&& cf_html(raw) == Some(decode_utf8(raw.subrange(decimal(a) as int, decimal(b) as int)))
        }),
{
    let s = full_header(a, b, c, d) + document;
    lemma_full_header(a, b, c, d, document);
    lemma_read_as_utf8(s);
}

/// What was written is read back: a document behind a header that names its range is the markup
/// that is read, whatever the header names as the range of the fragment.
pub proof fn law_document_behind_a_header_is_read_back(
    a: Seq<char>,
    b: Seq<char>,
    c: Seq<char>,
    d: Seq<char>,
    document: Seq<char>,
)
    requires
        are_digits(a),
        are_digits(b),
        document.len() > 0,
        decimal(a) == byte_len(full_header(a, b, c, d)),
        decimal(b) == byte_len(full_header(a, b, c, d) + document),
        decimal(b) <= usize::MAX,
    ensures
        cf_offsets_fit(encode_utf8(full_header(a, b, c, d) + document)),
        cf_html(encode_utf8(full_header(a, b, c, d) + document)) == Some(document),
{
    let h = full_header(a, b, c, d);
    let s = h + document;
    lemma_tail_behind(h, document);
    lemma_ends_on_boundary(s);
    law_markup_is_the_range_of_the_document(a, b, c, d, document);
}

/// What stands behind the first part of a text lies on a boundary, and its bytes are those of the
/// rest.
proof fn lemma_tail_behind(h: Seq<char>, t: Seq<char>)
    ensures
        on_boundary(h + t, byte_len(h) as int),
        byte_len(h + t) == byte_len(h) + byte_len(t),
        decode_utf8(
            encode_utf8(h + t).subrange(byte_len(h) as int, byte_len(h + t) as int),
        ) == t,
        t.len() > 0 ==> byte_len(t) > 0,
{
    lemma_encoded_parts(h, t);
    let raw = encode_utf8(h + t);
    let n = byte_len(h) as int;
    assert(raw.subrange(n, raw.len() as int) == encode_utf8(t));
    encode_utf8_decode_utf8(t);
    encode_utf8_valid_utf8(h + t);
    encode_utf8_valid_utf8(t);
    lemma_ends_on_boundary(h + t);
    if t.len() > 0 {
        lemma_encoded_parts(t.take(1), t.skip(1));
        assert(t.take(1) + t.skip(1) == t);
        assert(encode_utf8(t).len() > 0) by {
            if encode_utf8(t).len() == 0 {
                assert(encode_utf8(t) == encode_utf8(Seq::<char>::empty()));
                encode_utf8_decode_utf8(Seq::<char>::empty());
            }
        }
        vstd::utf8::is_char_boundary_iff_not_is_continuation_byte(raw, n);
        vstd::utf8::is_char_boundary_start_end_of_seq(encode_utf8(t));
        vstd::utf8::is_char_boundary_iff_not_is_continuation_byte(encode_utf8(t), 0);
        assert(raw[n] == encode_utf8(t)[0]);
    }
}

/// Where a header names only the range of the fragment, the markup is what stands in the data from
/// its first byte to its last, with the opening bracket that it may have lost.
pub proof fn law_markup_is_the_range_of_the_fragment(
    c: Seq<char>,
    d: Seq<char>,
    document: Seq<char>,
)
    requires
        are_digits(c),
        are_digits(d),
        document.len() > 0,
        !is_digit(document[0]) && !is_space(document[0]),
        !occurs(fragment_header(c, d) + document, "StartHTML:"@),
        ({
            let s = fragment_header(c, d) + document;
            &&& decimal(c) < decimal(d) <= byte_len(s) <= usize::MAX
            &&& on_boundary(s, decimal(c) as int)
            &&& on_boundary(s, decimal(d) as int)
        }),
    ensures
        ({
            let raw = encode_utf8(fragment_header(c, d) + document);
            &&& cf_offsets_fit(raw)
            &&& cf_html(raw) == Some(
                repaired(decode_utf8(raw.subrange(decimal(c) as int, decimal(d) as int))),
            )
        }),
{
    reveal_strlit("Version:0.9\r\nStartFragment:");
    reveal_strlit("\r\nEndFragment:");
    reveal_strlit("\r\n");
    reveal_strlit("StartFragment:");
    reveal_strlit("EndFragment:");
    let s = fragment_header(c, d) + document;
    let first = "Version:0.9\r\nStartFragment:"@;
    let v = first.take(13);
    let r1 = "EndFragment:"@ + d + "\r\n"@ + document;
    assert(first == v + "StartFragment:"@);
    assert("\r\nEndFragment:"@ == "\r\n"@ + "EndFragment:"@);
    assert(s == v + "StartFragment:"@ + c + "\r\n"@ + r1);
    assert(!v.contains('S'));
    assert(r1[0] == 'E');
    lemma_offset_at(v, "StartFragment:"@, c, r1);
    let w = v + "StartFragment:"@ + c + "\r\n"@;
    assert(s == w + "EndFragment:"@ + d + "\r\n"@ + document);
    assert(!w.contains('E')) by {
        assert forall|i: int| 0 <= i < w.len() implies w[i] != 'E' by {
            if 27 <= i < 27 + c.len() {
                assert(w[i] == c[i - 27]);
            }
        }
    }
    lemma_offset_at(w, "EndFragment:"@, d, document);
    assert(s[0] == first[0] && s[1] == first[1]);
    lemma_first_from(s, "StartHTML:"@, 0);
    assert(offset_at(s, "StartHTML:"@) is None);
    lemma_read_as_utf8(s);
}

/// What stands between the first mark that begins a fragment and the first mark behind it that ends
/// one is the fragment.
pub proof fn law_fragment_stands_between_its_marks(
    before: Seq<char>,
    fragment: Seq<char>,
    behind: Seq<char>,
)
    requires
        !before.contains('<'),
        !occurs(fragment, "<!--EndFragment-->"@),
    ensures
        marked_fragment(
            before + "<!--StartFragment-->"@ + fragment + "<!--EndFragment-->"@ + behind,
        ) == Some(fragment),
{
    reveal_strlit("<!--StartFragment-->");
    reveal_strlit("<!--EndFragment-->");
    let start = "<!--StartFragment-->"@;
    let end = "<!--EndFragment-->"@;
    let s = before + start + fragment + end + behind;
    let n = before.len() as int;
    assert(s.subrange(n, n + start.len()) == start);
    assert forall|j: int| 0 <= j < n implies !occurs_at(s, start, j) by {
        if occurs_at(s, start, j) {
            assert(s.subrange(j, j + start.len())[0] == s[j]);
            assert(s[j] == before[j]);
        }
    }
    lemma_first_is(s, start, 0, n);
    let rest = fragment + end + behind;
    let m = fragment.len() as int;
    assert(s.skip(n + start.len()) == rest);
    assert(rest.subrange(m, m + end.len()) == end);
    assert forall|j: int| 0 <= j < m implies !occurs_at(rest, end, j) by {
        if occurs_at(rest, end, j) {
            let q = rest.subrange(j, j + end.len());
            if j + end.len() <= m {
                assert(fragment.subrange(j, j + end.len()) == q);
                assert(occurs_at(fragment, end, j));
            } else {
                assert(q[m - j] == rest[m]);
                assert(rest[m] == end[0]);
            }
        }
    }
    lemma_first_is(rest, end, 0, m);
    assert(rest.take(m) == fragment);
}

/// Without offsets, the markup is what stands between the marks of the fragment, with the opening
/// bracket that it may have lost, whatever stands before and behind the marks.
pub proof fn law_markup_stands_between_the_marks(
    before: Seq<char>,
    fragment: Seq<char>,
    behind: Seq<char>,
)
    requires
        before.len() >= 2,
        '\u{1}' <= before[0] <= '\u{7f}',
        '\u{1}' <= before[1] <= '\u{7f}',
        !before.contains('<'),
        !occurs(fragment, "<!--EndFragment-->"@),
        has_no_offsets(
            before + "<!--StartFragment-->"@ + fragment + "<!--EndFragment-->"@ + behind,
        ),
    ensures
        cf_html(
            encode_utf8(
                before + "<!--StartFragment-->"@ + fragment + "<!--EndFragment-->"@ + behind,
            ),
        ) == Some(repaired(fragment)),
{
    let s = before + "<!--StartFragment-->"@ + fragment + "<!--EndFragment-->"@ + behind;
    law_fragment_stands_between_its_marks(before, fragment, behind);
    assert(s[0] == before[0] && s[1] == before[1]);
    lemma_read_as_utf8(s);
    lemma_no_offsets(s);
}

/// Without offsets and without the marks of a fragment, markup that begins with a tag is the markup
/// that is read, without white space at its ends; and a text that neither names a version nor looks
/// like markup is none.
pub proof fn law_markup_alone_is_read(s: Seq<char>)
    requires
        s.len() >= 2,
        '\u{1}' <= s[0] <= '\u{7f}',
        '\u{1}' <= s[1] <= '\u{7f}',
        has_no_offsets(s),
        !occurs(s, "<!--StartFragment-->"@),
        !occurs(s, "Version:"@),
    ensures
        s[0] == '<' ==> cf_html(encode_utf8(s)) == Some(trimmed(s)),
        !html_like(s) ==> cf_html(encode_utf8(s)) is None,
{
    reveal_strlit("<");
    lemma_read_as_utf8(s);
    lemma_no_offsets(s);
    lemma_first_from(s, "<!--StartFragment-->"@, 0);
    if s[0] == '<' {
        let (v, w) = lemma_trimmed_parts(s);
        let t = trimmed(s);
        if v.len() > 0 {
            assert(s[0] == v[0]);
        }
        assert(v + t == t);
        if t.len() == 0 {
            assert(s[0] == w[0]);
        }
        assert(t[0] == s[0]);
        assert(t.subrange(0, 1) =~= "<"@);
        assert(without_leading(s, '\u{feff}') == s);
        assert(trimmed_start(s) == s);
        assert(s.subrange(0, 1) =~= "<"@);
    }
}

/// A text has a header where the version of the flavor stands in it, or the keys of both starts,
/// whatever their case; and has none where neither the version nor one of these keys stands in it.
pub proof fn law_header_is_known_by_its_keys(s: Seq<char>)
    ensures
        occurs(lowered(s), "version:0.9"@) ==> has_cf_header(s),
        occurs(lowered(s), "starthtml:"@) && occurs(lowered(s), "startfragment:"@)
            ==> has_cf_header(s),
        !occurs(lowered(s), "version:0.9"@) && !occurs(lowered(s), "starthtml:"@)
            ==> !has_cf_header(s),
        !occurs(lowered(s), "version:0.9"@) && !occurs(lowered(s), "startfragment:"@)
            ==> !has_cf_header(s),
{
}

/// A text looks like markup where it begins, behind white space, with an opening bracket; without a
/// header also where it begins like one of fourteen tags that have lost theirs, or holds the two
/// attributes of a table.
pub proof fn law_markup_is_known_by_its_beginning(v: Seq<char>, s: Seq<char>, tag: Seq<char>)
    requires
        all_space(v),
        s.len() > 0,
        !is_space(s[0]),
        s[0] != '\u{feff}',
        tag == "table "@ || tag == "tbody"@ || tag == "thead"@ || tag == "tfoot"@ || tag == "tr "@
            || tag == "td "@ || tag == "th "@ || tag == "col "@ || tag == "colgroup"@ || tag
            == "div "@ || tag == "span "@ || tag == "p "@ || tag == "meta "@ || tag == "style "@,
    ensures
        s[0] == '<' ==> html_like(v + s),
        !has_cf_header(s) && tag.is_prefix_of(lowered(s)) ==> html_like(v + s),
        !has_cf_header(s) && occurs(lowered(s), "cellpadding="@) && occurs(
            lowered(s),
            "cellspacing="@,
        ) ==> html_like(v + s),
        has_cf_header(s) && s[0] != '<' ==> !html_like(v + s),
{
    reveal_strlit("<");
    let t = v + s;
    assert(t[0] == (if v.len() > 0 {
        v[0]
    } else {
        s[0]
    }));
    assert(without_leading(t, '\u{feff}') == t);
    lemma_trimmed_start_before(v, s);
    assert(trimmed_start(s) == s);
    if s[0] == '<' {
        assert(s.subrange(0, 1) =~= "<"@);
    } else if "<"@.is_prefix_of(s) {
        assert(s.subrange(0, 1)[0] == s[0]);
    }
}

/// The units of a text in UTF-16 are its characters, also in a part of it.
proof fn lemma_wide_part(s: Seq<char>, i: int, j: int)
    requires
        is_ascii_chars(s),
        0 <= i <= j <= s.len(),
    ensures
        utf16_read(units_of(wide_bytes(s).subrange(2 * i, 2 * j))) == s.subrange(i, j),
{
    let part = wide_bytes(s).subrange(2 * i, 2 * j);
    let t = s.subrange(i, j);
    let units = units_of(part);
    assert forall|k: int| 0 <= k < t.len() implies '\0' <= #[trigger] t[k] <= '\u{7f}' by {
        assert(t[k] == s[i + k]);
    }
    assert forall|k: int| 0 <= k < t.len() implies #[trigger] units[k] == t[k] as u16 by {
        assert(part[2 * k] == wide_bytes(s)[2 * (i + k)]);
        assert(part[2 * k + 1] == wide_bytes(s)[2 * (i + k) + 1]);
        assert(t[k] <= '\u{7f}');
    }
    lemma_utf16_ascii(units, t);
}

/// The range that a header names counts bytes, also in UTF-16: there the markup is what stands
/// between the characters at half of its ends.
pub proof fn law_wide_markup_is_the_range_of_the_document(
    a: Seq<char>,
    b: Seq<char>,
    c: Seq<char>,
    d: Seq<char>,
    document: Seq<char>,
    i: int,
    j: int,
)
    requires
        are_digits(a),
        are_digits(b),
        is_ascii_chars(full_header(a, b, c, d) + document),
        0 <= i < j <= (full_header(a, b, c, d) + document).len(),
        decimal(a) == 2 * i,
        decimal(b) == 2 * j,
        decimal(b) <= usize::MAX,
    ensures
        cf_html(wide_bytes(full_header(a, b, c, d) + document)) == Some(
            (full_header(a, b, c, d) + document).subrange(i, j),
        ),
        cf_offsets_fit(wide_bytes(full_header(a, b, c, d) + document)),
{
    let s = full_header(a, b, c, d) + document;
    let raw = wide_bytes(s);
    lemma_full_header(a, b, c, d, document);
    assert(raw[1] == 0 && raw[3] == 0);
    lemma_wide_part(s, 0, s.len() as int);
    assert(raw.subrange(0, 2 * s.len() as int) == raw);
    assert(s.subrange(0, s.len() as int) == s);
    assert(cf_text(raw) == s);
    lemma_wide_part(s, i, j);
}

/// A range that is empty or does not lie inside the data counts for nothing: the markup is then what
/// stands between the marks of the fragment.
pub proof fn law_useless_range_gives_way_to_the_marks(
    a: Seq<char>,
    b: Seq<char>,
    c: Seq<char>,
    d: Seq<char>,
    before: Seq<char>,
    fragment: Seq<char>,
    behind: Seq<char>,
)
    requires
        are_digits(a),
        are_digits(b),
        are_digits(c),
        are_digits(d),
        decimal(a) <= usize::MAX,
        decimal(b) <= usize::MAX,
        !before.contains('<'),
        !occurs(fragment, "<!--EndFragment-->"@),
        ({
            let s = full_header(a, b, c, d) + (before + "<!--StartFragment-->"@ + fragment
                + "<!--EndFragment-->"@ + behind);
            decimal(a) >= decimal(b) || decimal(b) > byte_len(s)
        }),
    ensures
        ({
            let s = full_header(a, b, c, d) + (before + "<!--StartFragment-->"@ + fragment
                + "<!--EndFragment-->"@ + behind);
            &&& cf_html(encode_utf8(s)) == Some(repaired(fragment))
            &&& cf_offsets_fit(encode_utf8(s))
        }),
{
    reveal_strlit("Version:0.9\r\nStartHTML:");
    reveal_strlit("\r\nEndHTML:");
    reveal_strlit("\r\nStartFragment:");
    reveal_strlit("\r\nEndFragment:");
    reveal_strlit("\r\n");
    let h = full_header(a, b, c, d);
    let document = before + "<!--StartFragment-->"@ + fragment + "<!--EndFragment-->"@ + behind;
    let s = h + document;
    lemma_full_header(a, b, c, d, document);
    lemma_read_as_utf8(s);
    let v = h + before;
    let n1 = 23 + a.len();
    let n2 = n1 + 10 + b.len();
    let n3 = n2 + 16 + c.len();
    assert forall|i: int| 0 <= i < h.len() implies h[i] != '<' by {
        if 23 <= i < n1 {
            assert(h[i] == a[i - 23]);
        } else if n1 + 10 <= i < n2 {
            assert(h[i] == b[i - n1 - 10]);
        } else if n2 + 16 <= i < n3 {
            assert(h[i] == c[i - n2 - 16]);
        } else if n3 + 14 <= i < n3 + 14 + d.len() {
            assert(h[i] == d[i - n3 - 14]);
        }
    }
    assert(!v.contains('<')) by {
        assert forall|i: int| 0 <= i < v.len() implies v[i] != '<' by {
            if i < h.len() {
                assert(v[i] == h[i]);
            } else {
                assert(v[i] == before[i - h.len()]);
                assert(before.contains(before[i - h.len()]));
            }
        }
    }
    assert(s == v + "<!--StartFragment-->"@ + fragment + "<!--EndFragment-->"@ + behind);
    law_fragment_stands_between_its_marks(v, fragment, behind);
}

/// A header that names no range of the document, as writers do with `-1`, and names that of the
/// fragment.
pub open spec fn unset_header(c: Seq<char>, d: Seq<char>) -> Seq<char> {
    "Version:0.9\r\nStartHTML:-1\r\nEndHTML:-1\r\nStartFragment:"@ + c + "\r\nEndFragment:"@ + d
        + "\r\n"@
}

/// Where a header sets the range of the document to `-1`, the range of the fragment decides.
pub proof fn law_unset_range_gives_way_to_the_fragment(
    c: Seq<char>,
    d: Seq<char>,
    document: Seq<char>,
)
    requires
        are_digits(c),
        are_digits(d),
        document.len() > 0,
        !is_digit(document[0]) && !is_space(document[0]),
        ({
            let s = unset_header(c, d) + document;
            &&& decimal(c) < decimal(d) <= byte_len(s) <= usize::MAX
            &&& on_boundary(s, decimal(c) as int)
            &&& on_boundary(s, decimal(d) as int)
        }),
    ensures
        ({
            let raw = encode_utf8(unset_header(c, d) + document);
            &&& cf_offsets_fit(raw)
            &&& cf_html(raw) == Some(
                repaired(decode_utf8(raw.subrange(decimal(c) as int, decimal(d) as int))),
            )
        }),
{
    reveal_strlit("Version:0.9\r\nStartHTML:-1\r\nEndHTML:-1\r\nStartFragment:");
    reveal_strlit("\r\nEndFragment:");
    reveal_strlit("\r\n");
    reveal_strlit("StartHTML:");
    reveal_strlit("StartFragment:");
    reveal_strlit("EndFragment:");
    let s = unset_header(c, d) + document;
    let first = "Version:0.9\r\nStartHTML:-1\r\nEndHTML:-1\r\nStartFragment:"@;
    let key = "StartHTML:"@;
    assert(s.subrange(13, 23) =~= key);
    assert forall|j: int| 0 <= j < 13 implies !occurs_at(s, key, j) by {
        if occurs_at(s, key, j) {
            assert(s.subrange(j, j + 10)[0] == s[j]);
            assert(s[j] == first[j]);
        }
    }
    lemma_first_is(s, key, 0, 13);
    let rest = s.skip(23);
    assert(rest[0] == first[23]);
    assert(digits_len(rest) == 0);
    let none = rest.take(0);
    assert(none == Seq::<char>::empty());
    lemma_trimmed_twice(none);
    assert(offset_at(s, key) is None) by {
        let (_, _) = lemma_trimmed_parts(none);
        assert(trimmed(none) == none);
    }
    let v = first.take(39);
    let key = "StartFragment:"@;
    let r1 = "EndFragment:"@ + d + "\r\n"@ + document;
    assert(first == v + key);
    assert("\r\nEndFragment:"@ == "\r\n"@ + "EndFragment:"@);
    assert(s == v + key + c + "\r\n"@ + r1);
    assert forall|j: int| 0 <= j < v.len() implies !occurs_at(s, key, j) by {
        if occurs_at(s, key, j) {
            assert(s.subrange(j, j + 14)[0] == s[j]);
            assert(s.subrange(j, j + 14)[5] == s[j + 5]);
            assert(s[j] == first[j]);
            assert(s[j + 5] == first[j + 5]);
        }
    }
    lemma_offset_behind(v, key, c, r1);
    let w = v + key + c + "\r\n"@;
    let end = "EndFragment:"@;
    assert(s == w + end + d + "\r\n"@ + document);
    assert forall|j: int| 0 <= j < w.len() implies !occurs_at(s, end, j) by {
        if occurs_at(s, end, j) {
            assert(s.subrange(j, j + 12)[0] == s[j]);
            assert(s.subrange(j, j + 12)[3] == s[j + 3]);
            if j < 53 {
                assert(s[j] == first[j]);
                assert(j < 50 ==> s[j + 3] == first[j + 3]);
            } else if j < 53 + c.len() {
                assert(s[j] == c[j - 53]);
            }
        }
    }
    lemma_offset_behind(w, end, d, document);
    assert(s[0] == first[0] && s[1] == first[1]);
    lemma_read_as_utf8(s);
}

/// Where neither offsets nor the marks of a fragment help, the text behind the lines of the header is
/// the markup if it looks like markup, else what begins with the first opening bracket.
pub proof fn law_text_behind_the_header_is_saved(before: Seq<char>, markup: Seq<char>)
    requires
        before.len() >= 2,
        '\u{1}' <= before[0] <= '\u{7f}',
        '\u{1}' <= before[1] <= '\u{7f}',
        !before.contains('<'),
        markup.len() > 0,
        markup[0] == '<',
        has_no_offsets(before + markup),
        !occurs(before + markup, "<!--StartFragment-->"@),
        occurs(before + markup, "Version:"@),
    ensures
        ({
            let s = before + markup;
            let body = body_text(s, false);
            &&& html_like(body) ==> cf_html(encode_utf8(s)) == Some(repaired(body))
            &&& !html_like(body) ==> cf_html(encode_utf8(s)) == Some(trimmed(markup))
        }),
{
    reveal_strlit("<");
    let s = before + markup;
    let n = before.len() as int;
    lemma_read_as_utf8(s);
    lemma_no_offsets(s);
    lemma_first_from(s, "<!--StartFragment-->"@, 0);
    assert(s.subrange(n, n + 1) =~= "<"@);
    assert forall|j: int| 0 <= j < n implies !occurs_at(s, "<"@, j) by {
        if occurs_at(s, "<"@, j) {
            assert(s.subrange(j, j + 1)[0] == before[j]);
            assert(before.contains(before[j]));
        }
    }
    lemma_first_is(s, "<"@, 0, n);
    assert(s.skip(n) == markup);
    assert(without_leading(markup, '\u{feff}') == markup);
    assert(trimmed_start(markup) == markup);
    assert(markup.subrange(0, 1) =~= "<"@);
    let (v, w) = lemma_trimmed_parts(markup);
    let t = trimmed(markup);
    if v.len() > 0 {
        assert(markup[0] == v[0]);
    }
    assert(v + t == t);
    if t.len() == 0 {
        assert(markup[0] == w[0]);
    }
    assert(t[0] == markup[0]);
    assert(t.subrange(0, 1) =~= "<"@);
}

/// Markup is given the opening bracket that its first tag has lost, and loses the white space at its
/// ends; markup that begins with a bracket, and text that does not begin like such a tag, get none.
pub proof fn law_lost_bracket_is_given_back(v: Seq<char>, markup: Seq<char>, w: Seq<char>)
    requires
        all_space(v),
        all_space(w),
        markup.len() > 0,
        !is_space(markup[0]),
        !is_space(markup.last()),
    ensures
        markup[0] == '<' ==> repaired(v + markup + w) == markup,
        markup[0] != '<' && pattern_found(
            r"(?is)^(table|tbody|thead|tfoot|tr|td|th|colgroup|col|div|span|p|ul|ol|li|blockquote|pre|h[1-6]|meta|style|img|a)\b[^>]*>"@,
            markup,
        ) ==> repaired(v + markup + w) == seq!['<'] + markup,
        markup[0] != '<' && !pattern_found(
            r"(?is)^(table|tbody|thead|tfoot|tr|td|th|colgroup|col|div|span|p|ul|ol|li|blockquote|pre|h[1-6]|meta|style|img|a)\b[^>]*>"@,
            markup,
        ) ==> repaired(v + markup + w) == markup,
{
    reveal_strlit("<");
    lemma_trimmed_around(v, markup, w);
    if markup[0] == '<' {
        assert(markup.subrange(0, 1) =~= "<"@);
    } else if "<"@.is_prefix_of(markup) {
        assert(markup.subrange(0, 1)[0] == markup[0]);
    }
    assert("<"@ == seq!['<']);
}

/// A byte order mark before a text makes no difference to whether it looks like markup.
pub proof fn law_markup_whatever_mark_before(s: Seq<char>)
    ensures
        html_like(seq!['\u{feff}'] + s) == html_like(s),
{
    let t = seq!['\u{feff}'] + s;
    assert(t.drop_first() == s);
    assert(without_leading(t, '\u{feff}') == without_leading(s, '\u{feff}'));
}

/// A blank line among those of the header belongs to it, and so does a line with one of its keys in
/// ASCII, whatever its case; the text begins with the first line that is neither.
pub proof fn law_header_goes_on_to_the_first_other_line(
    line: Seq<char>,
    rest: Seq<Seq<char>>,
    unicode: bool,
)
    ensures
        all_space(line) ==> body_lines(seq![line] + rest, unicode) == body_lines(rest, unicode),
        is_ascii_chars(trimmed(line)) && ("version:"@.is_prefix_of(lowered(trimmed(line)))
            || "starthtml:"@.is_prefix_of(lowered(trimmed(line))) || "endhtml:"@.is_prefix_of(
            lowered(trimmed(line)),
        ) || "startfragment:"@.is_prefix_of(lowered(trimmed(line)))
            || "endfragment:"@.is_prefix_of(lowered(trimmed(line)))
            || "sourceurl:"@.is_prefix_of(lowered(trimmed(line)))) ==> body_lines(
            seq![line] + rest,
            unicode,
        ) == body_lines(rest, unicode),
        is_ascii_chars(trimmed(line)) && trimmed(line).len() > 0 && !"version:"@.is_prefix_of(
            lowered(trimmed(line)),
        ) && !"starthtml:"@.is_prefix_of(lowered(trimmed(line))) && !"endhtml:"@.is_prefix_of(
            lowered(trimmed(line)),
        ) && !"startfragment:"@.is_prefix_of(lowered(trimmed(line)))
            && !"endfragment:"@.is_prefix_of(lowered(trimmed(line)))
            && !"sourceurl:"@.is_prefix_of(lowered(trimmed(line))) ==> body_lines(
            seq![line] + rest,
            unicode,
        ) == seq![line] + rest,
{
    let ls = seq![line] + rest;
    assert(ls[0] == line);
    assert(ls.drop_first() == rest);
    if all_space(line) {
        let (v, w) = lemma_trimmed_parts(line);
        let t = trimmed(line);
        if t.len() > 0 {
            assert(line[v.len() as int] == t[0]);
        }
    }
}

} // verus!
