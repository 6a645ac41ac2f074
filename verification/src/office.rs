//! The noise that office programs leave in clipboard text.

use vstd::prelude::*;
use vstd::utf8::encode_utf8;

use crate::layout::{collapse_preview_whitespace, one_line};
use crate::regexes::{
    cut_gap, cut_match, found, gap_text, match_text, pattern_found, pattern_ranges, range_fits,
    ranges, ranges_fit,
};
use crate::text::{
    byte_len, byte_slice, bytes_in, lemma_byte_parts, lemma_bytes_join, lemma_ends_on_boundary,
    lemma_slice_of_part, slice_bytes,
};

verus! {

/// Words that style definitions and other office metadata are known by.
pub const OFFICE_STYLE_SIGNAL: &'static str =
    r"(?is)(/\*\s*style definitions\s*\*/|mso-style-name|mso-style-noshow|mso-style-priority|mso-padding-alt|mso-para-margin|table\.mso|mso-|microsoftinternetexplorer\d*|documentnotspecified|wps office|office word|msonormal|mso normal|normal\s+\d+\s+false)";

/// An XML island.
pub const XML_BLOCK: &'static str = r"(?is)<xml\b[\s\S]*?</xml>";

/// A style sheet.
pub const STYLE_BLOCK: &'static str = r"(?is)<style\b[\s\S]*?</style>";

/// A comment.
pub const COMMENT_BLOCK: &'static str = r"(?is)<!--[\s\S]*?-->";

/// The start of a tag that shows something.
pub const RENDERABLE_TAG: &'static str =
    r"(?is)<(table|p|div|span|img|a|ul|ol|li|blockquote|pre|h[1-6])\b";

/// `s` reads like style definitions: long enough, and with one of their words.
pub open spec fn is_office_style(s: Seq<char>) -> bool {
    let t = one_line(s);
    byte_len(t) > 24 && pattern_found(OFFICE_STYLE_SIGNAL@, t)
}

/// Tells whether `text` reads like style definitions.
pub fn is_office_style_definition_text(text: &str) -> (r: bool)
    ensures
        r == is_office_style(text@),
{
    let normalized = collapse_preview_whitespace(text);
    bytes_in(&normalized) > 24 && found(OFFICE_STYLE_SIGNAL, &normalized)
}

/// The text up to and with the match `n - 1`, with the matches made spaces for which `noisy` holds.
pub open spec fn blocks_upto(
    text: Seq<char>,
    rs: Seq<(usize, usize)>,
    noisy: Seq<bool>,
    n: int,
) -> Seq<char>
    decreases n,
{
    if n <= 0 {
        seq![]
    } else {
        blocks_upto(text, rs, noisy, n - 1) + gap_text(text, rs, n - 1) + (if noisy[n - 1] {
            " "@
        } else {
            match_text(text, rs, n - 1)
        })
    }
}

/// `text` with the matches at `rs` made spaces for which `noisy` holds.
pub open spec fn blocks_blanked(
    text: Seq<char>,
    rs: Seq<(usize, usize)>,
    noisy: Seq<bool>,
) -> Seq<char> {
    blocks_upto(text, rs, noisy, rs.len() as int) + gap_text(text, rs, rs.len() as int)
}

/// Which of the matches at `rs` read like style definitions.
pub open spec fn noisy_blocks(text: Seq<char>, rs: Seq<(usize, usize)>) -> Seq<bool> {
    Seq::new(rs.len(), |i: int| is_office_style(match_text(text, rs, i)))
}

/// `text` with every match of `pattern` that reads like style definitions made a space.
pub open spec fn office_blocks_blanked(pattern: Seq<char>, text: Seq<char>) -> Seq<char> {
    let rs = pattern_ranges(pattern, text);
    blocks_blanked(text, rs, noisy_blocks(text, rs))
}

/// Makes the matches at `rs` spaces for which `noisy` holds.
pub fn blank_blocks(text: &str, rs: &Vec<(usize, usize)>, noisy: &[bool]) -> (r: String)
    requires
        ranges_fit(text@, rs@),
        noisy@.len() == rs@.len(),
    ensures
        r@ == blocks_blanked(text@, rs@, noisy@),
{
    let mut out = String::new();
    for i in 0..rs.len()
        invariant
            ranges_fit(text@, rs@),
            noisy@.len() == rs@.len(),
            out@ == blocks_upto(text@, rs@, noisy@, i as int),
    {
        out.append(cut_gap(text, rs, i));
        if noisy[i] {
            out.append(" ");
        } else {
            out.append(cut_match(text, rs, i));
        }
    }
    out.append(cut_gap(text, rs, rs.len()));
    out
}

/// Makes every match of `pattern` that reads like style definitions a space.
pub fn blank_office_blocks(pattern: &str, text: &str) -> (r: String)
    ensures
        r@ == office_blocks_blanked(pattern@, text@),
{
    let rs = ranges(pattern, text);
    let mut noisy: Vec<bool> = Vec::new();
    for i in 0..rs.len()
        invariant
            ranges_fit(text@, rs@),
            noisy@ == noisy_blocks(text@, rs@).take(i as int),
    {
        noisy.push(is_office_style_definition_text(cut_match(text, &rs, i)));
        assert(noisy_blocks(text@, rs@).take(i + 1) == noisy_blocks(text@, rs@).take(i as int).push(
            is_office_style(match_text(text@, rs@, i as int)),
        ));
    }
    assert(noisy@ == noisy_blocks(text@, rs@));
    blank_blocks(text, &rs, &noisy)
}

/// `s` from its first showing tag on, where what stands before it reads like style definitions.
pub open spec fn office_prefix_dropped(s: Seq<char>) -> Seq<char> {
    let rs = pattern_ranges(RENDERABLE_TAG@, s);
    if rs.len() > 0 && is_office_style(byte_slice(s, 0, rs[0].0 as int)) {
        byte_slice(s, rs[0].0 as int, byte_len(s) as int)
    } else {
        s
    }
}

/// Cuts off what stands before the first showing tag, where it reads like style definitions.
pub fn drop_office_prefix(text: &str) -> (r: String)
    ensures
        r@ == office_prefix_dropped(text@),
{
    let rs = ranges(RENDERABLE_TAG, text);
    if rs.len() > 0 {
        proof {
            lemma_ends_on_boundary(text@);
        }
        assert(range_fits(text@, rs@[0]));
        let start = rs[0].0;
        if is_office_style_definition_text(slice_bytes(text, 0, start)) {
            return slice_bytes(text, start, bytes_in(text)).to_owned();
        }
    }
    text.to_owned()
}

// ---------------------------------------------------------------------------
// Laws

/// A text of at most 24 bytes, white space collapsed, reads like no style definitions.
pub proof fn law_short_text_is_no_style(s: Seq<char>)
    requires
        byte_len(one_line(s)) <= 24,
    ensures
        !is_office_style(s),
{
}

/// A longer text reads like style definitions where one of their words stands in it.
pub proof fn law_style_is_known_by_its_words(s: Seq<char>)
    requires
        byte_len(one_line(s)) > 24,
        pattern_found(OFFICE_STYLE_SIGNAL@, one_line(s)),
    ensures
        is_office_style(s),
{
}

/// Up to a match, a text in which none is blanked is the text.
proof fn lemma_blocks_kept(text: Seq<char>, rs: Seq<(usize, usize)>, noisy: Seq<bool>, n: int)
    requires
        ranges_fit(text, rs),
        0 <= n <= rs.len(),
        noisy.len() == rs.len(),
        forall|i: int| 0 <= i < noisy.len() ==> !#[trigger] noisy[i],
    ensures
        blocks_upto(text, rs, noisy, n) == byte_slice(
            text,
            0,
            if n == 0 {
                0
            } else {
                rs[n - 1].1 as int
            },
        ),
    decreases n,
{
    lemma_ends_on_boundary(text);
    if n == 0 {
        assert(encode_utf8(text).subrange(0, 0) == Seq::<u8>::empty());
    } else {
        lemma_blocks_kept(text, rs, noisy, n - 1);
        let from: int = if n == 1 {
            0
        } else {
            rs[n - 2].1 as int
        };
        if n > 1 {
            assert(range_fits(text, rs[n - 2]));
            assert(rs[n - 2].1 <= rs[n - 1].0);
        }
        assert(range_fits(text, rs[n - 1]));
        assert(!noisy[n - 1]);
        lemma_bytes_join(text, from, rs[n - 1].0 as int);
        lemma_bytes_join(text, rs[n - 1].0 as int, rs[n - 1].1 as int);
    }
}

/// Blocks that read like no style definitions are not touched: a text in which no match of the
/// pattern is one stays as it is.
pub proof fn law_blocks_that_are_no_noise_stay(pattern: Seq<char>, text: Seq<char>)
    requires
        forall|i: int|
            0 <= i < pattern_ranges(pattern, text).len() ==> !is_office_style(
                #[trigger] match_text(text, pattern_ranges(pattern, text), i),
            ),
    ensures
        office_blocks_blanked(pattern, text) == text,
{
    let rs = pattern_ranges(pattern, text);
    let noisy = noisy_blocks(text, rs);
    let n = rs.len() as int;
    assert forall|i: int| 0 <= i < noisy.len() implies !#[trigger] noisy[i] by {
        assert(noisy[i] == is_office_style(match_text(text, rs, i)));
    }
    assert(ranges_fit(text, rs));
    lemma_blocks_kept(text, rs, noisy, n);
    lemma_ends_on_boundary(text);
    if n > 0 {
        assert(range_fits(text, rs[n - 1]));
        lemma_byte_parts(text, rs[n - 1].1 as int);
    } else {
        lemma_byte_parts(text, 0);
    }
}

/// A block that reads like style definitions is made one space, and what stands around it stays.
pub proof fn law_a_noisy_block_is_made_a_space(
    pattern: Seq<char>,
    before: Seq<char>,
    block: Seq<char>,
    behind: Seq<char>,
)
    requires
        byte_len(before + block + behind) <= usize::MAX,
        pattern_ranges(pattern, before + block + behind) == seq![
            (byte_len(before) as usize, byte_len(before + block) as usize),
        ],
        is_office_style(block),
    ensures
        office_blocks_blanked(pattern, before + block + behind) == before + seq![' '] + behind,
{
    reveal_strlit(" ");
    let e = Seq::<char>::empty();
    let text = before + block + behind;
    let rs = pattern_ranges(pattern, text);
    lemma_slice_of_part(e, before, block + behind);
    assert(e + before == before);
    assert(before + (block + behind) == text);
    lemma_slice_of_part(before, block, behind);
    lemma_slice_of_part(before + block, behind, e);
    assert(text + e == text);
    assert(byte_len(e) == 0);
    let noisy = noisy_blocks(text, rs);
    assert(match_text(text, rs, 0) == block);
    assert(gap_text(text, rs, 0) == before);
    assert(gap_text(text, rs, 1) == behind);
    assert(noisy[0]);
    assert(blocks_upto(text, rs, noisy, 0) == e);
    assert(blocks_upto(text, rs, noisy, 1) == e + before + " "@);
    assert(" "@ == seq![' ']);
}

/// What stands before the first showing tag is cut off where it reads like style definitions, and
/// only there.
pub proof fn law_only_a_noisy_prefix_is_dropped(
    prefix: Seq<char>,
    rest: Seq<char>,
    end: usize,
)
    requires
        byte_len(prefix + rest) <= usize::MAX,
        pattern_ranges(RENDERABLE_TAG@, prefix + rest).len() > 0,
        pattern_ranges(RENDERABLE_TAG@, prefix + rest)[0] == (byte_len(prefix) as usize, end),
    ensures
        office_prefix_dropped(prefix + rest) == (if is_office_style(prefix) {
            rest
        } else {
            prefix + rest
        }),
{
    let e = Seq::<char>::empty();
    lemma_slice_of_part(e, prefix, rest);
    lemma_slice_of_part(prefix, rest, e);
    assert(e + prefix == prefix);
    assert(prefix + rest + e == prefix + rest);
    assert(byte_len(e) == 0);
}

} // verus!
