//! Plain text out of clipboard text that may carry a header, markup and office noise.
//!
//! The steps call each other: the text behind a header may be markup, and markup may carry a header
//! again. `depth` bounds how many headers may lie inside each other. A text that comes up again
//! behind its own header has no end to that, and a header whose offsets cut a character in two has
//! no meaning; on both the steps give `None`. Any depth that suffices gives the same text. The code
//! goes as deep as a text can reach, and knows by the headed texts that it has met when one of them
//! comes up again.

use vstd::prelude::*;
use vstd::utf8::encode_utf8;

use crate::cf_html::{
    body_lines, body_text, cf_html, cf_offsets_fit, cut_marked_fragment, drop_header_lines,
    has_cf_header, html_like, law_body_begins_behind_the_header, law_header_whatever_white_space,
    law_repair_makes_no_header, looks_like_cf_html_header_text, looks_like_html_fragment_shallow,
    marked_fragment, offsets_fit, parse_cf_html, repair_html_fragment, repaired,
};
use crate::chars::{is_space, lower_char};
use crate::layout::{
    collapse_preview_whitespace, decode_basic_html_entities, entities_decoded, is_single_line,
    is_tight, law_blank_text_has_no_words, law_layout_lines_are_tidy, law_no_return_is_left,
    law_unified_brings_in_nothing, law_unified_keeps_the_words, law_unified_twice, layout_lines,
    lemma_lines_single, newlines_unified, normalize_plain_text_layout, one_line, tidy_layout,
    unify_newlines,
};
use crate::office::{
    blank_office_blocks, drop_office_prefix, is_office_style, is_office_style_definition_text,
    office_blocks_blanked, office_prefix_dropped, COMMENT_BLOCK, STYLE_BLOCK, XML_BLOCK,
};
use crate::regexes::{
    cut_match_group, group_text, group_views, groups, pattern_groups, pattern_ranges,
    pattern_replaced, range_fits, ranges, replace_matches,
};
use crate::render::{is_mark, law_no_mark_is_left, remove_marks, render, shown, unmarked};
use crate::text::{
    byte_len, byte_slice, bytes_in, contains, is_blank, join2, joined, lemma_byte_parts,
    lemma_trimmed_parts, lemma_trimmed_twice, line_list, lowered, occurs, occurs_at, same,
    slice_bytes, string_opt, strings, to_lower, trim, trimmed,
};

verus! {

/// The body of a document.
pub const BODY: &'static str = r"(?is)<body\b[^>]*>([\s\S]*?)</body\s*>";

/// The head of a document.
pub const HEAD: &'static str = r"(?is)<head\b[\s\S]*?</head\s*>";

/// The words of office metadata at the start of a text.
pub const METADATA_PREFIX: &'static str =
    r"(?is)^\s*(?:(?:\d+|false|true|[a-z]{2}(?:-[a-z]{2})?|x-none|normal|documentnotspecified|microsoftinternetexplorer\d*|[\d.]+(?:pt|px|磅))\s+)+";

/// An entry of a header inside a line.
pub const INLINE_HEADER: &'static str =
    r"(?is)\b(?:version:\s*[^\s]+|starthtml:\s*\d+|endhtml:\s*\d+|startfragment:\s*\d+|endfragment:\s*\d+|sourceurl:\s*\S+)";

/// An entity for a space that does not break.
pub const HARD_SPACE_ENTITY: &'static str = r"(?i)&(?:nbsp|#0*160|#x0*a0);";

/// The mark of a space that must stay, as a text.
pub const HARD_SPACE_MARK: &'static str = "\u{f0001}";

// ---------------------------------------------------------------------------
// Models

/// The text of the first body in `s`.
pub open spec fn first_body(s: Seq<char>) -> Option<Seq<char>> {
    let gs = pattern_groups(BODY@, s);
    if gs.len() > 0 && gs[0].len() > 1 && gs[0][1] is Some {
        Some(group_text(s, gs[0], 1))
    } else {
        None
    }
}

/// `s` without the first match of `pattern`.
pub open spec fn first_match_dropped(pattern: Seq<char>, s: Seq<char>) -> Seq<char> {
    let rs = pattern_ranges(pattern, s);
    if rs.len() > 0 {
        byte_slice(s, 0, rs[0].0 as int) + byte_slice(s, rs[0].1 as int, byte_len(s) as int)
    } else {
        s
    }
}

/// `s` holds one of the words that office metadata begins with.
pub open spec fn has_metadata(s: Seq<char>) -> bool {
    occurs(lowered(s), "microsoftinternetexplorer"@) || occurs(lowered(s), "documentnotspecified"@)
}

/// `s` without the office metadata at its start, where something else is left.
pub open spec fn metadata_cut(s: Seq<char>) -> Seq<char> {
    let cut = trimmed(first_match_dropped(METADATA_PREFIX@, s));
    if !has_metadata(s) || cut.len() == 0 {
        s
    } else {
        cut
    }
}

/// The plain text of the clipboard text `s`.
pub open spec fn plain_text_at(s: Seq<char>, depth: nat) -> Option<Seq<char>>
    decreases depth, 0nat,
{
    let n = newlines_unified(s);
    if !has_cf_header(n) {
        Some(n)
    } else if depth == 0 || !cf_offsets_fit(encode_utf8(n)) {
        None
    } else {
        headed_text_at(n, (depth - 1) as nat)
    }
}

/// The plain text of the text `s` with a header: what its markup shows, or else what is left when
/// the header is dropped.
pub open spec fn headed_text_at(s: Seq<char>, depth: nat) -> Option<Seq<char>>
    decreases depth, 6nat,
{
    let from_markup = match cf_html(encode_utf8(s)) {
        Some(html) => html_text_at(html, depth),
        None => Some(seq![]),
    };
    match from_markup {
        Some(p) => if trimmed(p).len() > 0 {
            Some(p)
        } else {
            header_dropped_at(s, depth)
        },
        None => None,
    }
}

/// What is left of the text `s` when its header is dropped: the header lines, or else the entries
/// of a header inside a line.
pub open spec fn header_dropped_at(s: Seq<char>, depth: nat) -> Option<Seq<char>>
    decreases depth, 5nat,
{
    let body = body_text(s, true);
    let inline = trimmed(tidy_layout(pattern_replaced(INLINE_HEADER@, s, " "@)));
    if body.len() > 0 && body != s {
        markup_read_at(body, depth)
    } else if inline.len() > 0 {
        markup_read_at(inline, depth)
    } else {
        Some(s)
    }
}

/// The text that `s` shows, where it looks like markup that shows something, and else `s`.
pub open spec fn markup_read_at(s: Seq<char>, depth: nat) -> Option<Seq<char>>
    decreases depth, 4nat,
{
    match looks_html_at(s, depth) {
        Some(b) => if b {
            match html_text_at(s, depth) {
                Some(p) => Some(
                    if trimmed(p).len() > 0 {
                        p
                    } else {
                        s
                    },
                ),
                None => None,
            }
        } else {
            Some(s)
        },
        None => None,
    }
}

/// Whether `s` looks like markup once office noise is gone.
pub open spec fn looks_html_at(s: Seq<char>, depth: nat) -> Option<bool>
    decreases depth, 3nat,
{
    match noise_stripped_at(s, depth) {
        Some(t) => Some(html_like(t)),
        None => None,
    }
}

/// The part of the markup `s` that is shown: the marked fragment, else what stands behind a header,
/// else the body, else all but the head.
pub open spec fn renderable_region_at(s: Seq<char>, depth: nat) -> Option<Seq<char>>
    decreases depth, 1nat,
{
    let t = trimmed(repaired(s));
    let unheaded = match first_body(t) {
        Some(b) => trimmed(b),
        None => trimmed(pattern_replaced(HEAD@, t, " "@)),
    };
    if t.len() == 0 {
        Some(seq![])
    } else if marked_fragment(t) is Some {
        Some(trimmed(marked_fragment(t)->0))
    } else if has_cf_header(t) {
        match plain_text_at(t, depth) {
            Some(p) => Some(
                if p.len() > 0 && byte_len(p) < byte_len(t) {
                    p
                } else {
                    unheaded
                },
            ),
            None => None,
        }
    } else {
        Some(unheaded)
    }
}

/// `s` without its office blocks, and without what stands before the first showing tag where that
/// is office noise.
pub open spec fn blocks_stripped(s: Seq<char>) -> Seq<char> {
    let s1 = office_blocks_blanked(XML_BLOCK@, s);
    let s2 = office_blocks_blanked(STYLE_BLOCK@, s1);
    let s3 = office_blocks_blanked(COMMENT_BLOCK@, s2);
    trimmed(office_prefix_dropped(s3))
}

/// The shown part of the markup `s` without office noise.
pub open spec fn noise_stripped_at(s: Seq<char>, depth: nat) -> Option<Seq<char>>
    decreases depth, 2nat,
{
    match renderable_region_at(s, depth) {
        Some(region) => Some(
            if trimmed(region).len() == 0 {
                seq![]
            } else {
                blocks_stripped(region)
            },
        ),
        None => None,
    }
}

/// The tidy layout of `s` without a header and without office metadata at its start.
pub open spec fn metadata_dropped_at(s: Seq<char>, depth: nat) -> Option<Seq<char>>
    decreases depth, 1nat,
{
    let n = tidy_layout(s);
    if n.len() == 0 {
        Some(n)
    } else {
        match plain_text_at(n, depth) {
            Some(p) => Some(metadata_cut(p)),
            None => None,
        }
    }
}

/// What the markup `s` shows, with entities decoded. Spaces that do not break are marked.
pub open spec fn shown_decoded(s: Seq<char>) -> Seq<char> {
    entities_decoded(pattern_replaced(HARD_SPACE_ENTITY@, shown(s), HARD_SPACE_MARK@))
}

/// The text that the markup `s` shows, without office noise. It is empty where only noise is shown.
pub open spec fn html_text_at(s: Seq<char>, depth: nat) -> Option<Seq<char>>
    decreases depth, 3nat,
{
    match noise_stripped_at(s, depth) {
        Some(t) => if t.len() == 0 {
            Some(seq![])
        } else {
            match metadata_dropped_at(tidy_layout(shown_decoded(t)), depth) {
                Some(p) => Some(
                    if is_office_style(one_line(p)) {
                        seq![]
                    } else {
                        unmarked(p)
                    },
                ),
                None => None,
            }
        },
        None => None,
    }
}

// ---------------------------------------------------------------------------
// Steps that do not recur

/// Cuts out the text of the first body.
fn cut_first_body(text: &str) -> (r: Option<String>)
    ensures
        string_opt(r) == first_body(text@),
{
    let gs = groups(BODY, text);
    if gs.len() > 0 {
        assert(group_views(gs@)[0] == gs@[0]@);
        if gs[0].len() > 1 && gs[0][1].is_some() {
            return Some(cut_match_group(text, &gs, 0, 1));
        }
    }
    None
}

/// Cuts the first match of `pattern` out of `text`.
fn drop_first_match(pattern: &str, text: &str) -> (r: String)
    ensures
        r@ == first_match_dropped(pattern@, text@),
{
    let rs = ranges(pattern, text);
    if rs.len() > 0 {
        proof {
            crate::text::lemma_ends_on_boundary(text@);
        }
        assert(range_fits(text@, rs@[0]));
        let (a, b) = rs[0];
        join2(slice_bytes(text, 0, a), slice_bytes(text, b, bytes_in(text)))
    } else {
        text.to_owned()
    }
}

/// Cuts office metadata off the start of `text`.
fn cut_metadata(text: &str) -> (r: String)
    ensures
        r@ == metadata_cut(text@),
{
    let lower = to_lower(text);
    if !(contains(&lower, "microsoftinternetexplorer") || contains(
        &lower,
        "documentnotspecified",
    )) {
        return text.to_owned();
    }
    let cut = trim(&drop_first_match(METADATA_PREFIX, text));
    if cut.as_str().is_empty() {
        text.to_owned()
    } else {
        cut
    }
}

/// Cuts office blocks and an office prefix out of `text`.
fn strip_blocks(text: &str) -> (r: String)
    ensures
        r@ == blocks_stripped(text@),
{
    let s1 = blank_office_blocks(XML_BLOCK, text);
    let s2 = blank_office_blocks(STYLE_BLOCK, &s1);
    let s3 = blank_office_blocks(COMMENT_BLOCK, &s2);
    trim(&drop_office_prefix(&s3))
}

/// Renders the markup `html` and decodes its entities.
fn render_decoded(html: &str) -> (r: String)
    ensures
        r@ == shown_decoded(html@),
{
    decode_basic_html_entities(&replace_matches(HARD_SPACE_ENTITY, &render(html), HARD_SPACE_MARK))
}

// ---------------------------------------------------------------------------
// Depth

/// A depth that is enough gives the same plain text as every greater one.
pub proof fn lemma_plain_text_depth(s: Seq<char>, d: nat, e: nat)
    requires
        plain_text_at(s, d) is Some,
        d <= e,
    ensures
        plain_text_at(s, e) == plain_text_at(s, d),
    decreases d, 0nat,
{
    let n = newlines_unified(s);
    if has_cf_header(n) {
        lemma_headed_text_depth(n, (d - 1) as nat, (e - 1) as nat);
    }
}

/// A depth that is enough reads a text with a header as every greater one does.
pub proof fn lemma_headed_text_depth(s: Seq<char>, d: nat, e: nat)
    requires
        headed_text_at(s, d) is Some,
        d <= e,
    ensures
        headed_text_at(s, e) == headed_text_at(s, d),
    decreases d, 6nat,
{
    if let Some(html) = cf_html(encode_utf8(s)) {
        lemma_html_text_depth(html, d, e);
        if trimmed(html_text_at(html, d)->0).len() == 0 {
            lemma_header_dropped_depth(s, d, e);
        }
    } else {
        assert(trimmed(Seq::<char>::empty()).len() == 0);
        lemma_header_dropped_depth(s, d, e);
    }
}

/// A depth that is enough drops the same header as every greater one.
pub proof fn lemma_header_dropped_depth(s: Seq<char>, d: nat, e: nat)
    requires
        header_dropped_at(s, d) is Some,
        d <= e,
    ensures
        header_dropped_at(s, e) == header_dropped_at(s, d),
    decreases d, 5nat,
{
    let body = body_text(s, true);
    let inline = trimmed(tidy_layout(pattern_replaced(INLINE_HEADER@, s, " "@)));
    if body.len() > 0 && body != s {
        lemma_markup_read_depth(body, d, e);
    } else if inline.len() > 0 {
        lemma_markup_read_depth(inline, d, e);
    }
}

/// A depth that is enough reads markup as every greater one does.
pub proof fn lemma_markup_read_depth(s: Seq<char>, d: nat, e: nat)
    requires
        markup_read_at(s, d) is Some,
        d <= e,
    ensures
        markup_read_at(s, e) == markup_read_at(s, d),
    decreases d, 4nat,
{
    lemma_looks_html_depth(s, d, e);
    if looks_html_at(s, d)->0 {
        lemma_html_text_depth(s, d, e);
    }
}

/// A depth that is enough knows markup as every greater one does.
pub proof fn lemma_looks_html_depth(s: Seq<char>, d: nat, e: nat)
    requires
        looks_html_at(s, d) is Some,
        d <= e,
    ensures
        looks_html_at(s, e) == looks_html_at(s, d),
    decreases d, 3nat,
{
    lemma_noise_stripped_depth(s, d, e);
}

/// A depth that is enough gives the same shown part as every greater one.
pub proof fn lemma_renderable_region_depth(s: Seq<char>, d: nat, e: nat)
    requires
        renderable_region_at(s, d) is Some,
        d <= e,
    ensures
        renderable_region_at(s, e) == renderable_region_at(s, d),
    decreases d, 1nat,
{
    let t = trimmed(repaired(s));
    if t.len() > 0 && marked_fragment(t) is None && has_cf_header(t) {
        lemma_plain_text_depth(t, d, e);
    }
}

/// A depth that is enough strips the same noise as every greater one.
pub proof fn lemma_noise_stripped_depth(s: Seq<char>, d: nat, e: nat)
    requires
        noise_stripped_at(s, d) is Some,
        d <= e,
    ensures
        noise_stripped_at(s, e) == noise_stripped_at(s, d),
    decreases d, 2nat,
{
    lemma_renderable_region_depth(s, d, e);
}

/// A depth that is enough drops the same metadata as every greater one.
pub proof fn lemma_metadata_dropped_depth(s: Seq<char>, d: nat, e: nat)
    requires
        metadata_dropped_at(s, d) is Some,
        d <= e,
    ensures
        metadata_dropped_at(s, e) == metadata_dropped_at(s, d),
    decreases d, 1nat,
{
    let n = tidy_layout(s);
    if n.len() > 0 {
        lemma_plain_text_depth(n, d, e);
    }
}

/// A depth that is enough gives the same shown text as every greater one.
pub proof fn lemma_html_text_depth(s: Seq<char>, d: nat, e: nat)
    requires
        html_text_at(s, d) is Some,
        d <= e,
    ensures
        html_text_at(s, e) == html_text_at(s, d),
    decreases d, 3nat,
{
    lemma_noise_stripped_depth(s, d, e);
    let t = noise_stripped_at(s, d)->0;
    if t.len() > 0 {
        lemma_metadata_dropped_depth(tidy_layout(shown_decoded(t)), d, e);
    }
}

// ---------------------------------------------------------------------------
// Texts that come up again

/// The steps that call each other.
enum Step {
    /// The plain text of a text.
    Plain,
    /// The plain text of a text with a header.
    Headed,
    /// What is left without a header.
    Dropped,
    /// The text of what may be markup.
    Read,
    /// Whether a text looks like markup.
    Looks,
    /// The shown part of markup.
    Region,
    /// The shown part of markup without office noise.
    Noise,
    /// A text without office metadata.
    Metadata,
    /// The text that markup shows.
    Shown,
}

/// The step `step` has an answer on the text `s`.
spec fn answered(step: Step, s: Seq<char>, depth: nat) -> bool {
    match step {
        Step::Plain => plain_text_at(s, depth) is Some,
        Step::Headed => headed_text_at(s, depth) is Some,
        Step::Dropped => header_dropped_at(s, depth) is Some,
        Step::Read => markup_read_at(s, depth) is Some,
        Step::Looks => looks_html_at(s, depth) is Some,
        Step::Region => renderable_region_at(s, depth) is Some,
        Step::Noise => noise_stripped_at(s, depth) is Some,
        Step::Metadata => metadata_dropped_at(s, depth) is Some,
        Step::Shown => html_text_at(s, depth) is Some,
    }
}

/// The headed texts `seen` wait for the answer of the step `step` on the text `s`: none of them has
/// a plain text unless that step has an answer one header deeper.
spec fn awaited(seen: Seq<Seq<char>>, step: Step, s: Seq<char>) -> bool {
    forall|i: int, d: nat|
        0 <= i < seen.len() && (#[trigger] plain_text_at(seen[i], d)) is Some ==> d > 0 && answered(
            step,
            s,
            (d - 1) as nat,
        )
}

/// What waits for a step waits for the steps that it calls.
proof fn lemma_awaits(seen: Seq<Seq<char>>, step: Step, s: Seq<char>, called: Step, t: Seq<char>)
    requires
        awaited(seen, step, s),
        forall|d: nat| answered(step, s, d) ==> #[trigger] answered(called, t, d),
    ensures
        awaited(seen, called, t),
{
    assert forall|i: int, d: nat|
        0 <= i < seen.len() && (#[trigger] plain_text_at(seen[i], d)) is Some implies d > 0
        && answered(called, t, (d - 1) as nat) by {
        assert(answered(step, s, (d - 1) as nat));
    }
}

/// A text with a header waits for what stands behind it, and so does what waits for that text.
proof fn lemma_awaits_headed(seen: Seq<Seq<char>>, s: Seq<char>)
    requires
        awaited(seen, Step::Plain, s),
        has_cf_header(newlines_unified(s)),
    ensures
        awaited(seen.push(newlines_unified(s)), Step::Headed, newlines_unified(s)),
{
    let n = newlines_unified(s);
    let more = seen.push(n);
    law_unified_twice(s);
    assert forall|i: int, d: nat|
        0 <= i < more.len() && (#[trigger] plain_text_at(more[i], d)) is Some implies d > 0
        && answered(Step::Headed, n, (d - 1) as nat) by {
        if i < seen.len() {
            assert(more[i] == seen[i]);
            assert(answered(Step::Plain, s, (d - 1) as nat));
            lemma_headed_text_depth(n, (d - 2) as nat, (d - 1) as nat);
        }
    }
}

/// A text that waits for itself has no plain text.
proof fn lemma_no_answer(seen: Seq<Seq<char>>, s: Seq<char>, d: nat)
    requires
        awaited(seen, Step::Plain, s),
        seen.contains(newlines_unified(s)),
    ensures
        plain_text_at(s, d) is None,
    decreases d,
{
    let n = newlines_unified(s);
    let i = choose|i: int| 0 <= i < seen.len() && seen[i] == n;
    law_plain_text_whatever_line_endings(s, d);
    if plain_text_at(seen[i], d) is Some {
        lemma_no_answer(seen, s, (d - 1) as nat);
        assert(answered(Step::Plain, s, (d - 1) as nat));
    }
}

/// Two depths that are enough show the same text.
proof fn lemma_same_html_text(s: Seq<char>, d: nat, e: nat)
    requires
        html_text_at(s, d) is Some,
        html_text_at(s, e) is Some,
    ensures
        html_text_at(s, d) == html_text_at(s, e),
{
    if d <= e {
        lemma_html_text_depth(s, d, e);
    } else {
        lemma_html_text_depth(s, e, d);
    }
}

/// Two depths that are enough strip the same noise.
proof fn lemma_same_noise_stripped(s: Seq<char>, d: nat, e: nat)
    requires
        noise_stripped_at(s, d) is Some,
        noise_stripped_at(s, e) is Some,
    ensures
        noise_stripped_at(s, d) == noise_stripped_at(s, e),
{
    if d <= e {
        lemma_noise_stripped_depth(s, d, e);
    } else {
        lemma_noise_stripped_depth(s, e, d);
    }
}

// ---------------------------------------------------------------------------
// Steps that recur

/// Tells whether `text` is one of `seen`.
fn is_among(seen: &Vec<String>, text: &str) -> (r: bool)
    ensures
        r == strings(seen@).contains(text@),
{
    for i in 0..seen.len()
        invariant
            forall|j: int| 0 <= j < i ==> (#[trigger] seen@[j])@ != text@,
    {
        if same(&seen[i], text) {
            assert(strings(seen@)[i as int] == text@);
            return true;
        }
    }
    false
}

/// Finds the plain text of `text`, for which the texts `seen` wait.
fn plain_text_within(text: &str, depth: usize, seen: &mut Vec<String>) -> (r: Option<String>)
    requires
        awaited(strings(old(seen)@), Step::Plain, text@),
    ensures
        string_opt(r) == plain_text_at(text@, depth as nat),
        final(seen)@ == old(seen)@,
    decreases depth, 0nat,
{
    let normalized = unify_newlines(text);
    if !looks_like_cf_html_header_text(&normalized) {
        return Some(normalized);
    }
    if depth == 0 || !offsets_fit(normalized.as_str().as_bytes()) {
        return None;
    }
    if is_among(seen, &normalized) {
        proof {
            lemma_no_answer(strings(old(seen)@), text@, depth as nat);
        }
        return None;
    }
    proof {
        lemma_awaits_headed(strings(old(seen)@), text@);
    }
    seen.push(normalized.as_str().to_owned());
    assert(strings(seen@) == strings(old(seen)@).push(normalized@));
    let r = headed_text_within(&normalized, depth - 1, seen);
    seen.pop();
    assert(seen@ == old(seen)@);
    r
}

/// Finds the plain text of `text`, which has a header.
fn headed_text_within(text: &str, depth: usize, seen: &mut Vec<String>) -> (r: Option<String>)
    requires
        cf_offsets_fit(encode_utf8(text@)),
        awaited(strings(old(seen)@), Step::Headed, text@),
    ensures
        string_opt(r) == headed_text_at(text@, depth as nat),
        final(seen)@ == old(seen)@,
    decreases depth, 6nat,
{
    let ghost s = strings(seen@);
    if let Some(html) = parse_cf_html(text.as_bytes()) {
        proof {
            lemma_awaits(s, Step::Headed, text@, Step::Shown, html@);
        }
        let plain = html_text_within(&html, depth, seen)?;
        if !is_blank(&plain) {
            return Some(plain);
        }
        proof {
            assert forall|d: nat| answered(Step::Headed, text@, d) implies #[trigger] answered(
                Step::Dropped,
                text@,
                d,
            ) by {
                lemma_same_html_text(html@, d, depth as nat);
            }
        }
    }
    proof {
        assert(trimmed(Seq::<char>::empty()).len() == 0);
        lemma_awaits(s, Step::Headed, text@, Step::Dropped, text@);
    }
    header_dropped_within(text, depth, seen)
}

/// Drops the header of `text`.
fn header_dropped_within(text: &str, depth: usize, seen: &mut Vec<String>) -> (r: Option<String>)
    requires
        awaited(strings(old(seen)@), Step::Dropped, text@),
    ensures
        string_opt(r) == header_dropped_at(text@, depth as nat),
        final(seen)@ == old(seen)@,
    decreases depth, 5nat,
{
    let ghost s = strings(seen@);
    let body = drop_header_lines(text, true);
    if !body.as_str().is_empty() && !same(&body, text) {
        proof {
            lemma_awaits(s, Step::Dropped, text@, Step::Read, body@);
        }
        return markup_read_within(body, depth, seen);
    }
    let inline = trim(&normalize_plain_text_layout(&replace_matches(INLINE_HEADER, text, " ")));
    if inline.as_str().is_empty() {
        return Some(text.to_owned());
    }
    proof {
        lemma_awaits(s, Step::Dropped, text@, Step::Read, inline@);
    }
    markup_read_within(inline, depth, seen)
}

/// Renders `text` where it looks like markup that shows something.
fn markup_read_within(text: String, depth: usize, seen: &mut Vec<String>) -> (r: Option<String>)
    requires
        awaited(strings(old(seen)@), Step::Read, text@),
    ensures
        string_opt(r) == markup_read_at(text@, depth as nat),
        final(seen)@ == old(seen)@,
    decreases depth, 4nat,
{
    let ghost s = strings(seen@);
    proof {
        lemma_awaits(s, Step::Read, text@, Step::Looks, text@);
    }
    if looks_html_within(&text, depth, seen)? {
        proof {
            assert forall|d: nat| answered(Step::Read, text@, d) implies #[trigger] answered(
                Step::Shown,
                text@,
                d,
            ) by {
                lemma_same_noise_stripped(text@, d, depth as nat);
            }
            lemma_awaits(s, Step::Read, text@, Step::Shown, text@);
        }
        let plain = html_text_within(&text, depth, seen)?;
        if !is_blank(&plain) {
            return Some(plain);
        }
    }
    Some(text)
}

/// Tells whether `text` looks like markup once office noise is gone.
fn looks_html_within(text: &str, depth: usize, seen: &mut Vec<String>) -> (r: Option<bool>)
    requires
        awaited(strings(old(seen)@), Step::Looks, text@),
    ensures
        r == looks_html_at(text@, depth as nat),
        final(seen)@ == old(seen)@,
    decreases depth, 3nat,
{
    proof {
        lemma_awaits(strings(seen@), Step::Looks, text@, Step::Noise, text@);
    }
    let stripped = noise_stripped_within(text, depth, seen)?;
    Some(looks_like_html_fragment_shallow(&stripped))
}

/// Cuts out the part of the markup `html` that is shown.
fn renderable_region_within(html: &str, depth: usize, seen: &mut Vec<String>) -> (r: Option<String>)
    requires
        awaited(strings(old(seen)@), Step::Region, html@),
    ensures
        string_opt(r) == renderable_region_at(html@, depth as nat),
        final(seen)@ == old(seen)@,
    decreases depth, 1nat,
{
    let trimmed = trim(&repair_html_fragment(html));
    if trimmed.as_str().is_empty() {
        return Some(trimmed);
    }
    if let Some(fragment) = cut_marked_fragment(&trimmed) {
        return Some(trim(&fragment));
    }
    if looks_like_cf_html_header_text(&trimmed) {
        proof {
            lemma_awaits(strings(seen@), Step::Region, html@, Step::Plain, trimmed@);
        }
        let stripped = plain_text_within(&trimmed, depth, seen)?;
        if !stripped.as_str().is_empty() && bytes_in(&stripped) < bytes_in(&trimmed) {
            return Some(stripped);
        }
    }
    match cut_first_body(&trimmed) {
        Some(body) => Some(trim(&body)),
        None => Some(trim(&replace_matches(HEAD, &trimmed, " "))),
    }
}

/// Cuts out the shown part of the markup `text` and its office noise.
fn noise_stripped_within(text: &str, depth: usize, seen: &mut Vec<String>) -> (r: Option<String>)
    requires
        awaited(strings(old(seen)@), Step::Noise, text@),
    ensures
        string_opt(r) == noise_stripped_at(text@, depth as nat),
        final(seen)@ == old(seen)@,
    decreases depth, 2nat,
{
    proof {
        lemma_awaits(strings(seen@), Step::Noise, text@, Step::Region, text@);
    }
    let region = renderable_region_within(text, depth, seen)?;
    if is_blank(&region) {
        return Some(trim(&region));
    }
    Some(strip_blocks(&region))
}

/// Puts `text` in a tidy layout and drops a header and office metadata at its start.
fn metadata_dropped_within(text: &str, depth: usize, seen: &mut Vec<String>) -> (r: Option<String>)
    requires
        awaited(strings(old(seen)@), Step::Metadata, text@),
    ensures
        string_opt(r) == metadata_dropped_at(text@, depth as nat),
        final(seen)@ == old(seen)@,
    decreases depth, 1nat,
{
    let normalized = normalize_plain_text_layout(text);
    if normalized.as_str().is_empty() {
        return Some(normalized);
    }
    proof {
        lemma_awaits(strings(seen@), Step::Metadata, text@, Step::Plain, normalized@);
    }
    let plain = plain_text_within(&normalized, depth, seen)?;
    Some(cut_metadata(&plain))
}

/// Finds the text that the markup `text` shows.
#[verifier::spinoff_prover]
#[verifier::rlimit(60)]
fn html_text_within(text: &str, depth: usize, seen: &mut Vec<String>) -> (r: Option<String>)
    requires
        awaited(strings(old(seen)@), Step::Shown, text@),
    ensures
        string_opt(r) == html_text_at(text@, depth as nat),
        final(seen)@ == old(seen)@,
    decreases depth, 3nat,
{
    let ghost s = strings(seen@);
    proof {
        lemma_awaits(s, Step::Shown, text@, Step::Noise, text@);
    }
    let stripped = noise_stripped_within(text, depth, seen)?;
    if stripped.as_str().is_empty() {
        return Some(stripped);
    }
    let collapsed = normalize_plain_text_layout(&render_decoded(&stripped));
    proof {
        assert forall|d: nat| answered(Step::Shown, text@, d) implies #[trigger] answered(
            Step::Metadata,
            collapsed@,
            d,
        ) by {
            lemma_same_noise_stripped(text@, d, depth as nat);
        }
        lemma_awaits(s, Step::Shown, text@, Step::Metadata, collapsed@);
    }
    let cleaned = metadata_dropped_within(&collapsed, depth, seen)?;
    if is_office_style_definition_text(&collapse_preview_whitespace(&cleaned)) {
        return Some(String::new());
    }
    Some(remove_marks(&cleaned))
}

/// The greatest depth that there is.
pub const FULL_DEPTH: usize = usize::MAX;

/// Finds the plain text of `text`. `None` where it has none.
pub(crate) fn find_plain_text(text: &str) -> (r: Option<String>)
    ensures
        string_opt(r) == plain_text_at(text@, FULL_DEPTH as nat),
{
    let mut seen: Vec<String> = Vec::new();
    plain_text_within(text, FULL_DEPTH, &mut seen)
}

/// Tells whether `text` looks like markup once office noise is gone. `None` where a text in it has
/// no plain text.
pub fn looks_like_html_fragment(text: &str) -> (r: Option<bool>)
    ensures
        r == looks_html_at(text@, FULL_DEPTH as nat),
{
    let mut seen: Vec<String> = Vec::new();
    looks_html_within(text, FULL_DEPTH, &mut seen)
}

/// Cuts out the part of the markup `html` that is shown. `None` where a text in it has no plain
/// text.
pub fn extract_renderable_html_region(html: &str) -> (r: Option<String>)
    ensures
        string_opt(r) == renderable_region_at(html@, FULL_DEPTH as nat),
{
    let mut seen: Vec<String> = Vec::new();
    renderable_region_within(html, FULL_DEPTH, &mut seen)
}

/// Cuts out the shown part of the markup `text` and its office noise. `None` where a text in it has
/// no plain text.
pub fn strip_office_preview_noise(text: &str) -> (r: Option<String>)
    ensures
        string_opt(r) == noise_stripped_at(text@, FULL_DEPTH as nat),
{
    let mut seen: Vec<String> = Vec::new();
    noise_stripped_within(text, FULL_DEPTH, &mut seen)
}

/// Puts `text` in a tidy layout and drops a header and office metadata at its start. `None` where
/// the text has no plain text.
pub fn strip_leading_office_metadata_text(text: &str) -> (r: Option<String>)
    ensures
        string_opt(r) == metadata_dropped_at(text@, FULL_DEPTH as nat),
{
    let mut seen: Vec<String> = Vec::new();
    metadata_dropped_within(text, FULL_DEPTH, &mut seen)
}

/// Finds the text that the markup `text` shows. `None` where a text in it has no plain text.
pub fn extract_plain_text_from_htmlish(text: &str) -> (r: Option<String>)
    ensures
        string_opt(r) == html_text_at(text@, FULL_DEPTH as nat),
{
    let mut seen: Vec<String> = Vec::new();
    html_text_within(text, FULL_DEPTH, &mut seen)
}

/// The plain text of the clipboard text `text`: without a header, and with markup rendered.
pub fn normalize_clipboard_plain_text(text: &str) -> (r: String)
    requires
        plain_text_at(text@, FULL_DEPTH as nat) is Some,
    ensures
        Some(r@) == plain_text_at(text@, FULL_DEPTH as nat),
        !r@.contains('\r'),
        trimmed(r@).len() == 0 <==> trimmed(text@).len() == 0,
{
    proof {
        law_plain_text_is_unified_and_not_lost(text@, FULL_DEPTH as nat);
    }
    find_plain_text(text).unwrap()
}

/// Finds the plain text of `text`, or gives `None` where it has none: where a text comes up again
/// behind its own header, or the offsets of a header cut a character in two.
pub fn try_normalize_clipboard_plain_text(text: &str) -> (r: Option<String>)
    ensures
        string_opt(r) == plain_text_at(text@, FULL_DEPTH as nat),
        r matches Some(p) ==> !p@.contains('\r') && (trimmed(p@).len() == 0 <==> trimmed(
            text@,
        ).len() == 0),
{
    if find_plain_text(text).is_some() {
        Some(normalize_clipboard_plain_text(text))
    } else {
        None
    }
}

// ---------------------------------------------------------------------------
// Laws

/// A key of the header is no white space.
proof fn lemma_keys()
    ensures
        forall|i: int| 0 <= i < "version:0.9"@.len() ==> !is_space(#[trigger] "version:0.9"@[i]),
        forall|i: int| 0 <= i < "starthtml:"@.len() ==> !is_space(#[trigger] "starthtml:"@[i]),
        forall|i: int|
            0 <= i < "startfragment:"@.len() ==> !is_space(#[trigger] "startfragment:"@[i]),
        "version:0.9"@.len() > 0,
        "starthtml:"@.len() > 0,
{
    reveal_strlit("version:0.9");
    reveal_strlit("starthtml:");
    reveal_strlit("startfragment:");
}

/// Unifying line endings brings in no header.
pub proof fn law_unified_brings_in_no_header(s: Seq<char>)
    ensures
        has_cf_header(newlines_unified(s)) ==> has_cf_header(s),
{
    lemma_keys();
    let l = lowered(newlines_unified(s));
    if occurs(l, "version:0.9"@) {
        law_unified_brings_in_nothing(s, "version:0.9"@);
    }
    if occurs(l, "starthtml:"@) && occurs(l, "startfragment:"@) {
        law_unified_brings_in_nothing(s, "starthtml:"@);
        law_unified_brings_in_nothing(s, "startfragment:"@);
    }
}

/// A text without the marks of a header is its own plain text, but for its line endings.
pub proof fn law_plain_text_without_header(s: Seq<char>, depth: nat)
    requires
        !has_cf_header(s),
    ensures
        plain_text_at(s, depth) == Some(newlines_unified(s)),
{
    law_unified_brings_in_no_header(s);
}

/// How the lines of a text end makes no difference to its plain text.
pub proof fn law_plain_text_whatever_line_endings(s: Seq<char>, depth: nat)
    ensures
        plain_text_at(newlines_unified(s), depth) == plain_text_at(s, depth),
{
    law_unified_twice(s);
}

/// The text that markup shows holds none of the marks that stand for breaks and spaces on the way.
pub proof fn law_shown_text_holds_no_mark(s: Seq<char>, depth: nat)
    ensures
        html_text_at(s, depth) matches Some(p) ==> forall|i: int|
            0 <= i < p.len() ==> !is_mark(#[trigger] p[i]),
{
    if let Some(t) = noise_stripped_at(s, depth) {
        if let Some(p) = metadata_dropped_at(tidy_layout(shown_decoded(t)), depth) {
            law_no_mark_is_left(p);
        }
    }
}

/// Markup without a header has an answer at any depth: it is stripped of its office noise.
pub proof fn law_markup_without_header_is_answered(s: Seq<char>, depth: nat)
    requires
        !has_cf_header(s),
    ensures
        noise_stripped_at(s, depth) is Some,
        looks_html_at(s, depth) is Some,
{
    law_repair_makes_no_header(s);
    law_header_whatever_white_space(repaired(s));
}

/// A text that holds something other than white space is not blank.
proof fn lemma_not_blank(s: Seq<char>, i: int)
    requires
        0 <= i < s.len(),
        !is_space(s[i]),
    ensures
        trimmed(s).len() > 0,
{
    let (v, w) = lemma_trimmed_parts(s);
    if trimmed(s).len() == 0 {
        assert(s == v + w);
        if i < v.len() {
            assert(s[i] == v[i]);
        } else {
            assert(s[i] == w[i - v.len()]);
        }
    }
}

/// A text that holds a text without white space is not blank.
proof fn lemma_holding_is_not_blank(s: Seq<char>, p: Seq<char>)
    requires
        occurs(lowered(s), p),
        p.len() > 0,
        forall|i: int| 0 <= i < p.len() ==> !is_space(#[trigger] p[i]),
    ensures
        trimmed(s).len() > 0,
{
    let j = choose|j: int| occurs_at(lowered(s), p, j);
    assert(lowered(s).subrange(j, j + p.len())[0] == p[0]);
    assert(lowered(s)[j] == lower_char(s[j]));
    lemma_not_blank(s, j);
}

/// A text with a header is not blank.
proof fn lemma_headed_is_not_blank(s: Seq<char>)
    requires
        has_cf_header(s),
    ensures
        trimmed(s).len() > 0,
{
    lemma_keys();
    if occurs(lowered(s), "version:0.9"@) {
        lemma_holding_is_not_blank(s, "version:0.9"@);
    } else {
        lemma_holding_is_not_blank(s, "starthtml:"@);
    }
}

/// A text without a carriage return has none when it is trimmed.
proof fn lemma_no_return_trimmed(s: Seq<char>)
    requires
        !s.contains('\r'),
    ensures
        !trimmed(s).contains('\r'),
{
    let (v, w) = lemma_trimmed_parts(s);
    let t = trimmed(s);
    assert forall|i: int| 0 <= i < t.len() implies t[i] != '\r' by {
        assert((v + t + w)[v.len() + i] == t[i]);
        assert(s[v.len() + i] != '\r');
    }
}

/// Lines without a carriage return have none when they are joined.
proof fn lemma_no_return_joined(ls: Seq<Seq<char>>)
    requires
        forall|i: int| 0 <= i < ls.len() ==> !(#[trigger] ls[i]).contains('\r'),
    ensures
        !joined(ls, "\n"@).contains('\r'),
    decreases ls.len(),
{
    reveal_strlit("\n");
    if ls.len() > 1 {
        let front = ls.drop_last();
        assert forall|i: int| 0 <= i < front.len() implies !(#[trigger] front[i]).contains('\r') by {
            assert(front[i] == ls[i]);
        }
        lemma_no_return_joined(front);
        let a = joined(front, "\n"@);
        let b = ls.last();
        let r = joined(ls, "\n"@);
        assert(r == a + "\n"@ + b);
        assert forall|i: int| 0 <= i < r.len() implies r[i] != '\r' by {
            if i < a.len() {
                assert(r[i] == a[i]);
            } else if i > a.len() {
                assert(r[i] == b[i - a.len() - 1]);
            }
        }
    } else if ls.len() == 1 {
        assert(!ls[0].contains('\r'));
    }
}

/// A tidy layout holds no carriage return.
proof fn lemma_no_return_tidy(s: Seq<char>)
    ensures
        !tidy_layout(s).contains('\r'),
{
    law_layout_lines_are_tidy(s);
    let ls = layout_lines(s);
    assert forall|i: int| 0 <= i < ls.len() implies !(#[trigger] ls[i]).contains('\r') by {
        let l = ls[i];
        assert(is_tight(l));
        assert forall|k: int| 0 <= k < l.len() implies l[k] != '\r' by {
            assert(is_space(l[k]) ==> l[k] == ' ');
        }
    }
    lemma_no_return_joined(ls);
}

/// The text behind the header lines of a text without a carriage return has none.
proof fn lemma_no_return_body(s: Seq<char>)
    requires
        !s.contains('\r'),
    ensures
        !body_text(s, true).contains('\r'),
{
    let ls = line_list(s);
    lemma_lines_single(s);
    let k = law_body_begins_behind_the_header(ls, true);
    let body = body_lines(ls, true);
    assert forall|i: int| 0 <= i < body.len() implies !(#[trigger] body[i]).contains('\r') by {
        assert(body[i] == ls[k + i]);
        assert(is_single_line(ls[k + i]));
    }
    lemma_no_return_joined(body);
    lemma_no_return_trimmed(joined(body, "\n"@));
}

/// A text without a carriage return has none when office metadata are cut off.
proof fn lemma_no_return_metadata(s: Seq<char>)
    requires
        !s.contains('\r'),
    ensures
        !metadata_cut(s).contains('\r'),
{
    let rs = pattern_ranges(METADATA_PREFIX@, s);
    let rest = first_match_dropped(METADATA_PREFIX@, s);
    if rs.len() > 0 {
        assert(range_fits(s, rs[0]));
        let a = rs[0].0 as int;
        let b = rs[0].1 as int;
        let n = byte_len(s) as int;
        lemma_byte_parts(s, a);
        lemma_byte_parts(s, b);
        let x = byte_slice(s, 0, a);
        let y = byte_slice(s, b, n);
        let head = byte_slice(s, 0, b);
        assert forall|i: int| 0 <= i < rest.len() implies rest[i] != '\r' by {
            if i < x.len() {
                assert(rest[i] == x[i]);
                assert(s[i] == x[i]);
            } else {
                assert(rest[i] == y[i - x.len()]);
                assert(s[head.len() + i - x.len()] == y[i - x.len()]);
            }
        }
    }
    lemma_no_return_trimmed(rest);
}

/// The plain text of a text holds no carriage return.
proof fn lemma_no_return_plain(s: Seq<char>, depth: nat)
    ensures
        plain_text_at(s, depth) matches Some(p) ==> !p.contains('\r'),
    decreases depth, 0nat,
{
    let n = newlines_unified(s);
    law_no_return_is_left(s);
    if has_cf_header(n) && depth > 0 {
        lemma_no_return_headed(n, (depth - 1) as nat);
    }
}

/// What is read of a text with a header and without a carriage return has none.
proof fn lemma_no_return_headed(s: Seq<char>, depth: nat)
    requires
        !s.contains('\r'),
    ensures
        headed_text_at(s, depth) matches Some(p) ==> !p.contains('\r'),
    decreases depth, 6nat,
{
    if let Some(html) = cf_html(encode_utf8(s)) {
        lemma_no_return_html(html, depth);
    }
    let body = body_text(s, true);
    let inline = tidy_layout(pattern_replaced(INLINE_HEADER@, s, " "@));
    lemma_no_return_body(s);
    lemma_no_return_tidy(pattern_replaced(INLINE_HEADER@, s, " "@));
    lemma_no_return_trimmed(inline);
    lemma_no_return_html(body, depth);
    lemma_no_return_html(trimmed(inline), depth);
    assert(header_dropped_at(s, depth) matches Some(p) ==> !p.contains('\r'));
}

/// The text that markup shows holds no carriage return.
proof fn lemma_no_return_html(s: Seq<char>, depth: nat)
    ensures
        html_text_at(s, depth) matches Some(p) ==> !p.contains('\r'),
    decreases depth, 3nat,
{
    if let Some(t) = noise_stripped_at(s, depth) {
        let c = tidy_layout(shown_decoded(t));
        lemma_no_return_tidy(c);
        lemma_no_return_plain(tidy_layout(c), depth);
        if let Some(p) = plain_text_at(tidy_layout(c), depth) {
            lemma_no_return_metadata(p);
        }
        if let Some(p) = metadata_dropped_at(c, depth) {
            assert forall|i: int| 0 <= i < p.len() implies #[trigger] unmarked(p)[i] != '\r' by {
                assert(p[i] != '\r');
            }
        }
    }
}

/// The plain text of a text has its lines ended by line feeds alone, and it is blank where the text
/// is blank and only there.
pub proof fn law_plain_text_is_unified_and_not_lost(s: Seq<char>, depth: nat)
    ensures
        plain_text_at(s, depth) matches Some(p) ==> !p.contains('\r') && (trimmed(p).len() == 0
            <==> trimmed(s).len() == 0),
{
    lemma_no_return_plain(s, depth);
    let n = newlines_unified(s);
    law_unified_keeps_the_words(s);
    law_blank_text_has_no_words(s);
    law_blank_text_has_no_words(n);
    if has_cf_header(n) && depth > 0 {
        lemma_headed_is_not_blank(n);
        lemma_trimmed_twice(joined(body_lines(line_list(n), true), "\n"@));
        lemma_trimmed_twice(tidy_layout(pattern_replaced(INLINE_HEADER@, n, " "@)));
        assert(headed_text_at(n, (depth - 1) as nat) matches Some(p) ==> trimmed(p).len() > 0);
    }
}

} // verus!
