//! The text that a piece of HTML shows, with marks for the breaks and spaces that must survive
//! white space normalization.

use vstd::prelude::*;

use crate::chars::{ascii_alnum, is_ascii_alnum, is_space, lower_char};
use crate::layout::{
    is_spaced, is_tight, law_unified_stays, lemma_collapsed_is_spaced, lemma_spaced_stays,
    newlines_unified, unify_newlines,
};
use crate::regexes::{
    collapse_spaces, cut_gap, cut_match, gap_text, match_text, pattern_ranges, ranges, ranges_fit,
    spaces_collapsed,
};
use crate::text::{
    byte_len, from_chars, lemma_begins, lemma_slice_of_part, lowered, piece, replaced, same,
    starts_with, to_chars, to_lower, trim_start, trim_start_char, trimmed_start, without_leading,
};

verus! {

/// A tag.
pub const TAG: &'static str = r"(?is)<[^>]+>";

/// Stands for a line break that the markup asks for.
pub const EXPLICIT_LINE_BREAK: char = '\u{f0000}';

/// Stands for a space that must stay.
pub const PRESERVED_SPACE: char = '\u{f0001}';

/// Stands for a tab that must stay.
pub const PRESERVED_TAB: char = '\u{f0002}';

// ---------------------------------------------------------------------------
// Text between tags

/// The mark for a character of preformatted text.
pub open spec fn preserved_char(c: char) -> char {
    if c == '\n' {
        EXPLICIT_LINE_BREAK
    } else if c == ' ' || c == '\u{a0}' {
        PRESERVED_SPACE
    } else if c == '\t' {
        PRESERVED_TAB
    } else {
        c
    }
}

/// Preformatted text with its breaks and spaces marked.
pub open spec fn preserved(s: Seq<char>) -> Seq<char> {
    let t = newlines_unified(s);
    Seq::new(t.len(), |i: int| preserved_char(t[i]))
}

/// `s` with the spaces that do not break marked.
pub open spec fn hard_spaces_marked(s: Seq<char>) -> Seq<char> {
    Seq::new(
        s.len(),
        |i: int|
            if s[i] == '\u{a0}' {
                PRESERVED_SPACE
            } else {
                s[i]
            },
    )
}

/// The text stands at the start of a line.
pub open spec fn at_line_start(out: Seq<char>) -> bool {
    out.len() == 0 || out.last() == '\n' || out.last() == EXPLICIT_LINE_BREAK
}

/// `out` with the text `fragment` shown behind it. Outside of preformatted text the white space of
/// the source collapses, and none stands at the start of a line.
pub open spec fn text_shown(out: Seq<char>, fragment: Seq<char>, preformatted: bool) -> Seq<char> {
    if preformatted {
        out + preserved(fragment)
    } else {
        let t = spaces_collapsed(hard_spaces_marked(fragment), false);
        out + (if at_line_start(out) {
            without_leading(t, ' ')
        } else {
            t
        })
    }
}

/// Tells whether the text stands at the start of a line.
fn line_start(out: &Vec<char>) -> (r: bool)
    ensures
        r == at_line_start(out@),
{
    let n = out.len();
    n == 0 || out[n - 1] == '\n' || out[n - 1] == EXPLICIT_LINE_BREAK
}

/// Puts the characters of `s` behind `out`.
fn extend(out: &mut Vec<char>, s: &str)
    ensures
        final(out)@ == old(out)@ + s@,
{
    let mut more = to_chars(s);
    out.append(&mut more);
}

/// Shows the text `fragment` behind `out`.
fn append_text(out: &mut Vec<char>, fragment: &str, preformatted: bool)
    ensures
        final(out)@ == text_shown(old(out)@, fragment@, preformatted),
{
    let ghost before = out@;
    if preformatted {
        let v = to_chars(&unify_newlines(fragment));
        for i in 0..v.len()
            invariant
                v@ == newlines_unified(fragment@),
                out@ == before + preserved(fragment@).take(i as int),
        {
            let c = v[i];
            if c == '\n' {
                out.push(EXPLICIT_LINE_BREAK);
            } else if c == ' ' || c == '\u{a0}' {
                out.push(PRESERVED_SPACE);
            } else if c == '\t' {
                out.push(PRESERVED_TAB);
            } else {
                out.push(c);
            }
            assert(preserved(fragment@).take(i + 1) == preserved(fragment@).take(i as int).push(
                preserved_char(c),
            ));
        }
        assert(preserved(fragment@).take(v@.len() as int) == preserved(fragment@));
        return;
    }
    let v = to_chars(fragment);
    let mut marked: Vec<char> = Vec::new();
    for i in 0..v.len()
        invariant
            v@ == fragment@,
            marked@ == hard_spaces_marked(fragment@).take(i as int),
    {
        if v[i] == '\u{a0}' {
            marked.push(PRESERVED_SPACE);
        } else {
            marked.push(v[i]);
        }
    }
    assert(marked@ == hard_spaces_marked(fragment@));
    let collapsed = collapse_spaces(&from_chars(&marked));
    if line_start(out) {
        extend(out, &trim_start_char(&collapsed, ' '));
    } else {
        extend(out, &collapsed);
    }
}

// ---------------------------------------------------------------------------
// Breaks

/// `s` without the spaces, and where `tabs` holds the tabs, at its end.
pub open spec fn without_trailing_blanks(s: Seq<char>, tabs: bool) -> Seq<char>
    decreases s.len(),
{
    if s.len() > 0 && (s.last() == ' ' || (tabs && s.last() == '\t')) {
        without_trailing_blanks(s.drop_last(), tabs)
    } else {
        s
    }
}

/// `out` at the end of a block: one line break at most stands between blocks.
pub open spec fn block_ended(out: Seq<char>) -> Seq<char> {
    let t = without_trailing_blanks(out, true);
    if at_line_start(t) {
        t
    } else {
        t.push('\n')
    }
}

/// `out` at the end of a table cell: a tab stands between the cells of a row.
pub open spec fn cell_ended(out: Seq<char>) -> Seq<char> {
    let t = without_trailing_blanks(out, false);
    if t.len() == 0 || t.last() == '\n' || t.last() == '\t' {
        t
    } else {
        t.push('\t')
    }
}

/// Cuts the spaces, and where `tabs` holds the tabs, off the end of `out`.
fn drop_trailing_blanks(out: &mut Vec<char>, tabs: bool)
    ensures
        final(out)@ == without_trailing_blanks(old(out)@, tabs),
{
    let ghost start = out@;
    while out.len() > 0 && (out[out.len() - 1] == ' ' || (tabs && out[out.len() - 1] == '\t'))
        invariant
            without_trailing_blanks(start, tabs) == without_trailing_blanks(out@, tabs),
        decreases out@.len(),
    {
        let ghost now = out@;
        out.pop();
        assert(out@ == now.drop_last());
    }
}

/// Ends a block.
fn push_structural_break(out: &mut Vec<char>)
    ensures
        final(out)@ == block_ended(old(out)@),
{
    drop_trailing_blanks(out, true);
    if !line_start(out) {
        out.push('\n');
    }
}

/// Ends a table cell.
fn end_cell(out: &mut Vec<char>)
    ensures
        final(out)@ == cell_ended(old(out)@),
{
    drop_trailing_blanks(out, false);
    let n = out.len();
    if n > 0 && out[n - 1] != '\n' && out[n - 1] != '\t' {
        out.push('\t');
    }
}

// ---------------------------------------------------------------------------
// Tags

/// A tag without its opening bracket and the white space behind it.
pub open spec fn tag_inner(tag: Seq<char>) -> Seq<char> {
    trimmed_start(without_leading(tag, '<'))
}

/// The tag closes an element.
pub open spec fn is_closing_tag(tag: Seq<char>) -> bool {
    "/"@.is_prefix_of(tag_inner(tag))
}

/// How many ASCII letters and digits stand at the start of `s`.
pub open spec fn alnum_len(s: Seq<char>) -> nat
    decreases s.len(),
{
    if s.len() > 0 && is_ascii_alnum(s[0]) {
        1 + alnum_len(s.drop_first())
    } else {
        0
    }
}

/// The name of the element, in small letters.
pub open spec fn tag_name(tag: Seq<char>) -> Seq<char> {
    let body = without_leading(tag_inner(tag), '/');
    lowered(body.take(alnum_len(body) as int))
}

/// The element is shown as a block of its own.
pub open spec fn is_block(name: Seq<char>) -> bool {
    ||| name == "p"@
    ||| name == "div"@
    ||| name == "li"@
    ||| name == "table"@
    ||| name == "h1"@
    ||| name == "h2"@
    ||| name == "h3"@
    ||| name == "h4"@
    ||| name == "h5"@
    ||| name == "h6"@
    ||| name == "section"@
    ||| name == "article"@
    ||| name == "ul"@
    ||| name == "ol"@
    ||| name == "blockquote"@
    ||| name == "pre"@
}

/// `out` behind a tag of the element `name`.
pub open spec fn tag_shown(out: Seq<char>, name: Seq<char>, closing: bool) -> Seq<char> {
    if name == "br"@ && !closing {
        out.push(EXPLICIT_LINE_BREAK)
    } else if (name == "td"@ || name == "th"@) && closing {
        cell_ended(out)
    } else if name == "tr"@ && closing {
        block_ended(out)
    } else if is_block(name) {
        block_ended(out)
    } else {
        out
    }
}

/// Whether text is preformatted behind the tag.
pub open spec fn preformatted_behind(tag: Seq<char>, preformatted: bool) -> bool {
    if tag_name(tag) == "pre"@ {
        !is_closing_tag(tag)
    } else {
        preformatted
    }
}

/// Reads the name of an element and whether the tag closes it.
fn read_tag(tag: &str) -> (r: (String, bool))
    ensures
        r.0@ == tag_name(tag@),
        r.1 == is_closing_tag(tag@),
{
    let inner = trim_start(&trim_start_char(tag, '<'));
    let closing = starts_with(&inner, "/");
    let body = to_chars(&trim_start_char(&inner, '/'));
    let mut n: usize = 0;
    assert(body@.skip(0) == body@);
    while n < body.len() && ascii_alnum(body[n])
        invariant
            n <= body@.len(),
            alnum_len(body@) == n + alnum_len(body@.skip(n as int)),
        decreases body@.len() - n,
    {
        assert(body@.skip(n as int).drop_first() == body@.skip(n + 1));
        n = n + 1;
    }
    (to_lower(&piece(&body, 0, n)), closing)
}

/// Tells whether the element is shown as a block of its own.
fn block_name(name: &str) -> (r: bool)
    ensures
        r == is_block(name@),
{
    same(name, "p") || same(name, "div") || same(name, "li") || same(name, "table") || same(
        name,
        "h1",
    ) || same(name, "h2") || same(name, "h3") || same(name, "h4") || same(name, "h5") || same(
        name,
        "h6",
    ) || same(name, "section") || same(name, "article") || same(name, "ul") || same(name, "ol")
        || same(name, "blockquote") || same(name, "pre")
}

/// Shows a tag of the element `name`.
fn show_tag(out: &mut Vec<char>, name: &str, closing: bool)
    ensures
        final(out)@ == tag_shown(old(out)@, name@, closing),
{
    if same(name, "br") && !closing {
        out.push(EXPLICIT_LINE_BREAK);
    } else if (same(name, "td") || same(name, "th")) && closing {
        end_cell(out);
    } else if same(name, "tr") && closing {
        push_structural_break(out);
    } else if block_name(name) {
        push_structural_break(out);
    }
}

// ---------------------------------------------------------------------------
// The whole text

/// What is shown before the tag `n`, and whether text is preformatted there, for a text `s` whose
/// tags stand at `rs`.
pub open spec fn shown_upto(s: Seq<char>, rs: Seq<(usize, usize)>, n: int) -> (Seq<char>, bool)
    decreases n,
{
    if n <= 0 {
        (seq![], false)
    } else {
        let (out, preformatted) = shown_upto(s, rs, n - 1);
        let tag = match_text(s, rs, n - 1);
        let with_text = text_shown(out, gap_text(s, rs, n - 1), preformatted);
        (
            tag_shown(with_text, tag_name(tag), is_closing_tag(tag)),
            preformatted_behind(tag, preformatted),
        )
    }
}

/// What the markup `s` shows, whose tags stand at `rs`.
pub open spec fn shown_with(s: Seq<char>, rs: Seq<(usize, usize)>) -> Seq<char> {
    let (out, preformatted) = shown_upto(s, rs, rs.len() as int);
    text_shown(out, gap_text(s, rs, rs.len() as int), preformatted)
}

/// What the markup `s` shows.
pub open spec fn shown(s: Seq<char>) -> Seq<char> {
    shown_with(s, pattern_ranges(TAG@, s))
}

/// Renders the markup `html`, whose tags stand at `rs`.
pub fn render_tags(html: &str, rs: &Vec<(usize, usize)>) -> (r: String)
    requires
        ranges_fit(html@, rs@),
    ensures
        r@ == shown_with(html@, rs@),
{
    let mut out: Vec<char> = Vec::new();
    let mut preformatted: bool = false;
    for i in 0..rs.len()
        invariant
            ranges_fit(html@, rs@),
            (out@, preformatted) == shown_upto(html@, rs@, i as int),
    {
        append_text(&mut out, cut_gap(html, rs, i), preformatted);
        let tag = cut_match(html, rs, i);
        let (name, closing) = read_tag(tag);
        show_tag(&mut out, &name, closing);
        if same(&name, "pre") {
            preformatted = !closing;
        }
    }
    append_text(&mut out, cut_gap(html, rs, rs.len()), preformatted);
    from_chars(&out)
}

/// Renders the markup `html`.
pub fn render(html: &str) -> (r: String)
    ensures
        r@ == shown(html@),
{
    render_tags(html, &ranges(TAG, html))
}

/// The character that a mark stands for.
pub open spec fn unmarked_char(c: char) -> char {
    if c == EXPLICIT_LINE_BREAK {
        '\n'
    } else if c == PRESERVED_SPACE {
        ' '
    } else if c == PRESERVED_TAB {
        '\t'
    } else {
        c
    }
}

/// `s` with the marks replaced by what they stand for.
pub open spec fn unmarked(s: Seq<char>) -> Seq<char> {
    Seq::new(s.len(), |i: int| unmarked_char(s[i]))
}

/// The character is one of the marks.
pub open spec fn is_mark(c: char) -> bool {
    c == EXPLICIT_LINE_BREAK || c == PRESERVED_SPACE || c == PRESERVED_TAB
}

/// No mark is left when the marks are replaced.
pub proof fn law_no_mark_is_left(s: Seq<char>)
    ensures
        forall|i: int| 0 <= i < unmarked(s).len() ==> !is_mark(#[trigger] unmarked(s)[i]),
{
}

/// Replaces the marks by what they stand for.
pub fn remove_marks(text: &str) -> (r: String)
    ensures
        r@ == unmarked(text@),
{
    let v = to_chars(text);
    let mut r = String::new();
    for i in 0..v.len()
        invariant
            v@ == text@,
            r@ == unmarked(text@).take(i as int),
    {
        let c = v[i];
        if c == EXPLICIT_LINE_BREAK {
            r.push('\n');
        } else if c == PRESERVED_SPACE {
            r.push(' ');
        } else if c == PRESERVED_TAB {
            r.push('\t');
        } else {
            r.push(c);
        }
    }
    r
}

// ---------------------------------------------------------------------------
// Laws

/// The white space of the source shows as single spaces: outside of preformatted text, the line
/// breaks between two tags show as none.
pub proof fn law_source_white_space_collapses(out: Seq<char>, fragment: Seq<char>) -> (t: Seq<char>)
    ensures
        text_shown(out, fragment, false) == out + t,
        is_spaced(t, at_line_start(out)),
{
    let all = spaces_collapsed(hard_spaces_marked(fragment), false);
    lemma_collapsed_is_spaced(hard_spaces_marked(fragment), false);
    if at_line_start(out) {
        lemma_without_leading_spaces(all);
        without_leading(all, ' ')
    } else {
        all
    }
}

/// Spaced text stays spaced without its leading space.
proof fn lemma_without_leading_spaces(s: Seq<char>)
    requires
        is_spaced(s, false),
    ensures
        is_spaced(without_leading(s, ' '), true),
    decreases s.len(),
{
    if s.len() > 0 && s[0] == ' ' {
        let t = s.drop_first();
        assert forall|i: int| 0 <= i < t.len() && is_space(#[trigger] t[i]) implies t[i] == ' ' by {
            assert(t[i] == s[i + 1]);
        }
        assert forall|i: int| 0 <= i < t.len() - 1 && is_space(#[trigger] t[i]) implies !is_space(
            t[i + 1],
        ) by {
            assert(t[i] == s[i + 1]);
            assert(t[i + 1] == s[i + 2]);
        }
        lemma_without_leading_spaces(t);
    }
}

/// A boundary between blocks is one break: to end a block twice is to end it once.
pub proof fn law_block_boundary_is_one_break(out: Seq<char>)
    ensures
        block_ended(block_ended(out)) == block_ended(out),
        at_line_start(block_ended(out)),
{
    lemma_blanks_dropped(out);
    let t = without_trailing_blanks(out, true);
    let b = block_ended(out);
    assert(without_trailing_blanks(b, true) == b);
}

/// What is left without blanks at the end does not end in one.
proof fn lemma_blanks_dropped(s: Seq<char>)
    ensures
        ({
            let t = without_trailing_blanks(s, true);
            t.len() > 0 ==> t.last() != ' ' && t.last() != '\t'
        }),
    decreases s.len(),
{
    if s.len() > 0 && (s.last() == ' ' || s.last() == '\t') {
        lemma_blanks_dropped(s.drop_last());
    }
}

/// The text of a tag of the element `name`; `rest` is what stands behind the name.
pub open spec fn tag_text(name: Seq<char>, closing: bool, rest: Seq<char>) -> Seq<char> {
    if closing {
        seq!['<', '/'] + name + rest
    } else {
        seq!['<'] + name + rest
    }
}

/// Letters and digits are counted up to what is neither.
proof fn lemma_alnum_len(name: Seq<char>, rest: Seq<char>)
    requires
        forall|i: int| 0 <= i < name.len() ==> is_ascii_alnum(#[trigger] name[i]),
        rest.len() > 0 ==> !is_ascii_alnum(rest[0]),
    ensures
        alnum_len(name + rest) == name.len(),
    decreases name.len(),
{
    let s = name + rest;
    if name.len() > 0 {
        let t = name.drop_first();
        assert(s[0] == name[0]);
        assert(s.drop_first() == t + rest);
        assert forall|i: int| 0 <= i < t.len() implies is_ascii_alnum(#[trigger] t[i]) by {
            assert(t[i] == name[i + 1]);
        }
        lemma_alnum_len(t, rest);
    } else {
        assert(s == rest);
    }
}

/// The name of the element is read out of a tag, whatever stands behind the name, and so is whether
/// the tag closes the element.
pub proof fn law_tag_is_read(name: Seq<char>, closing: bool, rest: Seq<char>)
    requires
        name.len() > 0,
        forall|i: int| 0 <= i < name.len() ==> is_ascii_alnum(#[trigger] name[i]),
        rest.len() > 0 ==> !is_ascii_alnum(rest[0]),
    ensures
        tag_name(tag_text(name, closing, rest)) == lowered(name),
        is_closing_tag(tag_text(name, closing, rest)) == closing,
{
    reveal_strlit("/");
    reveal_with_fuel(without_leading, 3);
    let tag = tag_text(name, closing, rest);
    let body = name + rest;
    assert(is_ascii_alnum(name[0]));
    assert(body[0] == name[0]);
    let inner = tag.drop_first();
    if closing {
        assert(inner == seq!['/'] + body);
        assert(inner.drop_first() == body);
        assert(without_leading(tag, '<') == inner);
        assert(trimmed_start(inner) == inner);
        assert(inner.subrange(0, 1) =~= "/"@);
    } else {
        assert(inner == body);
        assert(without_leading(tag, '<') == body);
        assert(trimmed_start(body) == body);
        if "/"@.is_prefix_of(body) {
            assert(body.subrange(0, 1)[0] == body[0]);
        }
    }
    assert(without_leading(tag_inner(tag), '/') == body);
    lemma_alnum_len(name, rest);
    assert(body.take(name.len() as int) == name);
}

/// A name that is known in small letters is made of letters and digits.
pub proof fn lemma_known_name(name: Seq<char>, known: Seq<char>)
    requires
        lowered(name) == known,
        forall|i: int| 0 <= i < known.len() ==> is_ascii_alnum(#[trigger] known[i]),
    ensures
        forall|i: int| 0 <= i < name.len() ==> is_ascii_alnum(#[trigger] name[i]),
{
    assert forall|i: int| 0 <= i < name.len() implies is_ascii_alnum(#[trigger] name[i]) by {
        assert(known[i] == lower_char(name[i]));
    }
}

/// What is shown of a text, a tag and a text, where both texts are words with single spaces between
/// them.
proof fn lemma_one_tag_shown(
    name: Seq<char>,
    closing: bool,
    rest: Seq<char>,
    x: Seq<char>,
    y: Seq<char>,
)
    requires
        name.len() > 0,
        forall|i: int| 0 <= i < name.len() ==> is_ascii_alnum(#[trigger] name[i]),
        rest.len() > 0 ==> !is_ascii_alnum(rest[0]),
        is_tight(x),
        is_tight(y),
        byte_len(x + tag_text(name, closing, rest) + y) <= usize::MAX,
    ensures
        ({
            let tag = tag_text(name, closing, rest);
            let pre = lowered(name) == "pre"@ && !closing;
            &&& shown_with(x + tag + y, one_range(x, tag)) == text_shown(
                tag_shown(x, lowered(name), closing),
                y,
                pre,
            )
            &&& !pre ==> text_shown(tag_shown(x, lowered(name), closing), y, pre) == tag_shown(
                x,
                lowered(name),
                closing,
            ) + y
        }),
{
    let tag = tag_text(name, closing, rest);
    let s = x + tag + y;
    let rs = one_range(x, tag);
    let e = Seq::<char>::empty();
    law_tag_is_read(name, closing, rest);
    lemma_slice_of_part(e, x, tag + y);
    assert(e + x == x);
    assert(x + (tag + y) == s);
    assert(byte_len(e) == 0);
    lemma_slice_of_part(x, tag, y);
    lemma_slice_of_part(x + tag, y, e);
    assert(s + e == s);
    assert(gap_text(s, rs, 0) == x);
    assert(match_text(s, rs, 0) == tag);
    assert(gap_text(s, rs, 1) == y);
    lemma_tight_shown(x);
    lemma_tight_shown(y);
    assert(shown_upto(s, rs, 0) == (e, false));
    assert(text_shown(e, x, false) == e + x);
    assert(shown_upto(s, rs, 1) == (
        tag_shown(x, lowered(name), closing),
        preformatted_behind(tag, false),
    ));
}

/// Words with single spaces between them are shown as they are.
pub proof fn lemma_tight_shown(x: Seq<char>)
    requires
        is_tight(x),
    ensures
        forall|out: Seq<char>| #[trigger] text_shown(out, x, false) == out + x,
{
    assert forall|i: int| 0 <= i < x.len() implies #[trigger] hard_spaces_marked(x)[i] == x[i] by {
        if x[i] == '\u{a0}' {
            assert(is_space(x[i]));
        }
    }
    assert(hard_spaces_marked(x) == x);
    lemma_spaced_stays(x, false);
    assert(without_leading(x, ' ') == x);
}

/// Where the one tag stands that lies behind `x`.
pub open spec fn one_range(x: Seq<char>, tag: Seq<char>) -> Seq<(usize, usize)> {
    seq![(byte_len(x) as usize, byte_len(x + tag) as usize)]
}

/// The opening or closing tag of a block, list items among them, puts the words before it and the
/// words behind it on lines of their own: one line break is shown between them and nothing else.
pub proof fn law_block_tags_part_lines(
    name: Seq<char>,
    closing: bool,
    rest: Seq<char>,
    x: Seq<char>,
    y: Seq<char>,
)
    requires
        ({
            let n = lowered(name);
            n == "p"@ || n == "div"@ || n == "li"@ || n == "table"@ || n == "h1"@ || n == "h2"@ || n
                == "h3"@ || n == "h4"@ || n == "h5"@ || n == "h6"@ || n == "section"@ || n
                == "article"@ || n == "ul"@ || n == "ol"@ || n == "blockquote"@ || n == "pre"@ || n
                == "tr"@ && closing
        }),
        rest.len() > 0 ==> !is_ascii_alnum(rest[0]),
        x.len() > 0 && is_tight(x) && x.last() != '\u{f0000}',
        is_tight(y),
        lowered(name) == "pre"@ && !closing ==> !y.contains(' '),
        byte_len(x + tag_text(name, closing, rest) + y) <= usize::MAX,
    ensures
        shown_with(
            x + tag_text(name, closing, rest) + y,
            one_range(x, tag_text(name, closing, rest)),
        ) == x + seq!['\n'] + y,
{
    let n = lowered(name);
    reveal_strlit("p");
    reveal_strlit("div");
    reveal_strlit("li");
    reveal_strlit("table");
    reveal_strlit("h1");
    reveal_strlit("h2");
    reveal_strlit("h3");
    reveal_strlit("h4");
    reveal_strlit("h5");
    reveal_strlit("h6");
    reveal_strlit("section");
    reveal_strlit("article");
    reveal_strlit("ul");
    reveal_strlit("ol");
    reveal_strlit("blockquote");
    reveal_strlit("pre");
    reveal_strlit("tr");
    reveal_strlit("br");
    reveal_strlit("td");
    reveal_strlit("th");
    lemma_known_name(name, n);
    assert(name.len() == n.len());
    lemma_one_tag_shown(name, closing, rest, x, y);
    assert(without_trailing_blanks(x, true) == x) by {
        assert(!is_space(x.last()));
    }
    assert(x.push('\n') == x + seq!['\n']);
    assert(n[0] != 'b' || n[1] != 'r');
    assert(n[0] != 't' || n[1] != 'd' && n[1] != 'h');
    assert(tag_shown(x, n, closing) == x + seq!['\n']);
    if n == "pre"@ && !closing {
        assert forall|i: int| 0 <= i < y.len() implies !is_space(#[trigger] y[i]) by {
            if is_space(y[i]) {
                assert(y[i] == ' ');
                assert(y.contains(' '));
            }
        }
        assert(!y.contains('\r'));
        law_unified_stays(y);
        assert(preserved(y) == y) by {
            assert forall|i: int| 0 <= i < y.len() implies preserved_char(y[i]) == y[i] by {
                assert(!is_space(y[i]));
            }
        }
    }
}

/// The closing tag of a cell parts the words before it from those behind it by a tab; the tag of a
/// line break puts a break between them that stays.
pub proof fn law_cells_and_breaks_part_words(
    name: Seq<char>,
    rest: Seq<char>,
    x: Seq<char>,
    y: Seq<char>,
)
    requires
        rest.len() > 0 ==> !is_ascii_alnum(rest[0]),
        x.len() > 0 && is_tight(x),
        is_tight(y),
        byte_len(x + tag_text(name, true, rest) + y) <= usize::MAX,
        byte_len(x + tag_text(name, false, rest) + y) <= usize::MAX,
    ensures
        lowered(name) == "td"@ || lowered(name) == "th"@ ==> shown_with(
            x + tag_text(name, true, rest) + y,
            one_range(x, tag_text(name, true, rest)),
        ) == x + seq!['\t'] + y,
        lowered(name) == "br"@ ==> unmarked(
            shown_with(
                x + tag_text(name, false, rest) + y,
                one_range(x, tag_text(name, false, rest)),
            ),
        ) == unmarked(x) + seq!['\n'] + unmarked(y),
{
    reveal_strlit("td");
    reveal_strlit("th");
    reveal_strlit("br");
    let n = lowered(name);
    if n == "td"@ || n == "th"@ {
        lemma_known_name(name, n);
        assert(name.len() == n.len());
        lemma_one_tag_shown(name, true, rest, x, y);
        reveal_strlit("pre");
        assert(!is_space(x.last()));
        assert(without_trailing_blanks(x, false) == x);
        assert(x.push('\t') == x + seq!['\t']);
        assert(n[0] != 'b');
    }
    if n == "br"@ {
        lemma_known_name(name, n);
        assert(name.len() == n.len());
        lemma_one_tag_shown(name, false, rest, x, y);
        reveal_strlit("pre");
        assert(n.len() == 2);
        let shown = x.push(EXPLICIT_LINE_BREAK) + y;
        assert(tag_shown(x, n, false) == x.push(EXPLICIT_LINE_BREAK));
        assert(unmarked(shown) == unmarked(x) + seq!['\n'] + unmarked(y));
    }
}

/// A tag of any other element shows as nothing: the words before it and those behind it stand next
/// to each other.
pub proof fn law_other_tags_show_nothing(
    name: Seq<char>,
    closing: bool,
    rest: Seq<char>,
    x: Seq<char>,
    y: Seq<char>,
)
    requires
        ({
            let n = lowered(name);
            n != "p"@ && n != "div"@ && n != "li"@ && n != "table"@ && n != "h1"@ && n != "h2"@ && n
                != "h3"@ && n != "h4"@ && n != "h5"@ && n != "h6"@ && n != "section"@ && n
                != "article"@ && n != "ul"@ && n != "ol"@ && n != "blockquote"@ && n != "pre"@ && (n
                != "tr"@ || !closing) && (n != "td"@ && n != "th"@ || !closing) && (n != "br"@
                || closing)
        }),
        name.len() > 0,
        forall|i: int| 0 <= i < name.len() ==> is_ascii_alnum(#[trigger] name[i]),
        rest.len() > 0 ==> !is_ascii_alnum(rest[0]),
        is_tight(x),
        is_tight(y),
        byte_len(x + tag_text(name, closing, rest) + y) <= usize::MAX,
    ensures
        shown_with(
            x + tag_text(name, closing, rest) + y,
            one_range(x, tag_text(name, closing, rest)),
        ) == x + y,
{
    lemma_one_tag_shown(name, closing, rest, x, y);
}

// ---------------------------------------------------------------------------
// Nothing is lost

/// The character is seen: it is no white space and no mark.
pub open spec fn is_seen(c: char) -> bool {
    !is_space(c) && !is_mark(c)
}

/// The characters of `s` that are seen.
pub open spec fn seen(s: Seq<char>) -> Seq<char>
    decreases s.len(),
{
    if s.len() == 0 {
        seq![]
    } else if is_seen(s[0]) {
        seq![s[0]] + seen(s.drop_first())
    } else {
        seen(s.drop_first())
    }
}

/// The characters that are seen between the first `n` tags at `rs` and behind them up to the next.
pub open spec fn seen_between(s: Seq<char>, rs: Seq<(usize, usize)>, n: int) -> Seq<char>
    decreases n + 1,
{
    if n < 0 {
        seq![]
    } else {
        seen_between(s, rs, n - 1) + seen(gap_text(s, rs, n))
    }
}

/// What is seen of two texts is what is seen of the first and then of the second.
proof fn lemma_seen_parts(a: Seq<char>, b: Seq<char>)
    ensures
        seen(a + b) == seen(a) + seen(b),
    decreases a.len(),
{
    if a.len() == 0 {
        assert(a + b == b);
        assert(seen(a) + seen(b) == seen(b));
    } else {
        let t = a.drop_first();
        assert((a + b)[0] == a[0]);
        assert((a + b).drop_first() == t + b);
        lemma_seen_parts(t, b);
        if is_seen(a[0]) {
            assert(seq![a[0]] + (seen(t) + seen(b)) == seq![a[0]] + seen(t) + seen(b));
        }
    }
}

/// A character that is not seen adds nothing.
proof fn lemma_unseen(s: Seq<char>)
    requires
        forall|i: int| 0 <= i < s.len() ==> !is_seen(#[trigger] s[i]),
    ensures
        seen(s) == Seq::<char>::empty(),
    decreases s.len(),
{
    if s.len() > 0 {
        let t = s.drop_first();
        assert forall|i: int| 0 <= i < t.len() implies !is_seen(#[trigger] t[i]) by {
            assert(t[i] == s[i + 1]);
        }
        assert(!is_seen(s[0]));
        lemma_unseen(t);
    }
}

/// Texts that differ only where neither is seen show the same.
proof fn lemma_seen_pointwise(a: Seq<char>, b: Seq<char>)
    requires
        a.len() == b.len(),
        forall|i: int|
            0 <= i < a.len() ==> #[trigger] a[i] == b[i] || !is_seen(a[i]) && !is_seen(b[i]),
    ensures
        seen(a) == seen(b),
    decreases a.len(),
{
    if a.len() > 0 {
        let x = a.drop_first();
        let y = b.drop_first();
        assert forall|i: int| 0 <= i < x.len() implies #[trigger] x[i] == y[i] || !is_seen(x[i])
            && !is_seen(y[i]) by {
            assert(x[i] == a[i + 1]);
            assert(y[i] == b[i + 1]);
        }
        assert(a[0] == b[0] || !is_seen(a[0]) && !is_seen(b[0]));
        lemma_seen_pointwise(x, y);
    }
}

/// Collapsing white space leaves what is seen.
proof fn lemma_seen_collapsed(s: Seq<char>, in_run: bool)
    ensures
        seen(spaces_collapsed(s, in_run)) == seen(s),
    decreases s.len(),
{
    if s.len() > 0 {
        let t = s.drop_first();
        if !is_space(s[0]) {
            lemma_seen_collapsed(t, false);
            let c = spaces_collapsed(t, false);
            assert((seq![s[0]] + c).drop_first() == c);
        } else {
            lemma_seen_collapsed(t, true);
            let c = spaces_collapsed(t, true);
            assert((seq![' '] + c).drop_first() == c);
        }
    }
}

/// Replacing what is not seen by what is not seen leaves what is seen.
proof fn lemma_seen_replaced(s: Seq<char>, from: Seq<char>, to: Seq<char>)
    requires
        forall|i: int| 0 <= i < from.len() ==> !is_seen(#[trigger] from[i]),
        forall|i: int| 0 <= i < to.len() ==> !is_seen(#[trigger] to[i]),
    ensures
        seen(replaced(s, from, to)) == seen(s),
    decreases s.len(),
{
    if from.len() == 0 || s.len() < from.len() {
    } else if from.is_prefix_of(s) {
        let t = s.skip(from.len() as int);
        lemma_begins(from, s);
        assert(s == from + t);
        lemma_seen_replaced(t, from, to);
        lemma_seen_parts(from, t);
        lemma_seen_parts(to, replaced(t, from, to));
        lemma_unseen(from);
        lemma_unseen(to);
    } else {
        let t = s.drop_first();
        let r = replaced(t, from, to);
        lemma_seen_replaced(t, from, to);
        assert((seq![s[0]] + r).drop_first() == r);
    }
}

/// Cutting spaces off the start leaves what is seen.
proof fn lemma_seen_without_leading(s: Seq<char>)
    ensures
        seen(without_leading(s, ' ')) == seen(s),
    decreases s.len(),
{
    if s.len() > 0 && s[0] == ' ' {
        lemma_seen_without_leading(s.drop_first());
    }
}

/// Cutting blanks off the end leaves what is seen.
proof fn lemma_seen_without_trailing(s: Seq<char>, tabs: bool)
    ensures
        seen(without_trailing_blanks(s, tabs)) == seen(s),
    decreases s.len(),
{
    if s.len() > 0 && (s.last() == ' ' || (tabs && s.last() == '\t')) {
        let t = s.drop_last();
        lemma_seen_without_trailing(t, tabs);
        lemma_seen_parts(t, seq![s.last()]);
        assert(t + seq![s.last()] == s);
        lemma_unseen(seq![s.last()]);
        assert(seen(t) + Seq::<char>::empty() == seen(t));
    }
}

/// A text is shown with all that is seen of it.
proof fn lemma_seen_text(out: Seq<char>, fragment: Seq<char>, preformatted: bool)
    ensures
        seen(text_shown(out, fragment, preformatted)) == seen(out) + seen(fragment),
{
    if preformatted {
        reveal_strlit("\r\n");
        reveal_strlit("\r");
        reveal_strlit("\n");
        let t = newlines_unified(fragment);
        let u = replaced(fragment, "\r\n"@, "\n"@);
        lemma_seen_replaced(fragment, "\r\n"@, "\n"@);
        lemma_seen_replaced(u, "\r"@, "\n"@);
        lemma_seen_pointwise(preserved(fragment), t);
        lemma_seen_parts(out, preserved(fragment));
    } else {
        let m = hard_spaces_marked(fragment);
        let t = spaces_collapsed(m, false);
        lemma_seen_pointwise(m, fragment);
        lemma_seen_collapsed(m, false);
        lemma_seen_without_leading(t);
        lemma_seen_parts(out, t);
        lemma_seen_parts(out, without_leading(t, ' '));
    }
}

/// A tag adds nothing that is seen, and takes nothing of it away.
proof fn lemma_seen_tag(out: Seq<char>, name: Seq<char>, closing: bool)
    ensures
        seen(tag_shown(out, name, closing)) == seen(out),
{
    let t = without_trailing_blanks(out, true);
    let c = without_trailing_blanks(out, false);
    let none = Seq::<char>::empty();
    lemma_seen_without_trailing(out, true);
    lemma_seen_without_trailing(out, false);
    lemma_unseen(seq!['\n']);
    lemma_unseen(seq!['\t']);
    lemma_unseen(seq![EXPLICIT_LINE_BREAK]);
    lemma_seen_parts(t, seq!['\n']);
    lemma_seen_parts(c, seq!['\t']);
    lemma_seen_parts(out, seq![EXPLICIT_LINE_BREAK]);
    assert(t.push('\n') == t + seq!['\n']);
    assert(c.push('\t') == c + seq!['\t']);
    assert(out.push(EXPLICIT_LINE_BREAK) == out + seq![EXPLICIT_LINE_BREAK]);
    assert(seen(out) + none == seen(out));
}

/// Up to a tag, what is shown is what is seen between the tags before it.
proof fn lemma_seen_upto(s: Seq<char>, rs: Seq<(usize, usize)>, n: int)
    requires
        0 <= n,
    ensures
        seen(shown_upto(s, rs, n).0) == seen_between(s, rs, n - 1),
    decreases n,
{
    if n > 0 {
        lemma_seen_upto(s, rs, n - 1);
        let (out, preformatted) = shown_upto(s, rs, n - 1);
        let tag = match_text(s, rs, n - 1);
        let gap = gap_text(s, rs, n - 1);
        lemma_seen_text(out, gap, preformatted);
        lemma_seen_tag(
            text_shown(out, gap, preformatted),
            tag_name(tag),
            is_closing_tag(tag),
        );
    }
}

/// Markup shows all its text and nothing else: what is seen of it is what is seen between its tags,
/// in order.
pub proof fn law_markup_shows_all_its_text(s: Seq<char>, rs: Seq<(usize, usize)>)
    ensures
        seen(shown_with(s, rs)) == seen_between(s, rs, rs.len() as int),
{
    let n = rs.len() as int;
    lemma_seen_upto(s, rs, n);
    let (out, preformatted) = shown_upto(s, rs, n);
    lemma_seen_text(out, gap_text(s, rs, n), preformatted);
}

/// Behind the tag of a block, wherever it stands in markup, a line begins.
pub proof fn law_line_begins_behind_a_block_tag(
    s: Seq<char>,
    rs: Seq<(usize, usize)>,
    n: int,
    name: Seq<char>,
    closing: bool,
    rest: Seq<char>,
)
    requires
        0 <= n < rs.len(),
        match_text(s, rs, n) == tag_text(name, closing, rest),
        rest.len() > 0 ==> !is_ascii_alnum(rest[0]),
        ({
            let m = lowered(name);
            m == "p"@ || m == "div"@ || m == "li"@ || m == "table"@ || m == "h1"@ || m == "h2"@ || m
                == "h3"@ || m == "h4"@ || m == "h5"@ || m == "h6"@ || m == "section"@ || m
                == "article"@ || m == "ul"@ || m == "ol"@ || m == "blockquote"@ || m == "pre"@ || m
                == "tr"@ && closing
        }),
    ensures
        ({
            let out = shown_upto(s, rs, n + 1).0;
            out.len() == 0 || out.last() == '\n' || out.last() == '\u{f0000}'
        }),
{
    let m = lowered(name);
    reveal_strlit("p");
    reveal_strlit("div");
    reveal_strlit("li");
    reveal_strlit("table");
    reveal_strlit("h1");
    reveal_strlit("h2");
    reveal_strlit("h3");
    reveal_strlit("h4");
    reveal_strlit("h5");
    reveal_strlit("h6");
    reveal_strlit("section");
    reveal_strlit("article");
    reveal_strlit("ul");
    reveal_strlit("ol");
    reveal_strlit("blockquote");
    reveal_strlit("pre");
    reveal_strlit("tr");
    reveal_strlit("br");
    reveal_strlit("td");
    reveal_strlit("th");
    lemma_known_name(name, m);
    assert(name.len() == m.len());
    law_tag_is_read(name, closing, rest);
    assert(m[0] != 'b' || m[1] != 'r');
    assert(m[0] != 't' || m[1] != 'd' && m[1] != 'h');
    let (out, preformatted) = shown_upto(s, rs, n);
    law_block_boundary_is_one_break(text_shown(out, gap_text(s, rs, n), preformatted));
}

} // verus!
