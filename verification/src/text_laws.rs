//! What the text functions come to: which part of markup is shown, what it gives as text, and what
//! becomes of a header.

use vstd::prelude::*;
use vstd::utf8::{encode_utf8, is_ascii_chars};

use crate::cf_html::{
    body_lines, body_text, cf_html, cf_offsets_fit, has_cf_header, is_header_line,
    law_fragment_stands_between_its_marks, repaired,
};
use crate::chars::{is_ascii_alnum, is_space};
use crate::layout::{
    is_tidy, is_tight, law_entity_stands_for_its_character, law_text_without_entities_stays,
    law_tidy_layout_twice, law_tidy_lines_stay, law_unified_stays, one_line, tidy_layout,
};
use crate::office::{
    is_office_style, office_blocks_blanked, office_prefix_dropped, COMMENT_BLOCK, STYLE_BLOCK,
    XML_BLOCK,
};
use crate::plain_text::{
    first_body, has_metadata, html_text_at, looks_html_at, metadata_cut, noise_stripped_at,
    plain_text_at, renderable_region_at, shown_decoded, HARD_SPACE_ENTITY, HARD_SPACE_MARK,
};
use crate::regexes::{pattern_groups, pattern_ranges, pattern_replaced};
use crate::render::{
    is_mark, law_block_tags_part_lines, one_range, shown_with, tag_text, unmarked, TAG,
};
use crate::text::{
    byte_len, joined, lemma_first_from, lemma_slice_of_part, lemma_span_is, lemma_trimmed_parts,
    line_list, lowered, occurs, trimmed,
};

verus! {

/// What stands between the marks of a fragment is the part of markup that is shown, whatever stands
/// around the marks.
pub proof fn law_marked_fragment_is_shown(
    before: Seq<char>,
    fragment: Seq<char>,
    behind: Seq<char>,
    depth: nat,
)
    requires
        !before.contains('<'),
        !occurs(fragment, "<!--EndFragment-->"@),
        ({
            let s = before + "<!--StartFragment-->"@ + fragment + "<!--EndFragment-->"@ + behind;
            trimmed(repaired(s)) == s
        }),
    ensures
        renderable_region_at(
            before + "<!--StartFragment-->"@ + fragment + "<!--EndFragment-->"@ + behind,
            depth,
        ) == Some(trimmed(fragment)),
{
    let s = before + "<!--StartFragment-->"@ + fragment + "<!--EndFragment-->"@ + behind;
    law_fragment_stands_between_its_marks(before, fragment, behind);
    assert(s.len() > 0) by {
        reveal_strlit("<!--StartFragment-->");
    }
}

/// Without a header and without the marks of a fragment, the body is shown where there is one, and
/// else everything but the head.
pub proof fn law_body_is_shown_and_head_is_not(s: Seq<char>, depth: nat)
    requires
        trimmed(repaired(s)) == s,
        s.len() > 0,
        !occurs(s, "<!--StartFragment-->"@),
        !has_cf_header(s),
    ensures
        first_body(s) matches Some(body) ==> renderable_region_at(s, depth) == Some(trimmed(body)),
        first_body(s) is None ==> renderable_region_at(s, depth) == Some(
            trimmed(pattern_replaced(r"(?is)<head\b[\s\S]*?</head\s*>"@, s, " "@)),
        ),
{
    lemma_first_from(s, "<!--StartFragment-->"@, 0);
}

/// Markup is noise-free where none of its office blocks reads like style definitions and neither
/// does what stands before its first showing tag: then all of the shown part is kept.
pub proof fn law_markup_without_noise_is_kept(s: Seq<char>, depth: nat)
    requires
        renderable_region_at(s, depth) == Some(s),
        trimmed(s) == s && s.len() > 0,
        office_blocks_blanked(XML_BLOCK@, s) == s,
        office_blocks_blanked(STYLE_BLOCK@, s) == s,
        office_blocks_blanked(COMMENT_BLOCK@, s) == s,
        office_prefix_dropped(s) == s,
    ensures
        noise_stripped_at(s, depth) == Some(s),
{
}

/// The text that clean markup shows, once entities are decoded, is its text, where that is in a
/// tidy layout and holds no header, no office metadata, no style definitions and no marks.
pub proof fn law_clean_markup_gives_its_text(html: Seq<char>, text: Seq<char>, depth: nat)
    requires
        noise_stripped_at(html, depth) == Some(html),
        html.len() > 0,
        shown_decoded(html) == text,
        text.len() > 0,
        tidy_layout(text) == text,
        !text.contains('\r'),
        !has_cf_header(text),
        !has_metadata(text),
        !is_office_style(one_line(text)),
        forall|i: int| 0 <= i < text.len() ==> !is_mark(#[trigger] text[i]),
    ensures
        html_text_at(html, depth) == Some(text),
{
    law_unified_stays(text);
    assert(unmarked(text) == text);
}

/// Two lots of words, parted by the tag of a block, come out of clean markup on lines of their own.
pub proof fn law_blocks_come_out_on_lines_of_their_own(
    name: Seq<char>,
    closing: bool,
    rest: Seq<char>,
    x: Seq<char>,
    y: Seq<char>,
    depth: nat,
)
    requires
        ({
            let n = lowered(name);
            n == "p"@ || n == "div"@ || n == "li"@ || n == "table"@ || n == "h1"@ || n == "h2"@ || n
                == "h3"@ || n == "h4"@ || n == "h5"@ || n == "h6"@ || n == "section"@ || n
                == "article"@ || n == "ul"@ || n == "ol"@ || n == "blockquote"@ || n == "tr"@
                && closing
        }),
        rest.len() > 0 ==> !is_ascii_alnum(rest[0]),
        x.len() > 0 && is_tight(x) && !x.contains('&'),
        y.len() > 0 && is_tight(y) && !y.contains('&'),
        forall|i: int| 0 <= i < x.len() ==> !is_mark(#[trigger] x[i]),
        forall|i: int| 0 <= i < y.len() ==> !is_mark(#[trigger] y[i]),
        ({
            let tag = tag_text(name, closing, rest);
            let html = x + tag + y;
            let text = x + seq!['\n'] + y;
            &&& byte_len(html) <= usize::MAX
            &&& noise_stripped_at(html, depth) == Some(html)
            &&& pattern_ranges(TAG@, html) == one_range(x, tag)
            &&& pattern_replaced(HARD_SPACE_ENTITY@, text, HARD_SPACE_MARK@) == text
            &&& !has_cf_header(text)
            &&& !has_metadata(text)
            &&& !is_office_style(one_line(text))
        }),
    ensures
        html_text_at(x + tag_text(name, closing, rest) + y, depth) == Some(x + seq!['\n'] + y),
{
    let tag = tag_text(name, closing, rest);
    let html = x + tag + y;
    let text = x + seq!['\n'] + y;
    assert(x.last() != '\u{f0000}') by {
        assert(!is_mark(x[x.len() - 1]));
    }
    lemma_not_preformatted(lowered(name));
    law_block_tags_part_lines(name, closing, rest, x, y);
    lemma_two_lines(x, y);
    law_text_without_entities_stays(text);
    assert(html.len() > 0);
    law_clean_markup_gives_its_text(html, text, depth);
}

/// Preformatted text is no other block.
proof fn lemma_not_preformatted(n: Seq<char>)
    requires
        n == "p"@ || n == "div"@ || n == "li"@ || n == "table"@ || n == "h1"@ || n == "h2"@ || n
            == "h3"@ || n == "h4"@ || n == "h5"@ || n == "h6"@ || n == "section"@ || n
            == "article"@ || n == "ul"@ || n == "ol"@ || n == "blockquote"@ || n == "tr"@,
    ensures
        n != "pre"@,
{
    reveal_strlit("pre");
    reveal_strlit("p");
    reveal_strlit("div");
    reveal_strlit("li");
    reveal_strlit("table");
    reveal_strlit("h1");
    reveal_strlit("h2");
    reveal_strlit("h3");
    reveal_strlit("h4");
    reveal_strlit("h5");
    reveal_strlit("h6");
    reveal_strlit("section");
    reveal_strlit("article");
    reveal_strlit("ul");
    reveal_strlit("ol");
    reveal_strlit("blockquote");
    reveal_strlit("tr");
    assert("pre"@[0] == 'p' && "pre"@.len() == 3);
    assert("div"@[0] == 'd');
}

/// Two lines of words are in a tidy layout, and hold what the lines hold.
proof fn lemma_two_lines(x: Seq<char>, y: Seq<char>)
    requires
        x.len() > 0 && is_tight(x) && !x.contains('&'),
        y.len() > 0 && is_tight(y) && !y.contains('&'),
        forall|i: int| 0 <= i < x.len() ==> !is_mark(#[trigger] x[i]),
        forall|i: int| 0 <= i < y.len() ==> !is_mark(#[trigger] y[i]),
    ensures
        ({
            let text = x + seq!['\n'] + y;
            &&& tidy_layout(text) == text
            &&& !text.contains('&')
            &&& !text.contains('\r')
            &&& forall|i: int| 0 <= i < text.len() ==> !is_mark(#[trigger] text[i])
        }),
{
    reveal_strlit("\n");
    let text = x + seq!['\n'] + y;
    assert forall|i: int| 0 <= i < text.len() implies text[i] != '&' && !is_mark(
        #[trigger] text[i],
    ) by {
        if i < x.len() {
            assert(text[i] == x[i]);
            assert(x.contains(x[i]));
        } else if i > x.len() {
            let k = i - x.len() - 1;
            assert(text[i] == y[k]);
            assert(y.contains(y[k]));
        }
    }
    let ls = seq![x, y];
    assert(ls.drop_last() == seq![x]);
    assert(joined(seq![x], "\n"@) == x);
    assert("\n"@ == seq!['\n']);
    assert(joined(ls, "\n"@) == text);
    assert(is_tidy(ls));
    law_tidy_lines_stay(ls);
}

/// A text with a header gives the text of its markup, where that shows any.
pub proof fn law_headed_text_gives_the_text_of_its_markup(
    s: Seq<char>,
    html: Seq<char>,
    text: Seq<char>,
    depth: nat,
)
    requires
        has_cf_header(s),
        !s.contains('\r'),
        cf_offsets_fit(encode_utf8(s)),
        cf_html(encode_utf8(s)) == Some(html),
        html_text_at(html, depth) == Some(text),
        trimmed(text).len() > 0,
    ensures
        plain_text_at(s, depth + 1) == Some(text),
{
    law_unified_stays(s);
}

/// A text with a header that gives no markup is what stands behind the header lines, where that is
/// no markup either.
pub proof fn law_header_lines_are_dropped(s: Seq<char>, depth: nat)
    requires
        has_cf_header(s),
        !s.contains('\r'),
        cf_offsets_fit(encode_utf8(s)),
        cf_html(encode_utf8(s)) is None,
        body_text(s, true).len() > 0,
        body_text(s, true) != s,
        looks_html_at(body_text(s, true), depth) == Some(false),
    ensures
        plain_text_at(s, depth + 1) == Some(body_text(s, true)),
{
    law_unified_stays(s);
    assert(trimmed(Seq::<char>::empty()).len() == 0);
}

/// The lines behind a header line by line: a line with one of the keys before a text that begins with
/// none is dropped, and the text stays.
pub proof fn law_lines_of_the_header_are_no_text(
    key: Seq<char>,
    value: Seq<char>,
    body: Seq<char>,
)
    requires
        key == "Version:"@ || key == "StartHTML:"@ || key == "EndHTML:"@ || key == "StartFragment:"@
            || key == "EndFragment:"@ || key == "SourceURL:"@,
        is_ascii_chars(value),
        !value.contains('\n') && !value.contains('\r'),
        body.len() > 0 && trimmed(body) == body,
        !body.contains('\n') && !body.contains('\r'),
        !is_header_line(body, false),
    ensures
        body_text(key + value + seq!['\n'] + body, false) == body,
{
    reveal_strlit("\n");
    let e = Seq::<char>::empty();
    let head = key + value;
    let s = head + seq!['\n'] + body;
    lemma_key_line(key, value);
    let n = head.len() as int;
    assert forall|i: int| 0 <= i < n implies #[trigger] s[i] != '\n' by {
        if i < key.len() {
            assert(s[i] == key[i]);
        } else {
            assert(s[i] == value[i - key.len()]);
            assert(value.contains(value[i - key.len()]));
        }
    }
    lemma_span_is(s, '\n', n);
    assert(s.take(n) == head);
    assert(s.skip(n + 1) == body);
    lemma_span_is(body, '\n', body.len() as int);
    assert(head.last() != '\r') by {
        if value.len() > 0 {
            assert(head.last() == value.last());
            assert(value.contains(value.last()));
        } else {
            assert(head.last() == key.last());
        }
    }
    assert(line_list(body) == seq![body]);
    let ls = seq![head] + seq![body];
    assert(line_list(s) == ls);
    assert(ls.drop_first() == seq![body]);
    assert(body_lines(seq![body], false) == seq![body]);
    assert(body_lines(ls, false) == seq![body]);
    assert(joined(seq![body], "\n"@) == body);
}

/// A line that begins with a key belongs to the header.
proof fn lemma_key_line(key: Seq<char>, value: Seq<char>)
    requires
        key == "Version:"@ || key == "StartHTML:"@ || key == "EndHTML:"@ || key == "StartFragment:"@
            || key == "EndFragment:"@ || key == "SourceURL:"@,
    ensures
        is_header_line(key + value, false),
        key.len() > 0,
        forall|i: int| 0 <= i < key.len() ==> #[trigger] key[i] != '\n' && key[i] != '\r',
{
    reveal_strlit("Version:");
    reveal_strlit("StartHTML:");
    reveal_strlit("EndHTML:");
    reveal_strlit("StartFragment:");
    reveal_strlit("EndFragment:");
    reveal_strlit("SourceURL:");
    reveal_strlit("version:");
    reveal_strlit("starthtml:");
    reveal_strlit("endhtml:");
    reveal_strlit("startfragment:");
    reveal_strlit("endfragment:");
    reveal_strlit("sourceurl:");
    let s = key + value;
    let (v, w) = lemma_trimmed_parts(s);
    let t = trimmed(s);
    assert(!is_space(s[0]));
    if v.len() > 0 {
        assert(s[0] == v[0]);
    }
    assert(v + t == t);
    let n = key.len() as int;
    assert(!is_space(key[n - 1]));
    if t.len() < n {
        assert(s[n - 1] == w[n - 1 - t.len()]);
    }
    assert(lowered(t).subrange(0, n) =~= lowered(key)) by {
        assert forall|i: int| 0 <= i < n implies t[i] == key[i] by {
            assert((t + w)[i] == t[i]);
        }
    }
    if key == "Version:"@ {
        assert(lowered(key) =~= "version:"@);
    } else if key == "StartHTML:"@ {
        assert(lowered(key) =~= "starthtml:"@);
    } else if key == "EndHTML:"@ {
        assert(lowered(key) =~= "endhtml:"@);
    } else if key == "StartFragment:"@ {
        assert(lowered(key) =~= "startfragment:"@);
    } else if key == "EndFragment:"@ {
        assert(lowered(key) =~= "endfragment:"@);
    } else {
        assert(lowered(key) =~= "sourceurl:"@);
    }
}

/// The body of a document is what stands between its tags.
pub proof fn law_body_stands_between_its_tags(
    before: Seq<char>,
    opening: Seq<char>,
    body: Seq<char>,
    closing: Seq<char>,
    behind: Seq<char>,
    more: Seq<Seq<Option<(usize, usize)>>>,
)
    requires
        ({
            let s = before + opening + body + closing + behind;
            let a = byte_len(before) as usize;
            let b = byte_len(before + opening) as usize;
            let c = byte_len(before + opening + body) as usize;
            let d = byte_len(before + opening + body + closing) as usize;
            &&& byte_len(s) <= usize::MAX
            &&& pattern_groups(r"(?is)<body\b[^>]*>([\s\S]*?)</body\s*>"@, s) == seq![
                seq![Some((a, d)), Some((b, c))],
            ] + more
        }),
    ensures
        first_body(before + opening + body + closing + behind) == Some(body),
{
    let s = before + opening + body + closing + behind;
    lemma_slice_of_part(before + opening, body, closing + behind);
    assert(before + opening + body + (closing + behind) == s);
    lemma_slice_of_part(before + opening + body, closing, behind);
    lemma_slice_of_part(before, opening, body + closing + behind);
    assert(before + opening + (body + closing + behind) == s);
}

/// Where no body is found, a document has none.
pub proof fn law_no_body_where_none_is_found(s: Seq<char>)
    requires
        pattern_groups(r"(?is)<body\b[^>]*>([\s\S]*?)</body\s*>"@, s).len() == 0,
    ensures
        first_body(s) is None,
{
}

/// Of markup with a header, the part that is shown is its text where that is shorter than the markup
/// and not empty; else its body, or the markup without its head.
pub proof fn law_text_of_headed_markup_is_shown(s: Seq<char>, text: Seq<char>, depth: nat)
    requires
        trimmed(repaired(s)) == s,
        s.len() > 0,
        !occurs(s, "<!--StartFragment-->"@),
        has_cf_header(s),
        plain_text_at(s, depth) == Some(text),
    ensures
        text.len() > 0 && byte_len(text) < byte_len(s) ==> renderable_region_at(s, depth) == Some(
            text,
        ),
        text.len() == 0 || byte_len(text) >= byte_len(s) ==> (first_body(s) matches Some(body)
            ==> renderable_region_at(s, depth) == Some(trimmed(body))),
        (text.len() == 0 || byte_len(text) >= byte_len(s)) && first_body(s) is None
            ==> renderable_region_at(s, depth) == Some(
            trimmed(pattern_replaced(r"(?is)<head\b[\s\S]*?</head\s*>"@, s, " "@)),
        ),
{
    lemma_first_from(s, "<!--StartFragment-->"@, 0);
}

/// Office noise goes from what is shown wherever it stands: in an XML island, in a style sheet, in a
/// comment, and before the first tag that shows something; what is left is shown without white space
/// at its ends.
pub proof fn law_noise_goes_wherever_it_stands(
    s: Seq<char>,
    region: Seq<char>,
    no_xml: Seq<char>,
    no_style: Seq<char>,
    no_comment: Seq<char>,
    rest: Seq<char>,
    depth: nat,
)
    requires
        renderable_region_at(s, depth) == Some(region),
        trimmed(region).len() > 0,
        office_blocks_blanked(r"(?is)<xml\b[\s\S]*?</xml>"@, region) == no_xml,
        office_blocks_blanked(r"(?is)<style\b[\s\S]*?</style>"@, no_xml) == no_style,
        office_blocks_blanked(r"(?is)<!--[\s\S]*?-->"@, no_style) == no_comment,
        office_prefix_dropped(no_comment) == rest,
    ensures
        noise_stripped_at(s, depth) == Some(trimmed(rest)),
{
}

/// Of a blank part nothing is shown.
pub proof fn law_blank_markup_shows_nothing(s: Seq<char>, region: Seq<char>, depth: nat)
    requires
        renderable_region_at(s, depth) == Some(region),
        trimmed(region).len() == 0,
    ensures
        noise_stripped_at(s, depth) == Some(Seq::<char>::empty()),
        html_text_at(s, depth) == Some(Seq::<char>::empty()),
{
}

/// The tags of markup are found by one pattern, and each entity in what is shown is made the
/// character that it stands for: entities for a space that does not break are made the mark of a
/// space that stays.
pub proof fn law_shown_text_is_decoded(
    s: Seq<char>,
    a: Seq<char>,
    b: Seq<char>,
    entity: Seq<char>,
    c: char,
)
    requires
        !a.contains('&'),
        !b.contains('&'),
        !b.contains(';'),
        entity == "&amp;"@ && c == '&' || entity == "&lt;"@ && c == '<' || entity == "&gt;"@ && c
            == '>' || entity == "&quot;"@ && c == '"' || entity == "&#34;"@ && c == '"' || entity
            == "&#39;"@ && c == '\'' || entity == "&apos;"@ && c == '\'',
    ensures
        ({
            let shown = shown_with(s, pattern_ranges(r"(?is)<[^>]+>"@, s));
            let hard = pattern_replaced(
                r"(?i)&(?:nbsp|#0*160|#x0*a0);"@,
                shown,
                "\u{f0001}"@,
            );
            &&& hard == a + entity + b ==> shown_decoded(s) == a + seq![c] + b
            &&& hard == a ==> shown_decoded(s) == a
        }),
{
    law_entity_stands_for_its_character(a, b);
    law_text_without_entities_stays(a);
}

/// Markup gives the text that it shows, in a tidy layout and with the breaks and spaces in it that
/// must stay, whatever the text; where the text reads like style definitions it gives none.
pub proof fn law_markup_gives_its_tidy_text(
    html: Seq<char>,
    clean: Seq<char>,
    text: Seq<char>,
    depth: nat,
)
    requires
        noise_stripped_at(html, depth) == Some(clean),
        clean.len() > 0,
        tidy_layout(shown_decoded(clean)) == text,
        !text.contains('\r'),
        !has_cf_header(text),
        !has_metadata(text),
    ensures
        !is_office_style(one_line(text)) ==> html_text_at(html, depth) == Some(unmarked(text)),
        is_office_style(one_line(text)) ==> html_text_at(html, depth) == Some(Seq::<char>::empty()),
{
    law_tidy_layout_twice(shown_decoded(clean));
    law_unified_stays(text);
    if text.len() == 0 {
        assert(text == Seq::<char>::empty());
        assert(unmarked(text) == text);
    }
}

/// The words of office metadata at the start of a text are cut off where one of two such words
/// stands in it, and something is left behind them; else the text stays.
pub proof fn law_metadata_is_cut_off(
    s: Seq<char>,
    prefix: Seq<char>,
    rest: Seq<char>,
    more: Seq<(usize, usize)>,
)
    ensures
        !occurs(lowered(s), "microsoftinternetexplorer"@) && !occurs(
            lowered(s),
            "documentnotspecified"@,
        ) ==> metadata_cut(s) == s,
        (occurs(lowered(s), "microsoftinternetexplorer"@) || occurs(
            lowered(s),
            "documentnotspecified"@,
        )) && s == prefix + rest && byte_len(s) <= usize::MAX && pattern_ranges(
            r"(?is)^\s*(?:(?:\d+|false|true|[a-z]{2}(?:-[a-z]{2})?|x-none|normal|documentnotspecified|microsoftinternetexplorer\d*|[\d.]+(?:pt|px|磅))\s+)+"@,
            s,
        ) == seq![(0usize, byte_len(prefix) as usize)] + more ==> metadata_cut(s) == (if trimmed(
            rest,
        ).len() > 0 {
            trimmed(rest)
        } else {
            s
        }),
{
    let e = Seq::<char>::empty();
    if s == prefix + rest && byte_len(s) <= usize::MAX {
        lemma_slice_of_part(e, e, s);
        lemma_slice_of_part(prefix, rest, e);
        lemma_slice_of_part(e, prefix, rest);
        assert(e + e + s == s);
        assert(e + e == e);
        assert(e + prefix == prefix);
        assert(s + e == s);
        assert(byte_len(e) == 0);
        assert(e + rest == rest);
    }
}

/// A text of which a header and its markup give no text is what stands behind the lines of the
/// header: the text of that where it is markup that gives one, else that itself.
pub proof fn law_text_behind_the_header_is_read(s: Seq<char>, text: Seq<char>, depth: nat)
    requires
        has_cf_header(s),
        !s.contains('\r'),
        cf_offsets_fit(encode_utf8(s)),
        cf_html(encode_utf8(s)) matches Some(html) ==> html_text_at(html, depth) matches Some(t)
            && trimmed(t).len() == 0,
        body_text(s, true).len() > 0,
        body_text(s, true) != s,
        looks_html_at(body_text(s, true), depth) == Some(true) ==> html_text_at(
            body_text(s, true),
            depth,
        ) == Some(text),
    ensures
        looks_html_at(body_text(s, true), depth) == Some(false) ==> plain_text_at(s, depth + 1)
            == Some(body_text(s, true)),
        looks_html_at(body_text(s, true), depth) == Some(true) ==> plain_text_at(s, depth + 1)
            == Some(
            if trimmed(text).len() > 0 {
                text
            } else {
                body_text(s, true)
            },
        ),
{
    law_unified_stays(s);
    lemma_trimmed_nothing();
}

/// Where the header stands in the lines of the text, its entries are dropped from the lines; a text
/// of nothing but such entries stays.
pub proof fn law_entries_of_the_header_are_dropped(s: Seq<char>, depth: nat)
    requires
        has_cf_header(s),
        !s.contains('\r'),
        cf_offsets_fit(encode_utf8(s)),
        cf_html(encode_utf8(s)) is None,
        body_text(s, true).len() == 0 || body_text(s, true) == s,
    ensures
        ({
            let left = trimmed(
                tidy_layout(
                    pattern_replaced(
                        r"(?is)\b(?:version:\s*[^\s]+|starthtml:\s*\d+|endhtml:\s*\d+|startfragment:\s*\d+|endfragment:\s*\d+|sourceurl:\s*\S+)"@,
                        s,
                        " "@,
                    ),
                ),
            );
            &&& left.len() == 0 ==> plain_text_at(s, depth + 1) == Some(s)
            &&& left.len() > 0 && looks_html_at(left, depth) == Some(false) ==> plain_text_at(
                s,
                depth + 1,
            ) == Some(left)
        }),
{
    law_unified_stays(s);
    lemma_trimmed_nothing();
}

/// Nothing is left of nothing.
proof fn lemma_trimmed_nothing()
    ensures
        trimmed(Seq::<char>::empty()).len() == 0,
{
    let (_, _) = lemma_trimmed_parts(Seq::<char>::empty());
}

} // verus!
