//! What entries come to: the text, the preview and the fingerprint of an entry, and the markup that
//! plain text carries.

use vstd::prelude::*;
use vstd::utf8::encode_utf8;

use crate::cf_html::{cf_html, cf_offsets_fit, has_cf_header};
use crate::layout::{
    law_one_line_is_the_words, law_one_line_keeps_the_words, law_tidy_layout_twice,
    law_unified_keeps_the_words, law_unified_stays, newlines_unified, one_line, tidy_layout, words,
};
use crate::office::is_office_style;
use crate::plain_text::{
    has_metadata, html_text_at, law_plain_text_without_header, looks_html_at, plain_text_at,
};
use crate::regexes::pattern_found;
use crate::rich_text::{
    entry_preview_at, fingerprint_at, first_filled, inferred_html_at, is_callout,
    is_formatting_app, rich_content_at, sanitized_at,
};
use crate::text::{joined, line_list, lowered, occurs, occurs_at, trimmed};

verus! {

// ---------------------------------------------------------------------------
// Words

/// Two texts are the same on one line exactly where they have the same words.
pub proof fn law_same_line_same_words(a: Seq<char>, b: Seq<char>)
    ensures
        one_line(a) == one_line(b) <==> words(a) == words(b),
{
    law_one_line_is_the_words(a);
    law_one_line_is_the_words(b);
    law_one_line_keeps_the_words(a);
    law_one_line_keeps_the_words(b);
}

/// The words of a text, cut to the length of a preview: 500 characters, of which the last three are
/// dots where there are more.
pub open spec fn short_line(s: Seq<char>) -> Seq<char> {
    let line = joined(words(s), " "@);
    if line.len() > 500 {
        line.take(497) + "..."@
    } else {
        line
    }
}

/// The kinds of content are different ones.
proof fn lemma_kinds_differ()
    ensures
        "image"@ != "rich_text"@,
        "text"@ != "rich_text"@,
        "code"@ != "rich_text"@,
        "url"@ != "rich_text"@,
{
    reveal_strlit("image");
    reveal_strlit("rich_text");
    reveal_strlit("text");
    reveal_strlit("code");
    reveal_strlit("url");
    assert("rich_text"@.len() == 9 && "image"@.len() == 5 && "text"@.len() == 4);
    assert("code"@.len() == 4 && "url"@.len() == 3);
}

// ---------------------------------------------------------------------------
// Previews

/// The preview of a text without a header is its words on a short line, for every kind of content
/// but images and rich text, and whatever markup stands beside it.
pub proof fn law_preview_of_text_is_its_words(
    content_type: Seq<char>,
    content: Seq<char>,
    html: Option<Seq<char>>,
    depth: nat,
)
    requires
        content_type != "image"@,
        content_type != "rich_text"@,
        !has_cf_header(content),
    ensures
        entry_preview_at(content_type, content, html, depth) == Some(short_line(content)),
{
    law_plain_text_without_header(content, depth);
    let u = newlines_unified(content);
    law_unified_keeps_the_words(content);
    law_one_line_is_the_words(u);
}

/// The preview of an image says that it is one, whatever stands in the entry.
pub proof fn law_preview_of_image(content: Seq<char>, html: Option<Seq<char>>, depth: nat)
    ensures
        entry_preview_at("image"@, content, html, depth) == Some("[Image Content]"@),
{
}

/// The preview of rich text with markup is the words of its text on a short line, or says that it is
/// rich text where it has none.
pub proof fn law_preview_of_rich_text_is_its_words(
    content: Seq<char>,
    html: Seq<char>,
    text: Seq<char>,
    depth: nat,
)
    requires
        rich_content_at(content, Some(html), depth) == Some(text),
    ensures
        words(text).len() > 0 ==> entry_preview_at("rich_text"@, content, Some(html), depth)
            == Some(short_line(text)),
        words(text).len() == 0 ==> entry_preview_at("rich_text"@, content, Some(html), depth)
            == Some("[Rich Text Content]"@),
{
    lemma_kinds_differ();
    lemma_line_of_words(text);
    reveal_strlit("[Rich Text Content]");
}

/// A text has a line where it has words.
proof fn lemma_line_of_words(text: Seq<char>)
    ensures
        one_line(text) == joined(words(text), " "@),
        one_line(text).len() == 0 <==> words(text).len() == 0,
{
    law_one_line_is_the_words(text);
    law_one_line_keeps_the_words(text);
    let e = Seq::<char>::empty();
    if one_line(text).len() == 0 {
        assert(one_line(text) == e);
        assert(words(e).len() == 0);
    }
}

/// The preview of rich text without markup is the words of its text on a short line, unless the
/// content is bare markup that shows nothing but itself.
pub proof fn law_preview_of_bare_rich_text(
    content: Seq<char>,
    text: Seq<char>,
    is_markup: bool,
    depth: nat,
)
    requires
        rich_content_at(content, None, depth) == Some(text),
        looks_html_at(content, depth) == Some(is_markup),
        words(text).len() > 0,
    ensures
        entry_preview_at("rich_text"@, content, None, depth) == Some(
            if is_markup && words(text) == words(content) {
                "[Rich Text Content]"@
            } else {
                short_line(text)
            },
        ),
{
    lemma_kinds_differ();
    lemma_line_of_words(text);
    law_same_line_same_words(text, content);
    reveal_strlit("[Rich Text Content]");
}

// ---------------------------------------------------------------------------
// Fingerprints

/// The fingerprint of a text without a header is its words, with one space between them, for each
/// kind of text; images and files have none.
pub proof fn law_fingerprint_is_the_words(
    content_type: Seq<char>,
    content: Seq<char>,
    html: Option<Seq<char>>,
    depth: nat,
)
    requires
        !has_cf_header(content),
        content_type != "rich_text"@,
    ensures
        content_type == "text"@ || content_type == "code"@ || content_type == "url"@
            ==> fingerprint_at(content_type, content, html, depth) == Some(
            joined(words(content), " "@),
        ),
        content_type != "text"@ && content_type != "code"@ && content_type != "url"@
            ==> fingerprint_at(content_type, content, html, depth) == Some(Seq::<char>::empty()),
{
    law_plain_text_without_header(content, depth);
    law_unified_keeps_the_words(content);
    law_one_line_is_the_words(newlines_unified(content));
}

/// Two texts without a header have the same fingerprint exactly where they have the same words, of
/// whichever of the three kinds they are.
pub proof fn law_fingerprints_tell_words_apart(
    a_type: Seq<char>,
    a: Seq<char>,
    b_type: Seq<char>,
    b: Seq<char>,
    depth: nat,
)
    requires
        a_type == "text"@ || a_type == "code"@ || a_type == "url"@,
        b_type == "text"@ || b_type == "code"@ || b_type == "url"@,
        !has_cf_header(a),
        !has_cf_header(b),
    ensures
        fingerprint_at(a_type, a, None, depth) == fingerprint_at(b_type, b, None, depth) <==> words(
            a,
        ) == words(b),
{
    lemma_kinds_differ();
    law_fingerprint_is_the_words(a_type, a, None, depth);
    law_fingerprint_is_the_words(b_type, b, None, depth);
    law_same_line_same_words(a, b);
    law_one_line_is_the_words(a);
    law_one_line_is_the_words(b);
}

/// The fingerprint of rich text is the words of its text.
pub proof fn law_fingerprint_of_rich_text(
    content: Seq<char>,
    html: Option<Seq<char>>,
    text: Seq<char>,
    depth: nat,
)
    requires
        rich_content_at(content, html, depth) == Some(text),
    ensures
        fingerprint_at("rich_text"@, content, html, depth) == Some(joined(words(text), " "@)),
{
    law_one_line_is_the_words(text);
}

// ---------------------------------------------------------------------------
// Rich text

/// The plain flavor of rich text without a header, office metadata and style definitions is kept in
/// a tidy layout.
pub proof fn law_plain_flavor_is_tidied(content: Seq<char>, depth: nat)
    requires
        !has_cf_header(tidy_layout(content)),
        !has_metadata(tidy_layout(content)),
        !is_office_style(one_line(tidy_layout(content))),
        !tidy_layout(content).contains('\r'),
    ensures
        sanitized_at(content, depth) == Some(tidy_layout(content)),
{
    let n = tidy_layout(content);
    law_tidy_layout_twice(content);
    law_plain_text_without_header(n, depth);
    law_unified_stays(n);
}

/// Where the markup of an entry shows a text and the plain flavor is no callout, the text of the
/// entry is what the markup shows; but the plain flavor, with its own layout, where that is no
/// markup and no noise and has the same words.
pub proof fn law_rich_text_is_what_its_markup_shows(
    content: Seq<char>,
    html: Seq<char>,
    plain: Seq<char>,
    sanitized: Seq<char>,
    text: Seq<char>,
    depth: nat,
)
    requires
        plain_text_at(content, depth) == Some(plain),
        sanitized_at(content, depth) == Some(sanitized),
        !is_callout(sanitized),
        html_text_at(html, depth) == Some(text),
        text.len() > 0,
    ensures
        plain.len() == 0 ==> rich_content_at(content, Some(html), depth) == Some(text),
        plain.len() > 0 && looks_html_at(plain, depth) == Some(true) ==> rich_content_at(
            content,
            Some(html),
            depth,
        ) == Some(text),
        plain.len() > 0 && looks_html_at(plain, depth) is Some && words(plain) != words(text)
            ==> rich_content_at(content, Some(html), depth) == Some(text),
        plain.len() > 0 && looks_html_at(plain, depth) is Some && is_office_style(one_line(plain))
            ==> rich_content_at(content, Some(html), depth) == Some(text),
        plain.len() > 0 && looks_html_at(plain, depth) == Some(false) && words(plain) == words(text)
            && !is_office_style(one_line(plain)) ==> rich_content_at(content, Some(html), depth)
            == Some(plain),
{
    law_same_line_same_words(plain, text);
}

/// A callout is kept as it stands, whatever the markup beside it shows.
pub proof fn law_callouts_are_kept(
    content: Seq<char>,
    html: Option<Seq<char>>,
    sanitized: Seq<char>,
    depth: nat,
)
    requires
        plain_text_at(content, depth) is Some,
        sanitized_at(content, depth) == Some(sanitized),
        is_callout(sanitized),
    ensures
        rich_content_at(content, html, depth) == Some(sanitized),
{
}

/// Without markup beside it, or beside markup that shows nothing, content that is no markup is the
/// text of the entry; content that is markup is the text that it shows, where it shows any.
pub proof fn law_rich_text_without_markup(
    content: Seq<char>,
    html: Option<Seq<char>>,
    sanitized: Seq<char>,
    depth: nat,
)
    requires
        plain_text_at(content, depth) is Some,
        sanitized_at(content, depth) == Some(sanitized),
        !is_callout(sanitized),
        html matches Some(h) ==> html_text_at(h, depth) == Some(Seq::<char>::empty()),
    ensures
        looks_html_at(content, depth) == Some(false) ==> rich_content_at(content, html, depth)
            == Some(sanitized),
        looks_html_at(content, depth) == Some(true) ==> (html_text_at(content, depth) matches Some(
            text,
        ) ==> rich_content_at(content, html, depth) == Some(
            if text.len() > 0 {
                text
            } else {
                sanitized
            },
        )),
{
}

/// A callout is known by its first line that is not blank.
pub proof fn law_callout_line_is_the_first_filled_one(ls: Seq<Seq<char>>, k: int)
    requires
        0 <= k < ls.len(),
        forall|i: int| 0 <= i < k ==> trimmed(#[trigger] ls[i]).len() == 0,
        trimmed(ls[k]).len() > 0,
    ensures
        first_filled(ls) == trimmed(ls[k]),
    decreases k,
{
    if k > 0 {
        let rest = ls.drop_first();
        assert forall|i: int| 0 <= i < k - 1 implies trimmed(#[trigger] rest[i]).len() == 0 by {
            assert(rest[i] == ls[i + 1]);
        }
        assert(rest[k - 1] == ls[k]);
        assert(trimmed(ls[0]).len() == 0);
        law_callout_line_is_the_first_filled_one(rest, k - 1);
    }
}

// ---------------------------------------------------------------------------
// Markup in plain text

/// A program is known to format text by any of twelve names, in its own name or in its path,
/// whatever the case.
pub proof fn law_formatting_programs_are_known(app: Seq<char>, path: Seq<char>, known: Seq<char>)
    requires
        known == "wps"@ || known == "winword"@ || known == "word"@ || known == "excel"@ || known
            == "powerpoint"@ || known == "onenote"@ || known == "outlook"@ || known == "soffice"@
            || known == "libreoffice"@ || known == "writer"@ || known == "calc"@ || known
            == "impress"@,
    ensures
        occurs(lowered(app), known) ==> is_formatting_app(app, None) && is_formatting_app(
            app,
            Some(path),
        ),
        occurs(lowered(path), known) ==> is_formatting_app(app, Some(path)),
{
    let gap = " "@;
    let e = Seq::<char>::empty();
    let whole = lowered(app) + gap + lowered(path);
    if occurs(lowered(app), known) {
        let i = choose|i: int| occurs_at(lowered(app), known, i);
        assert(whole.subrange(i, i + known.len()) == lowered(app).subrange(i, i + known.len()));
        assert(occurs_at(whole, known, i));
        if app.len() == 0 {
            lemma_known_is_not_empty(known);
        }
    }
    if occurs(lowered(path), known) {
        let i = choose|i: int| occurs_at(lowered(path), known, i);
        let k = lowered(app).len() + gap.len() + i;
        assert(whole.subrange(k, k + known.len()) == lowered(path).subrange(i, i + known.len()));
        assert(occurs_at(whole, known, k));
    }
}

/// The names that programs are known by are not empty.
proof fn lemma_known_is_not_empty(known: Seq<char>)
    requires
        known == "wps"@ || known == "winword"@ || known == "word"@ || known == "excel"@ || known
            == "powerpoint"@ || known == "onenote"@ || known == "outlook"@ || known == "soffice"@
            || known == "libreoffice"@ || known == "writer"@ || known == "calc"@ || known
            == "impress"@,
    ensures
        known.len() > 0,
{
    reveal_strlit("wps");
    reveal_strlit("winword");
    reveal_strlit("word");
    reveal_strlit("excel");
    reveal_strlit("powerpoint");
    reveal_strlit("onenote");
    reveal_strlit("outlook");
    reveal_strlit("soffice");
    reveal_strlit("libreoffice");
    reveal_strlit("writer");
    reveal_strlit("calc");
    reveal_strlit("impress");
}

/// Markup in plain text that shows a text is kept where one of the signs of rich text stands in it,
/// whatever program it comes from; and where it comes from a program that formats text and has other
/// words than it shows.
pub proof fn law_markup_in_plain_text_is_kept(
    text: Seq<char>,
    app: Seq<char>,
    path: Option<Seq<char>>,
    html: Seq<char>,
    shown: Seq<char>,
    mark: Seq<char>,
    depth: nat,
)
    requires
        trimmed(text).len() > 0,
        cf_offsets_fit(encode_utf8(trimmed(text))),
        cf_html(encode_utf8(trimmed(text))) == Some(html),
        html_text_at(html, depth) == Some(shown),
        shown.len() > 0,
        mark == "<!--startfragment-->"@ || mark == "<!--endfragment-->"@ || mark == "<html"@ || mark
            == "<body"@ || mark == "<meta"@ || mark == "<style"@ || mark == "mso-"@ || mark
            == "documentnotspecified"@ || mark == "microsoftinternetexplorer"@ || mark
            == "class=mso"@ || mark == "class=\"mso"@ || mark == "cellpadding="@ || mark
            == "cellspacing="@,
    ensures
        occurs(lowered(trimmed(text)), mark) ==> inferred_html_at(text, app, path, depth) == Some(
            Some(html),
        ),
        is_formatting_app(app, path) && words(trimmed(text)) != words(shown) ==> inferred_html_at(
            text,
            app,
            path,
            depth,
        ) == Some(Some(html)),
{
    law_same_line_same_words(trimmed(text), shown);
}

/// Plain text is left alone where no markup stands in it, where its markup shows nothing, and where
/// it has no sign of rich text and comes from a program that does not format text or shows the words
/// that it has.
pub proof fn law_plain_text_without_rich_markup_is_left_alone(
    text: Seq<char>,
    app: Seq<char>,
    path: Option<Seq<char>>,
    depth: nat,
)
    requires
        cf_offsets_fit(encode_utf8(trimmed(text))),
    ensures
        trimmed(text).len() == 0 || cf_html(encode_utf8(trimmed(text))) is None
            ==> inferred_html_at(text, app, path, depth) == Some(None::<Seq<char>>),
        cf_html(encode_utf8(trimmed(text))) matches Some(html) && html_text_at(html, depth)
            == Some(Seq::<char>::empty()) ==> inferred_html_at(text, app, path, depth) == Some(
            None::<Seq<char>>,
        ),
        cf_html(encode_utf8(trimmed(text))) matches Some(html) && html_text_at(
            html,
            depth,
        ) matches Some(shown) && (!is_formatting_app(app, path) || words(trimmed(text)) == words(
            shown,
        )) && !occurs(lowered(trimmed(text)), "<"@) && !occurs(lowered(trimmed(text)), "mso"@)
            && !occurs(lowered(trimmed(text)), "documentnotspecified"@) && !occurs(
            lowered(trimmed(text)),
            "microsoftinternetexplorer"@,
        ) && !occurs(lowered(trimmed(text)), "cell"@) ==> inferred_html_at(text, app, path, depth)
            == Some(None::<Seq<char>>),
{
    let l = lowered(trimmed(text));
    if cf_html(encode_utf8(trimmed(text))) is Some {
        let html = cf_html(encode_utf8(trimmed(text)))->0;
        if html_text_at(html, depth) is Some {
            law_same_line_same_words(trimmed(text), html_text_at(html, depth)->0);
        }
    }
    if !occurs(l, "<"@) && !occurs(l, "mso"@) && !occurs(l, "cell"@) {
        lemma_no_signs(l);
    }
}

/// A text without what every sign of rich text holds has none of the signs.
proof fn lemma_no_signs(l: Seq<char>)
    requires
        !occurs(l, "<"@),
        !occurs(l, "mso"@),
        !occurs(l, "cell"@),
    ensures
        !occurs(l, "<!--startfragment-->"@),
        !occurs(l, "<!--endfragment-->"@),
        !occurs(l, "<html"@),
        !occurs(l, "<body"@),
        !occurs(l, "<meta"@),
        !occurs(l, "<style"@),
        !occurs(l, "mso-"@),
        !occurs(l, "class=mso"@),
        !occurs(l, "class=\"mso"@),
        !occurs(l, "cellpadding="@),
        !occurs(l, "cellspacing="@),
{
    reveal_strlit("<");
    reveal_strlit("mso");
    reveal_strlit("cell");
    reveal_strlit("<!--startfragment-->");
    reveal_strlit("<!--endfragment-->");
    reveal_strlit("<html");
    reveal_strlit("<body");
    reveal_strlit("<meta");
    reveal_strlit("<style");
    reveal_strlit("mso-");
    reveal_strlit("class=mso");
    reveal_strlit("class=\"mso");
    reveal_strlit("cellpadding=");
    reveal_strlit("cellspacing=");
    lemma_part_missing(l, "<"@, "<!--startfragment-->"@, 0);
    lemma_part_missing(l, "<"@, "<!--endfragment-->"@, 0);
    lemma_part_missing(l, "<"@, "<html"@, 0);
    lemma_part_missing(l, "<"@, "<body"@, 0);
    lemma_part_missing(l, "<"@, "<meta"@, 0);
    lemma_part_missing(l, "<"@, "<style"@, 0);
    lemma_part_missing(l, "mso"@, "mso-"@, 0);
    lemma_part_missing(l, "mso"@, "class=mso"@, 6);
    lemma_part_missing(l, "mso"@, "class=\"mso"@, 7);
    lemma_part_missing(l, "cell"@, "cellpadding="@, 0);
    lemma_part_missing(l, "cell"@, "cellspacing="@, 0);
}

/// What holds a part that does not stand in a text does not stand in it either.
proof fn lemma_part_missing(l: Seq<char>, part: Seq<char>, whole: Seq<char>, k: int)
    requires
        !occurs(l, part),
        0 <= k,
        k + part.len() <= whole.len(),
        whole.subrange(k, k + part.len()) =~= part,
    ensures
        !occurs(l, whole),
{
    if occurs(l, whole) {
        let i = choose|i: int| occurs_at(l, whole, i);
        assert(l.subrange(i + k, i + k + part.len()) == l.subrange(
            i,
            i + whole.len(),
        ).subrange(k, k + part.len()));
        assert(occurs_at(l, part, i + k));
    }
}

/// A text is a callout by its first line that is not blank, without white space at its ends; a text
/// of blank lines is judged as nothing is.
pub proof fn law_callout_is_known_by_its_line(s: Seq<char>, k: int)
    requires
        !s.contains('\r'),
        0 <= k <= line_list(s).len(),
        forall|i: int| 0 <= i < k ==> trimmed(#[trigger] line_list(s)[i]).len() == 0,
        k < line_list(s).len() ==> trimmed(line_list(s)[k]).len() > 0,
    ensures
        is_callout(s) == pattern_found(
            r"(?i)^>\s*\[\![a-z0-9_-]+\](?:[+-])?(?:\s+.+)?$"@,
            if k < line_list(s).len() {
                trimmed(line_list(s)[k])
            } else {
                seq![]
            },
        ),
{
    law_unified_stays(s);
    if k < line_list(s).len() {
        law_callout_line_is_the_first_filled_one(line_list(s), k);
    } else {
        lemma_nothing_filled(line_list(s));
    }
}

/// Among blank lines none is filled.
proof fn lemma_nothing_filled(ls: Seq<Seq<char>>)
    requires
        forall|i: int| 0 <= i < ls.len() ==> trimmed(#[trigger] ls[i]).len() == 0,
    ensures
        first_filled(ls) == Seq::<char>::empty(),
    decreases ls.len(),
{
    if ls.len() > 0 {
        let t = ls.drop_first();
        assert(trimmed(ls[0]).len() == 0);
        assert forall|i: int| 0 <= i < t.len() implies trimmed(#[trigger] t[i]).len() == 0 by {
            assert(t[i] == ls[i + 1]);
        }
        lemma_nothing_filled(t);
    }
}

/// The plain flavor of rich text is its text in a tidy layout, also where it has a header; where that
/// text reads like style definitions the flavor is empty.
pub proof fn law_plain_flavor_is_its_text(content: Seq<char>, text: Seq<char>, depth: nat)
    requires
        tidy_layout(content).len() > 0,
        plain_text_at(tidy_layout(content), depth) == Some(text),
        !has_metadata(text),
    ensures
        !is_office_style(one_line(text)) ==> sanitized_at(content, depth) == Some(text),
        is_office_style(one_line(text)) ==> sanitized_at(content, depth) == Some(
            Seq::<char>::empty(),
        ),
{
    law_tidy_layout_twice(content);
}

/// A blank text has an empty plain flavor.
pub proof fn law_plain_flavor_of_nothing(content: Seq<char>, depth: nat)
    requires
        tidy_layout(content).len() == 0,
    ensures
        sanitized_at(content, depth) == Some(Seq::<char>::empty()),
{
    assert(tidy_layout(content) == Seq::<char>::empty());
}

/// What holds no space and stands in two texts with a space between them stands in one of them.
proof fn lemma_stands_in_one(a: Seq<char>, b: Seq<char>, p: Seq<char>)
    requires
        occurs(a + " "@ + b, p),
        p.len() > 0,
        !p.contains(' '),
    ensures
        occurs(a, p) || occurs(b, p),
{
    reveal_strlit(" ");
    let s = a + " "@ + b;
    let n = p.len() as int;
    let j = choose|j: int| occurs_at(s, p, j);
    if j + n <= a.len() {
        assert(a.subrange(j, j + n) == s.subrange(j, j + n));
        assert(occurs_at(a, p, j));
    } else if j > a.len() {
        let i = j - a.len() - 1;
        assert(b.subrange(i, i + n) == s.subrange(j, j + n));
        assert(occurs_at(b, p, i));
    } else {
        assert(s.subrange(j, j + n)[a.len() - j] == ' ');
        assert(p.contains(p[a.len() - j]));
    }
}

/// A program is no formatting program where none of the twelve names stands in its name or in its
/// path.
pub proof fn law_other_programs_format_nothing(app: Seq<char>, path: Seq<char>)
    requires
        !occurs(lowered(app), "wps"@) && !occurs(lowered(path), "wps"@),
        !occurs(lowered(app), "winword"@) && !occurs(lowered(path), "winword"@),
        !occurs(lowered(app), "word"@) && !occurs(lowered(path), "word"@),
        !occurs(lowered(app), "excel"@) && !occurs(lowered(path), "excel"@),
        !occurs(lowered(app), "powerpoint"@) && !occurs(lowered(path), "powerpoint"@),
        !occurs(lowered(app), "onenote"@) && !occurs(lowered(path), "onenote"@),
        !occurs(lowered(app), "outlook"@) && !occurs(lowered(path), "outlook"@),
        !occurs(lowered(app), "soffice"@) && !occurs(lowered(path), "soffice"@),
        !occurs(lowered(app), "libreoffice"@) && !occurs(lowered(path), "libreoffice"@),
        !occurs(lowered(app), "writer"@) && !occurs(lowered(path), "writer"@),
        !occurs(lowered(app), "calc"@) && !occurs(lowered(path), "calc"@),
        !occurs(lowered(app), "impress"@) && !occurs(lowered(path), "impress"@),
    ensures
        !is_formatting_app(app, None),
        !is_formatting_app(app, Some(path)),
{
    reveal_strlit("wps");
    reveal_strlit("winword");
    reveal_strlit("word");
    reveal_strlit("excel");
    reveal_strlit("powerpoint");
    reveal_strlit("onenote");
    reveal_strlit("outlook");
    reveal_strlit("soffice");
    reveal_strlit("libreoffice");
    reveal_strlit("writer");
    reveal_strlit("calc");
    reveal_strlit("impress");
    let a = lowered(app);
    let b = lowered(path);
    let whole = a + " "@ + b;
    if occurs(whole, "wps"@) {
        lemma_stands_in_one(a, b, "wps"@);
    }
    if occurs(whole, "winword"@) {
        lemma_stands_in_one(a, b, "winword"@);
    }
    if occurs(whole, "word"@) {
        lemma_stands_in_one(a, b, "word"@);
    }
    if occurs(whole, "excel"@) {
        lemma_stands_in_one(a, b, "excel"@);
    }
    if occurs(whole, "powerpoint"@) {
        lemma_stands_in_one(a, b, "powerpoint"@);
    }
    if occurs(whole, "onenote"@) {
        lemma_stands_in_one(a, b, "onenote"@);
    }
    if occurs(whole, "outlook"@) {
        lemma_stands_in_one(a, b, "outlook"@);
    }
    if occurs(whole, "soffice"@) {
        lemma_stands_in_one(a, b, "soffice"@);
    }
    if occurs(whole, "libreoffice"@) {
        lemma_stands_in_one(a, b, "libreoffice"@);
    }
    if occurs(whole, "writer"@) {
        lemma_stands_in_one(a, b, "writer"@);
    }
    if occurs(whole, "calc"@) {
        lemma_stands_in_one(a, b, "calc"@);
    }
    if occurs(whole, "impress"@) {
        lemma_stands_in_one(a, b, "impress"@);
    }
}

/// Markup in plain text is left alone where none of the thirteen signs of rich text stands in the
/// text, unless it comes from a formatting program and shows other words.
pub proof fn law_markup_without_signs_is_left_alone(
    text: Seq<char>,
    app: Seq<char>,
    path: Option<Seq<char>>,
    html: Seq<char>,
    shown: Seq<char>,
    depth: nat,
)
    requires
        cf_offsets_fit(encode_utf8(trimmed(text))),
        cf_html(encode_utf8(trimmed(text))) == Some(html),
        html_text_at(html, depth) == Some(shown),
        !is_formatting_app(app, path) || words(trimmed(text)) == words(shown),
        !occurs(lowered(trimmed(text)), "<!--startfragment-->"@),
        !occurs(lowered(trimmed(text)), "<!--endfragment-->"@),
        !occurs(lowered(trimmed(text)), "<html"@),
        !occurs(lowered(trimmed(text)), "<body"@),
        !occurs(lowered(trimmed(text)), "<meta"@),
        !occurs(lowered(trimmed(text)), "<style"@),
        !occurs(lowered(trimmed(text)), "mso-"@),
        !occurs(lowered(trimmed(text)), "documentnotspecified"@),
        !occurs(lowered(trimmed(text)), "microsoftinternetexplorer"@),
        !occurs(lowered(trimmed(text)), "class=mso"@),
        !occurs(lowered(trimmed(text)), "class=\"mso"@),
        !occurs(lowered(trimmed(text)), "cellpadding="@),
        !occurs(lowered(trimmed(text)), "cellspacing="@),
    ensures
        inferred_html_at(text, app, path, depth) == Some(None::<Seq<char>>),
{
    law_same_line_same_words(trimmed(text), shown);
}

} // verus!
