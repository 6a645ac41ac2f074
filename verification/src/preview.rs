//! Shortened entries for the list that the user sees.

use vstd::prelude::*;

use crate::cf_html::{
    has_cf_header, law_edges_make_no_header, law_header_whatever_white_space,
    law_no_header_in_a_part, law_repaired_adds_a_bracket_at_most, repair_html_fragment, repaired,
};
use crate::markers::{
    attach_rich_image_fallback, attach_rich_named_formats, bytes_opt, format_views,
    formats_attached, formats_json, formats_split, image_split, law_found_image_can_be_attached,
    law_image_behind_bracket, law_image_behind_leading_formats, law_image_fallback_before_formats,
    law_image_fallback_beside_formats, law_image_fallback_round_trip,
    law_image_whatever_white_space, law_named_formats_round_trip,
    law_restored_formats_can_be_stored, restored, split_rich_html_and_image_fallback,
    split_rich_html_and_named_formats, storable, stored_opt, with_formats, with_image,
    NamedClipboardFormat, StoredNamedClipboardFormat, RICH_IMAGE_FALLBACK_PREFIX,
    RICH_NAMED_FORMATS_PREFIX,
};
use crate::plain_text::{
    law_markup_without_header_is_answered, noise_stripped_at, strip_office_preview_noise,
    FULL_DEPTH,
};
use crate::rich_text::answer;
use crate::text::{
    at_most, char_count, contains, find_in, first_from, first_of, is_blank, join2, join3, last_of,
    lemma_first_from, lemma_last_upto, lemma_trimmed_parts, lowered, occurs, occurs_at, piece,
    rfind_in, same, starts_with, string_opt, take_chars, to_chars, to_lower, trim, trimmed,
};

verus! {

/// How many characters of markup are shown as they are.
pub const HTML_PREVIEW_MAX_CHARS: usize = 5000;

/// How many rows of a table a preview shows.
pub const HTML_PREVIEW_MAX_ROWS: usize = 10;

/// What stands behind markup that was cut.
pub const HTML_TRUNCATION_SUFFIX: &'static str = "... [HTML Truncated]";

/// How many characters of text are shown.
pub const CONTENT_MAX_CHARS: usize = 2000;

/// What stands behind text that was cut.
pub const CONTENT_TRUNCATION_SUFFIX: &'static str = "... [Truncated for speed]";

/// What begins a table around rows that have lost theirs.
pub const TABLE_OPENING: &'static str =
    "<table style=\"border-collapse: collapse; min-width: 100%;\">";

/// What ends a table.
pub const TABLE_CLOSING: &'static str = "</table>";

// ---------------------------------------------------------------------------
// Tables

/// Where the first table or row begins in the small-letter markup `l`.
pub open spec fn table_start(l: Seq<char>) -> Option<int> {
    match (first_of(l, "<table"@), first_of(l, "<tr"@)) {
        (Some(t), Some(r)) => Some(
            if t <= r {
                t
            } else {
                r
            },
        ),
        (Some(t), None) => Some(t),
        (None, Some(r)) => Some(r),
        (None, None) => None,
    }
}

/// Where the row that closes first behind `from` ends: behind the closing tag.
pub open spec fn row_end(l: Seq<char>, from: int) -> Option<int> {
    match first_from(l, "</tr"@, from) {
        Some(i) => match first_from(l, ">"@, i) {
            Some(k) => Some(k + 1),
            None => Some(i + 4),
        },
        None => None,
    }
}

/// Where the last of the next `n` rows behind `from` ends; `from` where there is none.
pub open spec fn rows_end(l: Seq<char>, from: int, n: nat) -> int
    decreases n,
{
    if n == 0 {
        from
    } else {
        match row_end(l, from) {
            Some(e) => rows_end(l, e, (n - 1) as nat),
            None => from,
        }
    }
}

/// The first rows of the table markup `s`, as a table that is closed. Markup without a row that
/// closes is kept.
pub open spec fn table_cut(s: Seq<char>) -> Seq<char> {
    let l = lowered(s);
    let end = rows_end(l, 0, HTML_PREVIEW_MAX_ROWS as nat);
    let rows = s.take(end);
    if end == 0 {
        s
    } else if "<tr"@.is_prefix_of(l) {
        TABLE_OPENING@ + rows + TABLE_CLOSING@
    } else if "<table"@.is_prefix_of(l) && !occurs(lowered(rows), "</table"@) {
        rows + TABLE_CLOSING@
    } else {
        rows
    }
}

/// The first characters of the markup `s`, up to the end of the last tag among them.
pub open spec fn markup_cut(s: Seq<char>) -> Seq<char> {
    let head = at_most(s, HTML_PREVIEW_MAX_CHARS as int);
    match last_of(head, ">"@) {
        Some(i) => head.take(i + 1) + HTML_TRUNCATION_SUFFIX@,
        None => head + HTML_TRUNCATION_SUFFIX@,
    }
}

/// What a preview shows of the markup `s`: all of it where it is short, else the first rows of its
/// first table, else its beginning.
pub open spec fn preview_body(s: Seq<char>) -> Seq<char> {
    let t = trimmed(s);
    if s.len() <= HTML_PREVIEW_MAX_CHARS {
        s
    } else {
        match table_start(lowered(t)) {
            Some(i) => table_cut(t.skip(i)),
            None => markup_cut(t),
        }
    }
}

/// A row ends behind where it is looked for, inside the markup.
proof fn lemma_row_end(l: Seq<char>, from: int)
    requires
        0 <= from,
    ensures
        row_end(l, from) matches Some(e) ==> from < e <= l.len(),
{
    reveal_strlit("</tr");
    reveal_strlit(">");
    lemma_first_from(l, "</tr"@, from);
    if let Some(i) = first_from(l, "</tr"@, from) {
        lemma_first_from(l, ">"@, i);
    }
}

/// Finds where the row that closes first behind `from` ends.
fn find_row_end(lower: &Vec<char>, from: usize) -> (r: Option<usize>)
    requires
        from <= lower@.len(),
    ensures
        crate::text::position(r) == row_end(lower@, from as int),
        r matches Some(e) ==> from < e <= lower@.len(),
{
    proof {
        reveal_strlit("</tr");
        reveal_strlit(">");
        lemma_row_end(lower@, from as int);
        lemma_first_from(lower@, "</tr"@, from as int);
    }
    let closing = to_chars("</tr");
    let bracket = to_chars(">");
    match find_in(lower, &closing, from) {
        Some(i) => {
            proof {
                lemma_first_from(lower@, ">"@, i as int);
            }
            match find_in(lower, &bracket, i) {
                Some(k) => {
                    assert(k + 1 <= lower.len());
                    Some(k + 1)
                },
                None => {
                    assert(i + 4 <= lower.len());
                    Some(i + 4)
                },
            }
        },
        None => None,
    }
}

/// Cuts table markup behind its first rows.
fn cut_table(markup: &str) -> (r: String)
    ensures
        r@ == table_cut(markup@),
{
    let lower = to_lower(markup);
    let low = to_chars(&lower);
    let mut end: usize = 0;
    let mut rows: usize = 0;
    let ghost goal = rows_end(low@, 0, HTML_PREVIEW_MAX_ROWS as nat);
    while rows < HTML_PREVIEW_MAX_ROWS
        invariant_except_break
            goal == rows_end(low@, end as int, (HTML_PREVIEW_MAX_ROWS - rows) as nat),
        invariant
            end <= low@.len(),
            rows <= HTML_PREVIEW_MAX_ROWS,
        ensures
            goal == end,
        decreases HTML_PREVIEW_MAX_ROWS - rows,
    {
        match find_row_end(&low, end) {
            Some(e) => {
                end = e;
                rows = rows + 1;
            },
            None => {
                break;
            },
        }
    }
    if end == 0 {
        return markup.to_owned();
    }
    let v = to_chars(markup);
    let out = piece(&v, 0, end);
    if starts_with(&lower, "<tr") {
        join3(TABLE_OPENING, &out, TABLE_CLOSING)
    } else if starts_with(&lower, "<table") && !contains(&to_lower(&out), "</table") {
        join2(&out, TABLE_CLOSING)
    } else {
        out
    }
}

/// Cuts markup behind the last tag that ends among its first characters.
fn cut_markup(markup: &str) -> (r: String)
    ensures
        r@ == markup_cut(markup@),
{
    let head = take_chars(markup, HTML_PREVIEW_MAX_CHARS);
    let v = to_chars(&head);
    let bracket = to_chars(">");
    proof {
        reveal_strlit(">");
        lemma_last_upto(v@, ">"@, v@.len() as int);
    }
    match rfind_in(&v, &bracket) {
        Some(i) => join2(&piece(&v, 0, i + 1), HTML_TRUNCATION_SUFFIX),
        None => join2(&head, HTML_TRUNCATION_SUFFIX),
    }
}

/// Finds where the first table or row begins.
fn find_table_start(lower: &Vec<char>) -> (r: Option<usize>)
    ensures
        crate::text::position(r) == table_start(lower@),
        r matches Some(i) ==> i <= lower@.len(),
{
    let table = to_chars("<table");
    let row = to_chars("<tr");
    proof {
        lemma_first_from(lower@, "<table"@, 0);
        lemma_first_from(lower@, "<tr"@, 0);
    }
    match (find_in(lower, &table, 0), find_in(lower, &row, 0)) {
        (Some(t), Some(r)) => if t <= r {
            Some(t)
        } else {
            Some(r)
        },
        (Some(t), None) => Some(t),
        (None, Some(r)) => Some(r),
        (None, None) => None,
    }
}

/// Cuts markup to what a preview shows.
pub fn cut_body(markup: String) -> (r: String)
    ensures
        r@ == preview_body(markup@),
{
    if char_count(&markup) <= HTML_PREVIEW_MAX_CHARS {
        return markup;
    }
    let trimmed = trim(&markup);
    let lower = to_chars(&to_lower(&trimmed));
    match find_table_start(&lower) {
        Some(i) => {
            let v = to_chars(&trimmed);
            let n = v.len();
            let table = piece(&v, i, n);
            assert(table@ == trimmed@.skip(i as int));
            cut_table(&table)
        },
        None => cut_markup(&trimmed),
    }
}

// ---------------------------------------------------------------------------
// Markup

/// The preview `body` with the image and the other formats that the markup carried.
pub open spec fn metadata_reattached(
    body: Seq<char>,
    image: Option<Seq<char>>,
    formats: Seq<(Seq<char>, Seq<u8>)>,
    json: Option<Seq<u8>>,
) -> Seq<char> {
    let imaged = match image {
        Some(p) => with_image(body, p),
        None => body,
    };
    if formats.len() == 0 {
        imaged
    } else {
        formats_attached(imaged, formats, json)
    }
}

/// The image that `html` falls back on, once the other formats that its JSON text lists as `parsed`
/// are taken off.
pub open spec fn preview_image(
    html: Seq<char>,
    parsed: Option<Seq<(Seq<char>, Seq<char>)>>,
) -> Option<Seq<char>> {
    image_split(formats_split(repaired(html), parsed).0).1
}

/// The preview of the markup `html`, whose JSON text lists the stored formats `parsed`; `json` is
/// the JSON text of the formats that are attached again. There is none for blank markup. The outer
/// `None` stands for no answer.
pub open spec fn html_preview_at(
    html: Seq<char>,
    parsed: Option<Seq<(Seq<char>, Seq<char>)>>,
    json: Option<Seq<u8>>,
    depth: nat,
) -> Option<Option<Seq<char>>> {
    let r = repaired(html);
    let (unformatted, formats) = formats_split(r, parsed);
    let (clean, image) = image_split(unformatted);
    if trimmed(r).len() == 0 {
        Some(None)
    } else {
        match noise_stripped_at(clean, depth) {
            Some(shown) => {
                let source = if trimmed(shown).len() == 0 {
                    clean
                } else {
                    shown
                };
                Some(
                    Some(metadata_reattached(preview_body(repaired(source)), image, formats, json)),
                )
            },
            None => None,
        }
    }
}

/// The image `image` can be found in `s`.
pub open spec fn image_kept(s: Seq<char>, image: Seq<char>) -> bool {
    image_split(s).1 == Some(image)
}

/// The JSON text `json` of the other formats that `html` carries can be found in `s`, and behind
/// them the image that `html` falls back on.
pub open spec fn formats_kept(
    html: Seq<char>,
    parsed: Option<Seq<(Seq<char>, Seq<char>)>>,
    json: Option<Seq<u8>>,
    s: Seq<char>,
) -> bool {
    formats_split(repaired(html), parsed).1.len() > 0 && json is Some ==> formats_json(s) == json
        && (preview_image(html, parsed) matches Some(p) ==> image_behind_formats(s, p))
}

/// The image `image` can be found in `s` once the other formats are taken off.
pub open spec fn image_behind_formats(s: Seq<char>, image: Seq<char>) -> bool {
    forall|items: Seq<(Seq<char>, Seq<char>)>|
        image_split((#[trigger] formats_split(s, Some(items))).0).1 == Some(image)
}

/// Gives a preview the image and the other formats that the markup carried.
fn reattach_preview_metadata(
    body: String,
    image: &Option<String>,
    formats: &[NamedClipboardFormat],
    payload_json: &Option<Vec<u8>>,
    Ghost(source): Ghost<Seq<char>>,
) -> (r: String)
    requires
        string_opt(*image) == image_split(source).1,
        storable(format_views(formats@)) == format_views(formats@),
    ensures
        r@ == metadata_reattached(
            body@,
            string_opt(*image),
            format_views(formats@),
            bytes_opt(*payload_json),
        ),
        image matches Some(p) ==> image_kept(r@, p@),
        formats@.len() > 0 && payload_json is Some ==> formats_json(r@) == bytes_opt(*payload_json)
            && (image matches Some(p) ==> image_behind_formats(r@, p@)),
{
    let imaged = match image {
        Some(p) => {
            proof {
                law_found_image_can_be_attached(source);
                law_image_fallback_round_trip(body@, p@);
                law_image_fallback_beside_formats(body@, p@);
                if let Some(json) = bytes_opt(*payload_json) {
                    law_image_fallback_before_formats(body@, p@, json);
                }
            }
            attach_rich_image_fallback(&body, p)
        },
        None => body,
    };
    proof {
        if let Some(json) = bytes_opt(*payload_json) {
            law_named_formats_round_trip(imaged@, json, seq![]);
            assert forall|items: Seq<(Seq<char>, Seq<char>)>| #[trigger]
                formats_split(with_formats(imaged@, json), Some(items)) == (
                    trimmed(imaged@),
                    restored(items),
                ) by {
                law_named_formats_round_trip(imaged@, json, items);
            }
        }
    }
    if formats.len() == 0 {
        imaged
    } else {
        attach_rich_named_formats(&imaged, formats, payload_json)
    }
}

/// Shortens the markup `html`.
fn find_html_preview(
    html: &str,
    parsed: &Option<Vec<StoredNamedClipboardFormat>>,
    payload_json: &Option<Vec<u8>>,
) -> (r: Option<Option<String>>)
    ensures
        answer(r) == html_preview_at(
            html@,
            stored_opt(*parsed),
            bytes_opt(*payload_json),
            FULL_DEPTH as nat,
        ),
        r matches Some(Some(s)) ==> (preview_image(html@, stored_opt(*parsed)) matches Some(p)
            ==> image_kept(s@, p)),
        r matches Some(Some(s)) ==> formats_kept(
            html@,
            stored_opt(*parsed),
            bytes_opt(*payload_json),
            s@,
        ),
{
    let fixed = repair_html_fragment(html);
    if is_blank(&fixed) {
        return Some(None);
    }
    let (unformatted, formats) = split_rich_html_and_named_formats(&fixed, parsed);
    let (clean, image) = split_rich_html_and_image_fallback(&unformatted);
    let shown = strip_office_preview_noise(&clean)?;
    let source = if is_blank(&shown) {
        repair_html_fragment(&clean)
    } else {
        repair_html_fragment(&shown)
    };
    let body = cut_body(source);
    proof {
        if let Some(items) = stored_opt(*parsed) {
            law_restored_formats_can_be_stored(items);
        }
        assert(storable(Seq::<(Seq<char>, Seq<u8>)>::empty()) == Seq::<
            (Seq<char>, Seq<u8>),
        >::empty());
    }
    Some(
        Some(
            reattach_preview_metadata(body, &image, &formats, payload_json, Ghost(unformatted@)),
        ),
    )
}

/// Shortens the markup `html` for a preview. `parsed` is what the JSON text of the other formats in
/// the repaired markup lists; `payload_json` is the JSON text of the stored form of those formats.
/// An image to fall back on and the JSON text can be found in the preview again.
pub fn truncate_html_for_preview(
    html: &str,
    parsed: &Option<Vec<StoredNamedClipboardFormat>>,
    payload_json: &Option<Vec<u8>>,
) -> (r: Option<String>)
    requires
        html_preview_at(
            html@,
            stored_opt(*parsed),
            bytes_opt(*payload_json),
            FULL_DEPTH as nat,
        ) is Some,
    ensures
        Some(string_opt(r)) == html_preview_at(
            html@,
            stored_opt(*parsed),
            bytes_opt(*payload_json),
            FULL_DEPTH as nat,
        ),
        r matches Some(s) ==> (preview_image(html@, stored_opt(*parsed)) matches Some(p)
            ==> image_kept(s@, p)),
        r matches Some(s) ==> formats_kept(
            html@,
            stored_opt(*parsed),
            bytes_opt(*payload_json),
            s@,
        ),
{
    find_html_preview(html, parsed, payload_json).unwrap()
}

/// Shortens the markup `html` for a preview, or gives `None` where a text comes up again
/// behind its own header or the offsets of a header cut a character in two.
pub fn try_truncate_html_for_preview(
    html: &str,
    parsed: &Option<Vec<StoredNamedClipboardFormat>>,
    payload_json: &Option<Vec<u8>>,
) -> (r: Option<Option<String>>)
    ensures
        answer(r) == html_preview_at(
            html@,
            stored_opt(*parsed),
            bytes_opt(*payload_json),
            FULL_DEPTH as nat,
        ),
        r matches Some(Some(s)) ==> (preview_image(html@, stored_opt(*parsed)) matches Some(p)
            ==> image_kept(s@, p)),
        r matches Some(Some(s)) ==> formats_kept(
            html@,
            stored_opt(*parsed),
            bytes_opt(*payload_json),
            s@,
        ),
{
    if find_html_preview(html, parsed, payload_json).is_some() {
        Some(truncate_html_for_preview(html, parsed, payload_json))
    } else {
        None
    }
}

// ---------------------------------------------------------------------------
// Entries

/// The parts of a clipboard entry that a preview changes or goes by.
#[derive(Debug, PartialEq, Eq)]
pub struct ClipboardEntry {
    /// What kind of content it is.
    pub content_type: String,
    /// The text.
    pub content: String,
    /// The markup, if there is any.
    pub html_content: Option<String>,
}

/// Text of this kind is cut when it is long.
pub open spec fn is_text_type(t: Seq<char>) -> bool {
    t == "text"@ || t == "code"@ || t == "url"@ || t == "rich_text"@
}

/// What is shown of the text `content`.
pub open spec fn content_cut(content_type: Seq<char>, content: Seq<char>) -> Seq<char> {
    if is_text_type(content_type) && content.len() > CONTENT_MAX_CHARS {
        content.take(CONTENT_MAX_CHARS as int) + CONTENT_TRUNCATION_SUFFIX@
    } else {
        content
    }
}

/// What is shown of the markup of an entry.
pub open spec fn entry_html_at(
    html: Option<Seq<char>>,
    parsed: Option<Seq<(Seq<char>, Seq<char>)>>,
    json: Option<Seq<u8>>,
    depth: nat,
) -> Option<Option<Seq<char>>> {
    match html {
        Some(h) => if h.len() > HTML_PREVIEW_MAX_CHARS {
            html_preview_at(h, parsed, json, depth)
        } else {
            Some(Some(h))
        },
        None => Some(None),
    }
}

/// Shortens an entry.
fn find_entry_for_ui(
    entry: ClipboardEntry,
    parsed: &Option<Vec<StoredNamedClipboardFormat>>,
    payload_json: &Option<Vec<u8>>,
) -> (r: Option<ClipboardEntry>)
    ensures
        match entry_html_at(
            string_opt(entry.html_content),
            stored_opt(*parsed),
            bytes_opt(*payload_json),
            FULL_DEPTH as nat,
        ) {
            Some(html) => r matches Some(e) && e.content_type@ == entry.content_type@ && e.content@
                == content_cut(entry.content_type@, entry.content@) && string_opt(e.html_content)
                == html,
            None => r is None,
        },
{
    let ClipboardEntry { content_type, content, html_content } = entry;
    let is_text = same(&content_type, "text") || same(&content_type, "code") || same(
        &content_type,
        "url",
    ) || same(&content_type, "rich_text");
    let content = if is_text && char_count(&content) > CONTENT_MAX_CHARS {
        join2(&take_chars(&content, CONTENT_MAX_CHARS), CONTENT_TRUNCATION_SUFFIX)
    } else {
        content
    };
    let html_content = match html_content {
        Some(html) => if char_count(&html) > HTML_PREVIEW_MAX_CHARS {
            find_html_preview(&html, parsed, payload_json)?
        } else {
            Some(html)
        },
        None => None,
    };
    Some(ClipboardEntry { content_type, content, html_content })
}

/// Shortens an entry for the list that the user sees. `parsed` and `payload_json` are those of its
/// markup, as for the preview of markup.
pub fn truncate_entry_for_ui(
    entry: ClipboardEntry,
    parsed: &Option<Vec<StoredNamedClipboardFormat>>,
    payload_json: &Option<Vec<u8>>,
) -> (r: ClipboardEntry)
    requires
        entry_html_at(
            string_opt(entry.html_content),
            stored_opt(*parsed),
            bytes_opt(*payload_json),
            FULL_DEPTH as nat,
        ) is Some,
    ensures
        r.content_type@ == entry.content_type@,
        r.content@ == content_cut(entry.content_type@, entry.content@),
        Some(string_opt(r.html_content)) == entry_html_at(
            string_opt(entry.html_content),
            stored_opt(*parsed),
            bytes_opt(*payload_json),
            FULL_DEPTH as nat,
        ),
{
    find_entry_for_ui(entry, parsed, payload_json).unwrap()
}

/// Shortens an entry for the list that the user sees, or gives `None` where a text in its markup
/// comes up again behind its own header or the offsets of a header cut a character in two.
pub fn try_truncate_entry_for_ui(
    entry: ClipboardEntry,
    parsed: &Option<Vec<StoredNamedClipboardFormat>>,
    payload_json: &Option<Vec<u8>>,
) -> (r: Option<ClipboardEntry>)
    ensures
        match entry_html_at(
            string_opt(entry.html_content),
            stored_opt(*parsed),
            bytes_opt(*payload_json),
            FULL_DEPTH as nat,
        ) {
            Some(html) => r matches Some(e) && e.content_type@ == entry.content_type@ && e.content@
                == content_cut(entry.content_type@, entry.content@) && string_opt(e.html_content)
                == html,
            None => r is None,
        },
{
    if let Some(html) = &entry.html_content {
        if char_count(html) > HTML_PREVIEW_MAX_CHARS {
            if try_truncate_html_for_preview(html, parsed, payload_json).is_none() {
                return None;
            }
        }
    }
    Some(truncate_entry_for_ui(entry, parsed, payload_json))
}

// ---------------------------------------------------------------------------
// Laws

/// What stands in a part of a text stands in the text.
proof fn lemma_mark_in_whole(a: Seq<char>, s: Seq<char>, b: Seq<char>, mark: Seq<char>, i: int)
    requires
        occurs_at(s, mark, i),
    ensures
        occurs(a + s + b, mark),
{
    let j = a.len() + i;
    assert((a + s + b).subrange(j, j + mark.len()) == s.subrange(i, i + mark.len()));
    assert(occurs_at(a + s + b, mark, j));
}

/// The image that a preview keeps is found in it.
proof fn lemma_reattached_image(
    body: Seq<char>,
    source: Seq<char>,
    formats: Seq<(Seq<char>, Seq<u8>)>,
    json: Option<Seq<u8>>,
)
    requires
        image_split(source).1 is Some,
    ensures
        image_split(metadata_reattached(body, image_split(source).1, formats, json)).1
            == image_split(source).1,
{
    let p = image_split(source).1->0;
    law_found_image_can_be_attached(source);
    law_image_fallback_round_trip(body, p);
    if let Some(j) = json {
        law_image_fallback_before_formats(body, p, j);
    }
}

/// The image in repaired markup, and the markup without it, which has no header where the markup
/// that was repaired has none.
proof fn lemma_repaired_image(html: Seq<char>)
    requires
        image_split(html).1 is Some,
        !has_cf_header(image_split(html).0),
    ensures
        image_split(repaired(html)).1 == image_split(html).1,
        !has_cf_header(image_split(repaired(html)).0),
{
    let t = trimmed(html);
    law_image_whatever_white_space(html);
    law_repaired_adds_a_bracket_at_most(html);
    if repaired(html) != t {
        reveal_strlit("<");
        let rest = law_image_behind_bracket(t);
        let e = Seq::<char>::empty();
        law_header_whatever_white_space(rest);
        law_edges_make_no_header("<"@, rest, e);
        assert("<"@ + rest + e == "<"@ + rest);
        law_header_whatever_white_space("<"@ + rest);
    }
}

/// The image that markup falls back on is found in its preview, where the markup carries no other
/// formats and no header is left or made when the image is taken off.
pub proof fn law_preview_keeps_the_image(
    html: Seq<char>,
    parsed: Option<Seq<(Seq<char>, Seq<char>)>>,
    json: Option<Seq<u8>>,
    depth: nat,
)
    requires
        image_split(html).1 is Some,
        !has_cf_header(image_split(html).0),
        parsed is None || !occurs(html, RICH_NAMED_FORMATS_PREFIX@),
    ensures
        html_preview_at(html, parsed, json, depth) matches Some(Some(r)) && image_split(r).1
            == image_split(html).1,
{
    let mark = RICH_NAMED_FORMATS_PREFIX@;
    let r = repaired(html);
    lemma_repaired_image(html);
    law_repaired_adds_a_bracket_at_most(html);
    assert(trimmed(r).len() > 0) by {
        let (v, w) = lemma_trimmed_parts(r);
        reveal_strlit("<!--TIEZ_RICH_IMAGE:");
        lemma_last_upto(r, RICH_IMAGE_FALLBACK_PREFIX@, r.len() as int);
    }
    let (unformatted, formats) = formats_split(r, parsed);
    if unformatted != r {
        let items = parsed->0;
        lemma_last_upto(r, mark, r.len() as int);
        let k = last_of(r, mark)->0;
        let (v, w) = lemma_trimmed_parts(html);
        let t = trimmed(html);
        reveal_strlit("<");
        if r == t {
            lemma_mark_in_whole(v, t, w, mark, k);
        } else if k > 0 {
            assert(t.subrange(k - 1, k - 1 + mark.len()) == r.subrange(k, k + mark.len()));
            lemma_mark_in_whole(v, t, w, mark, k - 1);
        }
        let (a, rest) = law_image_behind_leading_formats(r, items);
        let e = Seq::<char>::empty();
        law_header_whatever_white_space(a + rest);
        assert(a + rest + e == a + rest);
        law_no_header_in_a_part(a, rest, e);
        law_header_whatever_white_space(rest);
    }
    let clean = image_split(unformatted).0;
    law_markup_without_header_is_answered(clean, depth);
    let shown = noise_stripped_at(clean, depth)->0;
    let source = if trimmed(shown).len() == 0 {
        clean
    } else {
        shown
    };
    lemma_reattached_image(preview_body(repaired(source)), unformatted, formats, json);
}

/// Markup that is no longer than a preview may be is shown whole.
pub proof fn law_short_markup_is_shown_whole(s: Seq<char>)
    requires
        s.len() <= HTML_PREVIEW_MAX_CHARS,
    ensures
        preview_body(s) == s,
{
}

/// Long markup without a table is cut to the length of a preview and says so at its end. Where the
/// part that is shown holds a tag, it ends with one.
pub proof fn law_long_markup_is_cut_behind_a_tag(s: Seq<char>)
    requires
        s.len() > HTML_PREVIEW_MAX_CHARS,
        table_start(lowered(trimmed(s))) is None,
    ensures
        ({
            let head = at_most(trimmed(s), HTML_PREVIEW_MAX_CHARS as int);
            let n = preview_body(s).len() - HTML_TRUNCATION_SUFFIX@.len();
            &&& 0 <= n <= head.len() <= HTML_PREVIEW_MAX_CHARS
            &&& preview_body(s) == head.take(n) + HTML_TRUNCATION_SUFFIX@
            &&& occurs(head, ">"@) ==> n > 0 && head[n - 1] == '>'
            &&& !occurs(head.skip(n), ">"@)
        }),
{
    reveal_strlit(">");
    let head = at_most(trimmed(s), HTML_PREVIEW_MAX_CHARS as int);
    lemma_last_upto(head, ">"@, head.len() as int);
    match last_of(head, ">"@) {
        Some(i) => {
            assert(head.subrange(i, i + 1)[0] == head[i]);
            let rest = head.skip(i + 1);
            if occurs(rest, ">"@) {
                let k = choose|k: int| occurs_at(rest, ">"@, k);
                assert(head.subrange(i + 1 + k, i + 2 + k) == rest.subrange(k, k + 1));
                assert(occurs_at(head, ">"@, i + 1 + k));
            }
        },
        None => {
            assert(head.take(head.len() as int) == head);
            let rest = head.skip(head.len() as int);
            if occurs(rest, ">"@) {
                let k = choose|k: int| occurs_at(rest, ">"@, k);
                assert(false);
            }
            if occurs(head, ">"@) {
                let k = choose|k: int| occurs_at(head, ">"@, k);
                assert(false);
            }
        },
    }
}

/// Text that is shown has 2000 characters at most, and behind them the note that it was cut.
pub proof fn law_shown_text_is_short(content_type: Seq<char>, content: Seq<char>)
    requires
        is_text_type(content_type),
    ensures
        content.len() <= CONTENT_MAX_CHARS ==> content_cut(content_type, content) == content,
        content.len() > CONTENT_MAX_CHARS ==> content_cut(content_type, content).len()
            == CONTENT_MAX_CHARS + CONTENT_TRUNCATION_SUFFIX@.len() && content_cut(
            content_type,
            content,
        ).take(CONTENT_MAX_CHARS as int) == content.take(CONTENT_MAX_CHARS as int),
{
    if content.len() > CONTENT_MAX_CHARS {
        let n = CONTENT_MAX_CHARS as int;
        assert((content.take(n) + CONTENT_TRUNCATION_SUFFIX@).take(n) == content.take(n));
    }
}

/// Where the rows of long table markup begin, it begins with a table or a row.
proof fn lemma_table_start(l: Seq<char>)
    requires
        table_start(l) is Some,
    ensures
        0 <= table_start(l)->0 <= l.len(),
        "<table"@.is_prefix_of(l.skip(table_start(l)->0)) || "<tr"@.is_prefix_of(
            l.skip(table_start(l)->0),
        ),
{
    reveal_strlit("<table");
    reveal_strlit("<tr");
    lemma_first_from(l, "<table"@, 0);
    lemma_first_from(l, "<tr"@, 0);
    let i = table_start(l)->0;
    if first_of(l, "<table"@) == Some(i) {
        assert(l.skip(i).subrange(0, 6) == l.subrange(i, i + 6));
    } else {
        assert(l.skip(i).subrange(0, 3) == l.subrange(i, i + 3));
    }
}

/// The rows of a table end behind the opening of the table.
proof fn lemma_rows_end(l: Seq<char>, from: int, n: nat)
    requires
        0 <= from <= l.len(),
    ensures
        from <= rows_end(l, from, n) <= l.len(),
    decreases n,
{
    if n > 0 {
        lemma_row_end(l, from);
        if let Some(e) = row_end(l, from) {
            lemma_rows_end(l, e, (n - 1) as nat);
        }
    }
}

/// A table that has lost nothing but its end is still a table: what is shown of long table markup
/// with a row that closes begins with a table, and ends with the end of one unless an end stands
/// among the rows.
pub proof fn law_cut_table_is_a_table(s: Seq<char>)
    requires
        s.len() > HTML_PREVIEW_MAX_CHARS,
        table_start(lowered(trimmed(s))) is Some,
        row_end(lowered(trimmed(s).skip(table_start(lowered(trimmed(s)))->0)), 0) is Some,
    ensures
        "<table"@.is_prefix_of(lowered(preview_body(s))),
        TABLE_CLOSING@.is_suffix_of(preview_body(s)) || occurs(lowered(preview_body(s)), "</table"@),
{
    let t = trimmed(s);
    let i = table_start(lowered(t))->0;
    let m = t.skip(i);
    let l = lowered(m);
    let n = HTML_PREVIEW_MAX_ROWS as nat;
    let end = rows_end(l, 0, n);
    lemma_table_start(lowered(t));
    assert(lowered(t).skip(i) == l);
    lemma_row_end(l, 0);
    let e = row_end(l, 0)->0;
    lemma_rows_end(l, e, (n - 1) as nat);
    assert(end == rows_end(l, e, (n - 1) as nat));
    let rows = m.take(end);
    let r = preview_body(s);
    assert(r == table_cut(m));
    if "<tr"@.is_prefix_of(l) {
        reveal_strlit("<table");
        reveal_strlit("<table style=\"border-collapse: collapse; min-width: 100%;\">");
        assert(lowered(r).subrange(0, 6) =~= "<table"@);
        assert(r.subrange(r.len() - TABLE_CLOSING@.len(), r.len() as int) == TABLE_CLOSING@);
    } else {
        assert(end >= 6) by {
            reveal_strlit("<table");
            reveal_strlit("</tr");
            reveal_strlit(">");
            lemma_first_from(l, "</tr"@, 0);
            let k = first_from(l, "</tr"@, 0)->0;
            lemma_first_from(l, ">"@, k);
            assert(l.subrange(k, k + 4)[1] == l[k + 1]);
            assert(l.subrange(k, k + 4)[0] == l[k]);
            assert forall|j: int| 0 <= j < 6 implies #[trigger] l[j] == "<table"@[j] by {
                assert(l.subrange(0, 6)[j] == l[j]);
            }
        }
        reveal_strlit("<table");
        assert(lowered(rows).subrange(0, 6) == l.subrange(0, 6));
        if occurs(lowered(rows), "</table"@) {
            assert(r == rows);
        } else {
            assert(r == rows + TABLE_CLOSING@);
            assert(lowered(r).subrange(0, 6) == lowered(rows).subrange(0, 6));
            assert(r.subrange(r.len() - TABLE_CLOSING@.len(), r.len() as int) == TABLE_CLOSING@);
        }
    }
}

// ---------------------------------------------------------------------------
// Counting

/// How many times `p` stands in `s`.
pub open spec fn times(s: Seq<char>, p: Seq<char>) -> nat
    decreases s.len(),
{
    if s.len() == 0 {
        0
    } else {
        (if occurs_at(s, p, 0) {
            1nat
        } else {
            0nat
        }) + times(s.drop_first(), p)
    }
}

/// What stands nowhere in a text stands in it no time.
proof fn lemma_no_times(s: Seq<char>, p: Seq<char>)
    requires
        forall|j: int| 0 <= j < s.len() ==> !occurs_at(s, p, j),
    ensures
        times(s, p) == 0,
    decreases s.len(),
{
    if s.len() > 0 {
        let t = s.drop_first();
        assert forall|j: int| 0 <= j < t.len() implies !occurs_at(t, p, j) by {
            if occurs_at(t, p, j) {
                assert(s.subrange(j + 1, j + 1 + p.len()) == t.subrange(j, j + p.len()));
                assert(occurs_at(s, p, j + 1));
            }
        }
        lemma_no_times(t, p);
    }
}

/// Where nothing stands across a cut, what stands in a text stands in one of the two parts.
proof fn lemma_times_apart(a: Seq<char>, b: Seq<char>, p: Seq<char>)
    requires
        p.len() > 0,
        forall|j: int| 0 <= j < a.len() && a.len() < j + p.len() ==> !occurs_at(a + b, p, j),
    ensures
        times(a + b, p) == times(a, p) + times(b, p),
    decreases a.len(),
{
    let s = a + b;
    if a.len() == 0 {
        assert(s == b);
    } else {
        let t = a.drop_first();
        assert(s.drop_first() == t + b);
        assert forall|j: int| 0 <= j < t.len() && t.len() < j + p.len() implies !occurs_at(
            t + b,
            p,
            j,
        ) by {
            if occurs_at(t + b, p, j) {
                assert(s.subrange(j + 1, j + 1 + p.len()) == (t + b).subrange(j, j + p.len()));
                assert(occurs_at(s, p, j + 1));
            }
        }
        lemma_times_apart(t, b, p);
        if p.len() <= a.len() {
            assert(s.subrange(0, p.len() as int) == a.subrange(0, p.len() as int));
        } else {
            assert(!occurs_at(s, p, 0));
        }
    }
}

/// Every closing tag of a row ends before the next one begins.
pub open spec fn rows_are_apart(l: Seq<char>) -> bool {
    forall|i: int, j: int| #[trigger]
        occurs_at(l, "</tr"@, i) && #[trigger] occurs_at(l, "</tr"@, j) && i < j ==> exists|k: int|
            i < k < j && #[trigger] l[k] == '>'
}

/// A row whose closing tag begins at `i` ends at `e`: behind the bracket of the tag, or behind its
/// name where it has none.
pub open spec fn ends_row(l: Seq<char>, i: int, e: int) -> bool {
    &&& occurs_at(l, "</tr"@, i)
    &&& i + 4 <= e <= l.len()
    &&& l[e - 1] == '>' || e == i + 4
    &&& forall|k: int| i <= k < e - 1 ==> #[trigger] l[k] != '>'
}

/// The end of a row: no closing tag of a row stands across it, one ends before it, and it lies
/// behind a bracket or at the end of the tag.
proof fn lemma_one_row(l: Seq<char>, from: int)
    requires
        0 <= from <= l.len(),
        rows_are_apart(l),
    ensures
        match row_end(l, from) {
            Some(e) => {
                &&& from < e <= l.len()
                &&& l[e - 1] == '>' || l[e - 1] == 'r'
                &&& forall|j: int| from <= j < e && e < j + 4 ==> !occurs_at(l, "</tr"@, j)
                &&& exists|i: int| ends_row(l, i, e)
                &&& exists|i: int|
                    from <= i && i + 4 <= e && occurs_at(l, "</tr"@, i) && forall|j: int|
                        from <= j < e && j != i ==> !occurs_at(l, "</tr"@, j)
            },
            None => forall|j: int| from <= j ==> !occurs_at(l, "</tr"@, j),
        },
{
    reveal_strlit("</tr");
    reveal_strlit(">");
    let p = "</tr"@;
    lemma_first_from(l, p, from);
    if let Some(i) = first_from(l, p, from) {
        lemma_first_from(l, ">"@, i);
        let e = row_end(l, from)->0;
        assert(l.subrange(i, i + 4)[3] == l[i + 3]);
        if let Some(k) = first_from(l, ">"@, i) {
            assert(l.subrange(k, k + 1)[0] == l[k]);
            assert forall|x: int| i <= x < i + 4 implies l[x] != '>' by {
                assert(l.subrange(i, i + 4)[x - i] == l[x]);
            }
        }
        assert(ends_row(l, i, e)) by {
            assert forall|k: int| i <= k < e - 1 implies #[trigger] l[k] != '>' by {
                if l[k] == '>' {
                    assert(l.subrange(k, k + 1) =~= ">"@);
                    assert(occurs_at(l, ">"@, k));
                }
            }
        }
        assert forall|j: int| i < j < e implies !occurs_at(l, p, j) by {
            if occurs_at(l, p, j) {
                let x = choose|x: int| i < x < j && #[trigger] l[x] == '>';
                assert(l.subrange(x, x + 1) =~= ">"@);
                assert(occurs_at(l, ">"@, x));
            }
        }
    }
}

/// The rows that end before `rows_end` are the first ones, as many as were asked for or all.
proof fn lemma_rows_counted(l: Seq<char>, from: int, n: nat)
    requires
        0 <= from <= l.len(),
        rows_are_apart(l),
    ensures
        from <= rows_end(l, from, n) <= l.len(),
        times(l.subrange(from, rows_end(l, from, n)), "</tr"@) == (if times(l.skip(from), "</tr"@)
            <= n {
            times(l.skip(from), "</tr"@)
        } else {
            n
        }),
        rows_end(l, from, n) > from ==> l[rows_end(l, from, n) - 1] == '>' || l[rows_end(
            l,
            from,
            n,
        ) - 1] == 'r',
        rows_end(l, from, n) > from ==> exists|i: int| ends_row(l, i, rows_end(l, from, n)),
    decreases n,
{
    let p = "</tr"@;
    let end = rows_end(l, from, n);
    reveal_strlit("</tr");
    lemma_one_row(l, from);
    if n == 0 || row_end(l, from) is None {
        assert(l.subrange(from, from) == Seq::<char>::empty());
        if row_end(l, from) is None {
            let t = l.skip(from);
            assert forall|j: int| 0 <= j < t.len() implies !occurs_at(t, p, j) by {
                if occurs_at(t, p, j) {
                    assert(l.subrange(from + j, from + j + 4) == t.subrange(j, j + 4));
                    assert(occurs_at(l, p, from + j));
                }
            }
            lemma_no_times(t, p);
        }
    } else {
        let e = row_end(l, from)->0;
        lemma_rows_counted(l, e, (n - 1) as nat);
        let one = l.subrange(from, e);
        lemma_one_time(l, from, e);
        assert(l.skip(from) == one + l.skip(e));
        assert forall|j: int| 0 <= j < one.len() && one.len() < j + 4 implies !occurs_at(
            one + l.skip(e),
            p,
            j,
        ) by {
            if occurs_at(one + l.skip(e), p, j) {
                assert(l.subrange(from + j, from + j + 4) == l.skip(from).subrange(j, j + 4));
                assert(occurs_at(l, p, from + j));
            }
        }
        lemma_times_apart(one, l.skip(e), p);
        let more = l.subrange(e, end);
        assert(l.subrange(from, end) == one + more);
        assert forall|j: int| 0 <= j < one.len() && one.len() < j + 4 implies !occurs_at(
            one + more,
            p,
            j,
        ) by {
            if occurs_at(one + more, p, j) {
                assert(l.subrange(from + j, from + j + 4) == (one + more).subrange(j, j + 4));
                assert(occurs_at(l, p, from + j));
            }
        }
        lemma_times_apart(one, more, p);
    }
}

/// One closing tag of a row stands between the end of the row before and its own.
proof fn lemma_one_time(l: Seq<char>, from: int, e: int)
    requires
        0 <= from < e <= l.len(),
        exists|i: int|
            from <= i && i + 4 <= e && occurs_at(l, "</tr"@, i) && forall|j: int|
                from <= j < e && j != i ==> !occurs_at(l, "</tr"@, j),
    ensures
        times(l.subrange(from, e), "</tr"@) == 1,
    decreases e - from,
{
    reveal_strlit("</tr");
    let p = "</tr"@;
    let i = choose|i: int|
        from <= i && i + 4 <= e && occurs_at(l, p, i) && forall|j: int|
            from <= j < e && j != i ==> !occurs_at(l, p, j);
    let t = l.subrange(from, e);
    let rest = l.subrange(from + 1, e);
    assert(t.drop_first() == rest);
    if i == from {
        assert(t.subrange(0, 4) == l.subrange(from, from + 4));
        assert forall|j: int| 0 <= j < rest.len() implies !occurs_at(rest, p, j) by {
            if occurs_at(rest, p, j) {
                assert(l.subrange(from + 1 + j, from + 5 + j) == rest.subrange(j, j + 4));
                assert(occurs_at(l, p, from + 1 + j));
            }
        }
        lemma_no_times(rest, p);
    } else {
        if occurs_at(t, p, 0) {
            assert(l.subrange(from, from + 4) == t.subrange(0, 4));
            assert(occurs_at(l, p, from));
        }
        assert(occurs_at(l, p, i) && forall|j: int|
            from + 1 <= j < e && j != i ==> !occurs_at(l, p, j));
        lemma_one_time(l, from + 1, e);
    }
}

/// What is put around the rows of a table holds no closing tag of a row, and neither makes one.
proof fn lemma_times_around(rows: Seq<char>)
    requires
        rows.len() > 0 ==> rows.last() == '>' || rows.last() == 'r',
    ensures
        times(rows + lowered(TABLE_CLOSING@), "</tr"@) == times(rows, "</tr"@),
        times(lowered(TABLE_OPENING@) + (rows + lowered(TABLE_CLOSING@)), "</tr"@) == times(
            rows,
            "</tr"@,
        ),
{
    reveal_strlit("</tr");
    reveal_strlit("</table>");
    reveal_strlit("<table style=\"border-collapse: collapse; min-width: 100%;\">");
    let p = "</tr"@;
    let c = lowered(TABLE_CLOSING@);
    let o = lowered(TABLE_OPENING@);
    assert forall|j: int| 0 <= j < c.len() implies !occurs_at(c, p, j) by {
        if occurs_at(c, p, j) {
            assert(c.subrange(j, j + 4)[0] == c[j]);
            assert(c.subrange(j, j + 4)[3] == c[j + 3]);
        }
    }
    lemma_no_times(c, p);
    assert forall|j: int| 0 <= j < rows.len() && rows.len() < j + 4 implies !occurs_at(
        rows + c,
        p,
        j,
    ) by {
        if occurs_at(rows + c, p, j) {
            let x = rows.len() - 1 - j;
            assert((rows + c).subrange(j, j + 4)[x] == rows.last());
        }
    }
    lemma_times_apart(rows, c, p);
    let s = o + (rows + c);
    assert forall|j: int| 0 <= j < o.len() implies !occurs_at(s, p, j) && !occurs_at(o, p, j) by {
        if occurs_at(s, p, j) {
            assert(s.subrange(j, j + 4)[0] == o[j]);
            assert(s.subrange(j, j + 4)[1] == s[j + 1]);
            assert(s[1] == o[1]);
        }
        if occurs_at(o, p, j) {
            assert(o.subrange(j, j + 4)[0] == o[j]);
            assert(o.subrange(j, j + 4)[1] == o[j + 1]);
        }
    }
    lemma_no_times(o, p);
    lemma_times_apart(o, rows + c, p);
}

/// The table markup in a text begins with its first table or row.
pub proof fn law_table_begins_with_its_first_tag(s: Seq<char>)
    ensures
        match table_start(s) {
            Some(i) => (occurs_at(s, "<table"@, i) || occurs_at(s, "<tr"@, i)) && forall|j: int|
                0 <= j < i ==> !occurs_at(s, "<table"@, j) && !occurs_at(s, "<tr"@, j),
            None => !occurs(s, "<table"@) && !occurs(s, "<tr"@),
        },
{
    lemma_first_from(s, "<table"@, 0);
    lemma_first_from(s, "<tr"@, 0);
}

/// Of long markup with a table, the first ten rows of the table are shown, whatever cells they
/// hold, and all of them where there are fewer: as many closing tags of rows stand in what is shown.
/// The rows are the beginning of the table markup, up to the end of the last of them; a table is put around them where they have none,
/// and closed where it is not. Table markup without a row that closes is shown whole.
pub proof fn law_long_table_shows_its_first_rows(s: Seq<char>) -> (n: int)
    requires
        s.len() > 5000,
        table_start(lowered(trimmed(s))) is Some,
        rows_are_apart(lowered(trimmed(s).skip(table_start(lowered(trimmed(s)))->0))),
    ensures
        ({
            let m = trimmed(s).skip(table_start(lowered(trimmed(s)))->0);
            let rows = times(lowered(m), "</tr"@);
            let r = preview_body(s);
            &&& times(lowered(r), "</tr"@) == (if rows <= 10 {
                rows
            } else {
                10
            })
            &&& 0 <= n <= m.len()
            &&& r == m.take(n) || r == m.take(n) + "</table>"@ || r
                == "<table style=\"border-collapse: collapse; min-width: 100%;\">"@ + m.take(n)
                + "</table>"@
            &&& rows == 0 ==> r == m
            &&& rows > 0 ==> exists|i: int| ends_row(lowered(m), i, n)
        }),
{
    let t = trimmed(s);
    let i = table_start(lowered(t))->0;
    let m = t.skip(i);
    let l = lowered(m);
    let p = "</tr"@;
    lemma_table_start(lowered(t));
    assert(lowered(t).skip(i) == l);
    assert(l.skip(0) == l);
    lemma_rows_counted(l, 0, 10);
    let end = rows_end(l, 0, 10);
    let rows = m.take(end);
    let r = preview_body(s);
    assert(lowered(rows) == l.subrange(0, end));
    if end == 0 {
        lemma_one_row(l, 0);
        assert(times(l, p) == 0) by {
            assert(l.subrange(0, 0) == Seq::<char>::empty());
        }
        assert(m.take(m.len() as int) == m);
        m.len() as int
    } else {
        assert(lowered(rows).last() == l[end - 1]);
        lemma_times_around(lowered(rows));
        assert(lowered(rows + TABLE_CLOSING@) == lowered(rows) + lowered(TABLE_CLOSING@));
        assert(lowered(TABLE_OPENING@ + rows + TABLE_CLOSING@) == lowered(TABLE_OPENING@) + (lowered(
            rows,
        ) + lowered(TABLE_CLOSING@)));
        assert(times(l, p) > 0) by {
            if times(l, p) == 0 {
                lemma_one_row(l, 0);
                lemma_some_times(l);
            }
        }
        end
    }
}

/// What stands in a text stands in it some times.
proof fn lemma_some_times(l: Seq<char>)
    requires
        exists|i: int| 0 <= i && occurs_at(l, "</tr"@, i),
    ensures
        times(l, "</tr"@) > 0,
    decreases l.len(),
{
    reveal_strlit("</tr");
    let i = choose|i: int| 0 <= i && occurs_at(l, "</tr"@, i);
    if i > 0 {
        let t = l.drop_first();
        assert(t.subrange(i - 1, i + 3) == l.subrange(i, i + 4));
        assert(occurs_at(t, "</tr"@, i - 1));
        lemma_some_times(t);
    }
}

/// The preview of markup that carries neither an image nor other formats, and in which there is no
/// noise, is what is shown of that markup.
pub proof fn law_preview_of_clean_markup(html: Seq<char>, json: Option<Seq<u8>>, depth: nat)
    requires
        repaired(html) == html,
        html.len() > 0,
        image_split(html).1 is None,
        noise_stripped_at(html, depth) == Some(html),
    ensures
        html_preview_at(html, None, json, depth) == Some(Some(preview_body(html))),
        html.len() <= 5000 ==> html_preview_at(html, None, json, depth) == Some(Some(html)),
{
    law_repaired_adds_a_bracket_at_most(html);
}

/// What an entry shows: a text of more than 2000 characters is cut to these, for each of the four
/// kinds of text and for no other kind; markup of more than 5000 characters is made a preview, and
/// other markup stays.
pub proof fn law_entry_shows_what_is_short(
    content_type: Seq<char>,
    content: Seq<char>,
    html: Seq<char>,
    parsed: Option<Seq<(Seq<char>, Seq<char>)>>,
    json: Option<Seq<u8>>,
    depth: nat,
)
    ensures
        content.len() <= 2000 ==> content_cut(content_type, content) == content,
        content.len() > 2000 && (content_type == "text"@ || content_type == "code"@ || content_type
            == "url"@ || content_type == "rich_text"@) ==> content_cut(content_type, content)
            == content.take(2000) + "... [Truncated for speed]"@,
        content_type != "text"@ && content_type != "code"@ && content_type != "url"@ && content_type
            != "rich_text"@ ==> content_cut(content_type, content) == content,
        html.len() <= 5000 ==> entry_html_at(Some(html), parsed, json, depth) == Some(Some(html)),
        html.len() > 5000 ==> entry_html_at(Some(html), parsed, json, depth) == html_preview_at(
            html,
            parsed,
            json,
            depth,
        ),
{
}

/// The preview is made of what is shown of markup, and of the markup itself where nothing is shown;
/// blank markup has none.
pub proof fn law_preview_is_made_of_what_is_shown(
    html: Seq<char>,
    shown: Seq<char>,
    json: Option<Seq<u8>>,
    depth: nat,
)
    requires
        repaired(html) == html,
        image_split(html).1 is None,
        noise_stripped_at(html, depth) == Some(shown),
    ensures
        html.len() > 0 && trimmed(shown).len() > 0 ==> html_preview_at(html, None, json, depth)
            == Some(Some(preview_body(repaired(shown)))),
        html.len() > 0 && trimmed(shown).len() == 0 ==> html_preview_at(html, None, json, depth)
            == Some(Some(preview_body(html))),
        html.len() == 0 ==> html_preview_at(html, None, json, depth) == Some(None::<Seq<char>>),
{
    law_repaired_adds_a_bracket_at_most(html);
}

} // verus!
