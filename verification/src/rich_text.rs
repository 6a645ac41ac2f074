//! The text, the preview and the fingerprint of rich clipboard entries.

use vstd::prelude::*;
use vstd::utf8::encode_utf8;

use crate::cf_html::{cf_html, cf_offsets_fit, has_cf_header, offsets_fit, parse_cf_html};
use crate::chars::is_space;
use crate::layout::{
    collapse_preview_whitespace, is_spaced, is_tight, law_one_line_is_tight,
    law_one_line_whatever_line_endings, newlines_unified, normalize_plain_text_layout, one_line,
    tidy_layout, unify_newlines,
};
use crate::office::{is_office_style, is_office_style_definition_text};
use crate::plain_text::{
    extract_plain_text_from_htmlish, find_plain_text, html_text_at, law_plain_text_without_header,
    looks_html_at, looks_like_html_fragment, metadata_dropped_at, plain_text_at,
    strip_leading_office_metadata_text, FULL_DEPTH,
};
use crate::regexes::{found, pattern_found};
use crate::text::{
    char_count, contains, join2, line_list, lines, lowered, occurs, same, str_opt, string_opt,
    strings, take_chars, to_lower, trim, trimmed,
};

verus! {

/// The first line of a callout in Markdown notes.
pub const CALLOUT: &'static str = r"(?i)^>\s*\[\![a-z0-9_-]+\](?:[+-])?(?:\s+.+)?$";

/// How many characters a preview may have.
pub const TEXT_PREVIEW_MAX_CHARS: usize = 500;

/// How many characters of a longer text a preview shows.
pub const TEXT_PREVIEW_TRUNCATED_CHARS: usize = 497;

/// The preview of an image.
pub const IMAGE_PREVIEW: &'static str = "[Image Content]";

/// The preview of rich text that shows no text.
pub const RICH_TEXT_PREVIEW_FALLBACK: &'static str = "[Rich Text Content]";

// ---------------------------------------------------------------------------
// Signals

/// The first of the lines that is not blank, without white space at its ends.
pub open spec fn first_filled(ls: Seq<Seq<char>>) -> Seq<char>
    decreases ls.len(),
{
    if ls.len() == 0 {
        seq![]
    } else if trimmed(ls[0]).len() > 0 {
        trimmed(ls[0])
    } else {
        first_filled(ls.drop_first())
    }
}

/// `s` begins with a callout.
pub open spec fn is_callout(s: Seq<char>) -> bool {
    pattern_found(CALLOUT@, first_filled(line_list(newlines_unified(s))))
}

/// Tells whether `text` begins with a callout.
pub fn looks_like_obsidian_callout_markdown(text: &str) -> (r: bool)
    ensures
        r == is_callout(text@),
{
    let list = lines(&unify_newlines(text));
    let ghost all = strings(list@);
    assert(all.skip(0) == all);
    for i in 0..list.len()
        invariant
            all == strings(list@),
            all == line_list(newlines_unified(text@)),
            first_filled(all) == first_filled(all.skip(i as int)),
    {
        assert(all[i as int] == list@[i as int]@);
        assert(all.skip(i as int).drop_first() == all.skip(i + 1));
        let line = trim(&list[i]);
        if !line.as_str().is_empty() {
            return found(CALLOUT, &line);
        }
    }
    proof {
        reveal_strlit("");
    }
    assert(""@ == Seq::<char>::empty());
    found(CALLOUT, "")
}

/// What a program is looked up by: its name and its path, in small letters.
pub open spec fn app_key(app: Seq<char>, path: Option<Seq<char>>) -> Seq<char> {
    match path {
        Some(p) => if app.len() > 0 {
            lowered(app) + " "@ + lowered(p)
        } else {
            lowered(p)
        },
        None => lowered(app),
    }
}

/// The program is one that formats text.
pub open spec fn is_formatting_app(app: Seq<char>, path: Option<Seq<char>>) -> bool {
    let key = app_key(app, path);
    ||| occurs(key, "wps"@)
    ||| occurs(key, "winword"@)
    ||| occurs(key, "word"@)
    ||| occurs(key, "excel"@)
    ||| occurs(key, "powerpoint"@)
    ||| occurs(key, "onenote"@)
    ||| occurs(key, "outlook"@)
    ||| occurs(key, "soffice"@)
    ||| occurs(key, "libreoffice"@)
    ||| occurs(key, "writer"@)
    ||| occurs(key, "calc"@)
    ||| occurs(key, "impress"@)
}

/// Tells whether a program is one that formats text.
pub fn source_app_likely_formats_rich_text(source_app: &str, source_app_path: Option<&str>) -> (r:
    bool)
    ensures
        r == is_formatting_app(source_app@, str_opt(source_app_path)),
{
    let mut key = to_lower(source_app);
    if let Some(path) = source_app_path {
        if !key.as_str().is_empty() {
            key.append(" ");
            key.append(&to_lower(path));
        } else {
            key = to_lower(path);
        }
    }
    contains(&key, "wps") || contains(&key, "winword") || contains(&key, "word") || contains(
        &key,
        "excel",
    ) || contains(&key, "powerpoint") || contains(&key, "onenote") || contains(&key, "outlook")
        || contains(&key, "soffice") || contains(&key, "libreoffice") || contains(&key, "writer")
        || contains(&key, "calc") || contains(&key, "impress")
}

/// `s` holds what only the source of rich text holds.
pub open spec fn has_rich_signals(s: Seq<char>) -> bool {
    let l = lowered(s);
    ||| occurs(l, "<!--startfragment-->"@)
    ||| occurs(l, "<!--endfragment-->"@)
    ||| occurs(l, "<html"@)
    ||| occurs(l, "<body"@)
    ||| occurs(l, "<meta"@)
    ||| occurs(l, "<style"@)
    ||| occurs(l, "mso-"@)
    ||| occurs(l, "documentnotspecified"@)
    ||| occurs(l, "microsoftinternetexplorer"@)
    ||| occurs(l, "class=mso"@)
    ||| occurs(l, "class=\"mso"@)
    ||| occurs(l, "cellpadding="@)
    ||| occurs(l, "cellspacing="@)
}

/// Tells whether `text` holds what only the source of rich text holds.
pub fn plain_text_has_rich_html_signals(text: &str) -> (r: bool)
    ensures
        r == has_rich_signals(text@),
{
    let lower = to_lower(text);
    contains(&lower, "<!--startfragment-->") || contains(&lower, "<!--endfragment-->") || contains(
        &lower,
        "<html",
    ) || contains(&lower, "<body") || contains(&lower, "<meta") || contains(&lower, "<style")
        || contains(&lower, "mso-") || contains(&lower, "documentnotspecified") || contains(
        &lower,
        "microsoftinternetexplorer",
    ) || contains(&lower, "class=mso") || contains(&lower, "class=\"mso") || contains(
        &lower,
        "cellpadding=",
    ) || contains(&lower, "cellspacing=")
}

// ---------------------------------------------------------------------------
// Rich text

/// The tidy layout of `s` without a header and office metadata; empty where only style definitions
/// are left.
pub open spec fn sanitized_at(s: Seq<char>, depth: nat) -> Option<Seq<char>> {
    let n = tidy_layout(s);
    if n.len() == 0 {
        Some(n)
    } else {
        match metadata_dropped_at(n, depth) {
            Some(t) => Some(
                if is_office_style(one_line(t)) {
                    seq![]
                } else {
                    t
                },
            ),
            None => None,
        }
    }
}

/// Cleans the plain flavor of rich text. `None` where it has no plain text.
pub fn sanitize_rich_text_plain_text(text: &str) -> (r: Option<String>)
    ensures
        string_opt(r) == sanitized_at(text@, FULL_DEPTH as nat),
{
    let normalized = normalize_plain_text_layout(text);
    if normalized.as_str().is_empty() {
        return Some(normalized);
    }
    let stripped = strip_leading_office_metadata_text(&normalized)?;
    if is_office_style_definition_text(&collapse_preview_whitespace(&stripped)) {
        Some(String::new())
    } else {
        Some(stripped)
    }
}

/// Which of the plain flavor `plain` and the text `shown` of the markup is the content: the plain
/// flavor, where it is no markup and no noise and holds the same words.
pub open spec fn flavor_chosen(
    plain: Seq<char>,
    shown: Seq<char>,
    is_markup: bool,
    is_noise: bool,
) -> Seq<char> {
    if plain.len() > 0 && !is_markup && !is_noise && one_line(plain) == one_line(shown) {
        plain
    } else {
        shown
    }
}

/// Which of the plain flavor `plain` and the text `shown` of the markup is the content.
pub open spec fn flavor_chosen_at(plain: Seq<char>, shown: Seq<char>, depth: nat) -> Option<
    Seq<char>,
> {
    if plain.len() == 0 {
        Some(shown)
    } else {
        match looks_html_at(plain, depth) {
            Some(b) => Some(flavor_chosen(plain, shown, b, is_office_style(one_line(plain)))),
            None => None,
        }
    }
}

/// The content of rich text that has no usable markup beside it.
pub open spec fn bare_content_at(content: Seq<char>, sanitized: Seq<char>, depth: nat) -> Option<
    Seq<char>,
> {
    match looks_html_at(content, depth) {
        Some(b) => if b {
            match html_text_at(content, depth) {
                Some(t) => Some(
                    if t.len() > 0 {
                        t
                    } else {
                        sanitized
                    },
                ),
                None => None,
            }
        } else {
            Some(sanitized)
        },
        None => None,
    }
}

/// The text of a rich entry with the plain flavor `content` and the markup `html`.
pub open spec fn rich_content_at(
    content: Seq<char>,
    html: Option<Seq<char>>,
    depth: nat,
) -> Option<Seq<char>> {
    match (plain_text_at(content, depth), sanitized_at(content, depth)) {
        (Some(plain), Some(sanitized)) => if is_callout(sanitized) {
            Some(sanitized)
        } else {
            let shown = match html {
                Some(h) => html_text_at(h, depth),
                None => Some(seq![]),
            };
            match shown {
                Some(t) => if t.len() > 0 {
                    flavor_chosen_at(plain, t, depth)
                } else {
                    bare_content_at(content, sanitized, depth)
                },
                None => None,
            }
        },
        _ => None,
    }
}

/// Chooses between the plain flavor and the text of the markup.
pub fn choose_flavor(plain: String, shown: String, is_markup: bool, is_noise: bool) -> (r: String)
    ensures
        r@ == flavor_chosen(plain@, shown@, is_markup, is_noise),
{
    if !plain.as_str().is_empty() && !is_markup && !is_noise && same(
        &collapse_preview_whitespace(&plain),
        &collapse_preview_whitespace(&shown),
    ) {
        plain
    } else {
        shown
    }
}

/// Chooses between the plain flavor and the text of the markup.
fn find_flavor(plain: String, shown: String) -> (r: Option<String>)
    ensures
        string_opt(r) == flavor_chosen_at(plain@, shown@, FULL_DEPTH as nat),
{
    if plain.as_str().is_empty() {
        return Some(shown);
    }
    let is_markup = looks_like_html_fragment(&plain)?;
    let is_noise = is_office_style_definition_text(&collapse_preview_whitespace(&plain));
    Some(choose_flavor(plain, shown, is_markup, is_noise))
}

/// Finds the content of rich text that has no usable markup beside it.
fn find_bare_content(content: &str, sanitized: String) -> (r: Option<String>)
    ensures
        string_opt(r) == bare_content_at(content@, sanitized@, FULL_DEPTH as nat),
{
    if looks_like_html_fragment(content)? {
        let text = extract_plain_text_from_htmlish(content)?;
        if !text.as_str().is_empty() {
            return Some(text);
        }
    }
    Some(sanitized)
}

/// Finds the text of a rich entry.
fn find_rich_content(content: &str, html_content: Option<&str>) -> (r: Option<String>)
    ensures
        string_opt(r) == rich_content_at(content@, str_opt(html_content), FULL_DEPTH as nat),
{
    let plain = find_plain_text(content)?;
    let sanitized = sanitize_rich_text_plain_text(content)?;
    if looks_like_obsidian_callout_markdown(&sanitized) {
        return Some(sanitized);
    }
    let shown = match html_content {
        Some(html) => extract_plain_text_from_htmlish(html)?,
        None => String::new(),
    };
    if !shown.as_str().is_empty() {
        find_flavor(plain, shown)
    } else {
        find_bare_content(content, sanitized)
    }
}

/// The text of a rich entry with the plain flavor `content` and the markup `html_content`.
pub fn derive_rich_text_content(content: &str, html_content: Option<&str>) -> (r: String)
    requires
        rich_content_at(content@, str_opt(html_content), FULL_DEPTH as nat) is Some,
    ensures
        Some(r@) == rich_content_at(content@, str_opt(html_content), FULL_DEPTH as nat),
{
    find_rich_content(content, html_content).unwrap()
}

/// Finds the text of a rich entry, or gives `None` where a text comes up again behind its own
/// header or the offsets of a header cut a character in two.
pub fn try_derive_rich_text_content(content: &str, html_content: Option<&str>) -> (r: Option<
    String,
>)
    ensures
        string_opt(r) == rich_content_at(content@, str_opt(html_content), FULL_DEPTH as nat),
{
    if find_rich_content(content, html_content).is_some() {
        Some(derive_rich_text_content(content, html_content))
    } else {
        None
    }
}

// ---------------------------------------------------------------------------
// Markup in plain text

/// Markup in the plain text `text` of a program that shows the text `shown` is worth keeping: it
/// shows a text, and either it holds what only the source of rich text holds, or it comes from a
/// program that formats text and shows other words than it holds.
pub open spec fn is_worth_keeping(
    text: Seq<char>,
    shown: Seq<char>,
    app: Seq<char>,
    path: Option<Seq<char>>,
) -> bool {
    shown.len() > 0 && (has_rich_signals(text) || (is_formatting_app(app, path) && one_line(text)
        != one_line(shown)))
}

/// Tells whether markup in plain text is worth keeping.
pub fn markup_is_worth_keeping(
    text: &str,
    shown: &str,
    source_app: &str,
    source_app_path: Option<&str>,
) -> (r: bool)
    ensures
        r == is_worth_keeping(text@, shown@, source_app@, str_opt(source_app_path)),
{
    !shown.is_empty() && (plain_text_has_rich_html_signals(text) || (
    source_app_likely_formats_rich_text(source_app, source_app_path) && !same(
        &collapse_preview_whitespace(text),
        &collapse_preview_whitespace(shown),
    )))
}

/// The markup that the plain text `text` of a program carries, if it is worth keeping. The outer
/// `None` stands for no answer.
pub open spec fn inferred_html_at(
    text: Seq<char>,
    app: Seq<char>,
    path: Option<Seq<char>>,
    depth: nat,
) -> Option<Option<Seq<char>>> {
    let t = trimmed(text);
    if t.len() == 0 {
        Some(None)
    } else if !cf_offsets_fit(encode_utf8(t)) {
        None
    } else {
        match cf_html(encode_utf8(t)) {
            Some(html) => match html_text_at(html, depth) {
                Some(p) => Some(
                    if is_worth_keeping(t, p, app, path) {
                        Some(html)
                    } else {
                        None
                    },
                ),
                None => None,
            },
            None => Some(None),
        }
    }
}

/// The content of an answer that may be none.
pub open spec fn answer(r: Option<Option<String>>) -> Option<Option<Seq<char>>> {
    match r {
        Some(a) => Some(string_opt(a)),
        None => None,
    }
}

/// Finds the markup that plain text carries.
fn find_inferred_html(
    text: &str,
    source_app: &str,
    source_app_path: Option<&str>,
) -> (r: Option<Option<String>>)
    ensures
        answer(r) == inferred_html_at(
            text@,
            source_app@,
            str_opt(source_app_path),
            FULL_DEPTH as nat,
        ),
{
    let trimmed = trim(text);
    if trimmed.as_str().is_empty() {
        return Some(None);
    }
    if !offsets_fit(trimmed.as_str().as_bytes()) {
        return None;
    }
    match parse_cf_html(trimmed.as_str().as_bytes()) {
        Some(html) => {
            let plain = extract_plain_text_from_htmlish(&html)?;
            if markup_is_worth_keeping(&trimmed, &plain, source_app, source_app_path) {
                Some(Some(html))
            } else {
                Some(None)
            }
        },
        None => Some(None),
    }
}

/// The markup that the plain text `text` carries, if it is worth keeping.
pub fn infer_rich_html_from_plain_text(
    text: &str,
    source_app: &str,
    source_app_path: Option<&str>,
) -> (r: Option<String>)
    requires
        inferred_html_at(
            text@,
            source_app@,
            str_opt(source_app_path),
            FULL_DEPTH as nat,
        ) is Some,
    ensures
        Some(string_opt(r)) == inferred_html_at(
            text@,
            source_app@,
            str_opt(source_app_path),
            FULL_DEPTH as nat,
        ),
{
    find_inferred_html(text, source_app, source_app_path).unwrap()
}

/// Finds the markup that plain text carries, or gives `None` where a text comes up again behind its
/// own header or the offsets of a header cut a character in two.
pub fn try_infer_rich_html_from_plain_text(
    text: &str,
    source_app: &str,
    source_app_path: Option<&str>,
) -> (r: Option<Option<String>>)
    ensures
        answer(r) == inferred_html_at(
            text@,
            source_app@,
            str_opt(source_app_path),
            FULL_DEPTH as nat,
        ),
{
    if find_inferred_html(text, source_app, source_app_path).is_some() {
        Some(infer_rich_html_from_plain_text(text, source_app, source_app_path))
    } else {
        None
    }
}

// ---------------------------------------------------------------------------
// Fingerprints and previews

/// The words by which two text entries of a type are known to be the same; none for other entries.
pub open spec fn fingerprint_at(
    content_type: Seq<char>,
    content: Seq<char>,
    html: Option<Seq<char>>,
    depth: nat,
) -> Option<Seq<char>> {
    if content_type == "rich_text"@ {
        match rich_content_at(content, html, depth) {
            Some(t) => Some(one_line(t)),
            None => None,
        }
    } else if content_type == "text"@ || content_type == "code"@ || content_type == "url"@ {
        match plain_text_at(content, depth) {
            Some(t) => Some(one_line(t)),
            None => None,
        }
    } else {
        Some(seq![])
    }
}

/// Finds the fingerprint of an entry.
fn find_fingerprint(
    content_type: &str,
    content: &str,
    html_content: Option<&str>,
) -> (r: Option<String>)
    ensures
        string_opt(r) == fingerprint_at(
            content_type@,
            content@,
            str_opt(html_content),
            FULL_DEPTH as nat,
        ),
{
    if same(content_type, "rich_text") {
        let text = find_rich_content(content, html_content)?;
        Some(collapse_preview_whitespace(&text))
    } else if same(content_type, "text") || same(content_type, "code") || same(
        content_type,
        "url",
    ) {
        let text = find_plain_text(content)?;
        Some(collapse_preview_whitespace(&text))
    } else {
        Some(String::new())
    }
}

/// The words by which two text entries of a type are known to be the same.
pub fn build_clipboard_text_fingerprint(
    content_type: &str,
    content: &str,
    html_content: Option<&str>,
) -> (r: String)
    requires
        fingerprint_at(
            content_type@,
            content@,
            str_opt(html_content),
            FULL_DEPTH as nat,
        ) is Some,
    ensures
        Some(r@) == fingerprint_at(
            content_type@,
            content@,
            str_opt(html_content),
            FULL_DEPTH as nat,
        ),
{
    find_fingerprint(content_type, content, html_content).unwrap()
}

/// Finds the fingerprint of an entry, or gives `None` where a text comes up again behind its own
/// header or the offsets of a header cut a character in two.
pub fn try_build_clipboard_text_fingerprint(
    content_type: &str,
    content: &str,
    html_content: Option<&str>,
) -> (r: Option<String>)
    ensures
        string_opt(r) == fingerprint_at(
            content_type@,
            content@,
            str_opt(html_content),
            FULL_DEPTH as nat,
        ),
{
    if find_fingerprint(content_type, content, html_content).is_some() {
        Some(build_clipboard_text_fingerprint(content_type, content, html_content))
    } else {
        None
    }
}

/// `s` cut to the length of a preview: what is longer ends in three dots.
pub open spec fn preview_cut(s: Seq<char>) -> Seq<char> {
    if s.len() > TEXT_PREVIEW_MAX_CHARS {
        s.take(TEXT_PREVIEW_TRUNCATED_CHARS as int) + "..."@
    } else {
        s
    }
}

/// The preview of rich text with the text `clean`, before it is cut: its words, or a stand-in where
/// it has none, or where `bare` holds, without markup, and the words are the source itself.
pub open spec fn rich_preview(clean: Seq<char>, content: Seq<char>, bare: bool) -> Seq<char> {
    let preview = one_line(clean);
    if preview.len() == 0 || (bare && preview == one_line(content)) {
        RICH_TEXT_PREVIEW_FALLBACK@
    } else {
        preview
    }
}

/// The preview of rich text, before it is cut. Without markup beside it, the plain flavor is taken
/// for bare markup where it looks like that.
pub open spec fn rich_preview_at(
    content: Seq<char>,
    html: Option<Seq<char>>,
    depth: nat,
) -> Option<Seq<char>> {
    match rich_content_at(content, html, depth) {
        Some(clean) => if html is Some || one_line(clean).len() == 0 {
            Some(rich_preview(clean, content, false))
        } else {
            match looks_html_at(content, depth) {
                Some(b) => Some(rich_preview(clean, content, b)),
                None => None,
            }
        },
        None => None,
    }
}

/// The preview of an entry.
pub open spec fn entry_preview_at(
    content_type: Seq<char>,
    content: Seq<char>,
    html: Option<Seq<char>>,
    depth: nat,
) -> Option<Seq<char>> {
    if content_type == "image"@ {
        Some(IMAGE_PREVIEW@)
    } else if content_type == "rich_text"@ {
        match rich_preview_at(content, html, depth) {
            Some(p) => Some(preview_cut(p)),
            None => None,
        }
    } else {
        match plain_text_at(content, depth) {
            Some(t) => Some(preview_cut(one_line(t))),
            None => None,
        }
    }
}

/// Cuts `text` to the length of a preview.
pub fn cut_preview(text: String) -> (r: String)
    ensures
        r@ == preview_cut(text@),
{
    if char_count(&text) > TEXT_PREVIEW_MAX_CHARS {
        join2(&take_chars(&text, TEXT_PREVIEW_TRUNCATED_CHARS), "...")
    } else {
        text
    }
}

/// Chooses the preview of rich text, before it is cut.
pub fn choose_rich_preview(clean: &str, content: &str, bare: bool) -> (r: String)
    ensures
        r@ == rich_preview(clean@, content@, bare),
{
    let preview = collapse_preview_whitespace(clean);
    if preview.as_str().is_empty() || (bare && same(
        &preview,
        &collapse_preview_whitespace(content),
    )) {
        RICH_TEXT_PREVIEW_FALLBACK.to_owned()
    } else {
        preview
    }
}

/// Finds the preview of rich text, before it is cut.
fn find_rich_preview(content: &str, html_content: Option<&str>) -> (r: Option<String>)
    ensures
        string_opt(r) == rich_preview_at(content@, str_opt(html_content), FULL_DEPTH as nat),
{
    let clean = find_rich_content(content, html_content)?;
    if html_content.is_some() || collapse_preview_whitespace(&clean).as_str().is_empty() {
        return Some(choose_rich_preview(&clean, content, false));
    }
    let bare = looks_like_html_fragment(content)?;
    Some(choose_rich_preview(&clean, content, bare))
}

/// Finds the preview of an entry.
fn find_entry_preview(
    content_type: &str,
    content: &str,
    html_content: Option<&str>,
) -> (r: Option<String>)
    ensures
        string_opt(r) == entry_preview_at(
            content_type@,
            content@,
            str_opt(html_content),
            FULL_DEPTH as nat,
        ),
{
    if same(content_type, "image") {
        return Some(IMAGE_PREVIEW.to_owned());
    }
    let preview = if same(content_type, "rich_text") {
        find_rich_preview(content, html_content)?
    } else {
        let text = find_plain_text(content)?;
        collapse_preview_whitespace(&text)
    };
    Some(cut_preview(preview))
}

/// The preview of an entry: one line of at most 500 characters.
pub fn build_entry_preview(content_type: &str, content: &str, html_content: Option<&str>) -> (r:
    String)
    requires
        entry_preview_at(
            content_type@,
            content@,
            str_opt(html_content),
            FULL_DEPTH as nat,
        ) is Some,
    ensures
        Some(r@) == entry_preview_at(
            content_type@,
            content@,
            str_opt(html_content),
            FULL_DEPTH as nat,
        ),
{
    find_entry_preview(content_type, content, html_content).unwrap()
}

/// Finds the preview of an entry, or gives `None` where a text comes up again behind its own
/// header or the offsets of a header cut a character in two.
pub fn try_build_entry_preview(
    content_type: &str,
    content: &str,
    html_content: Option<&str>,
) -> (r: Option<String>)
    ensures
        string_opt(r) == entry_preview_at(
            content_type@,
            content@,
            str_opt(html_content),
            FULL_DEPTH as nat,
        ),
{
    if find_entry_preview(content_type, content, html_content).is_some() {
        Some(build_entry_preview(content_type, content, html_content))
    } else {
        None
    }
}

// ---------------------------------------------------------------------------
// Laws

/// Cutting a spaced text to the length of a preview leaves it spaced.
proof fn lemma_preview_cut(s: Seq<char>)
    requires
        is_spaced(s, false),
    ensures
        preview_cut(s).len() <= TEXT_PREVIEW_MAX_CHARS,
        is_spaced(preview_cut(s), false),
{
    if s.len() > TEXT_PREVIEW_MAX_CHARS {
        reveal_strlit("...");
        let p = preview_cut(s);
        let n = TEXT_PREVIEW_TRUNCATED_CHARS as int;
        assert forall|i: int| 0 <= i < p.len() && is_space(#[trigger] p[i]) implies p[i] == ' ' by {
            if i < n {
                assert(p[i] == s[i]);
            } else {
                assert(p[i] == '.');
            }
        }
        assert forall|i: int| 0 <= i < p.len() - 1 && is_space(#[trigger] p[i]) implies !is_space(
            p[i + 1],
        ) by {
            if i + 1 < n {
                assert(p[i] == s[i]);
                assert(p[i + 1] == s[i + 1]);
            } else {
                assert(p[i + 1] == '.');
            }
        }
    }
}

/// The stand-in for an image is spaced.
proof fn lemma_image_preview()
    ensures
        IMAGE_PREVIEW@.len() <= TEXT_PREVIEW_MAX_CHARS,
        is_spaced(IMAGE_PREVIEW@, false),
{
    reveal_strlit("[Image Content]");
}

/// The stand-in for rich text is spaced.
proof fn lemma_rich_preview()
    ensures
        is_spaced(RICH_TEXT_PREVIEW_FALLBACK@, false),
{
    reveal_strlit("[Rich Text Content]");
}

/// A preview has 500 characters at most and no white space but single spaces: it fits on one line.
pub proof fn law_preview_is_a_short_line(
    content_type: Seq<char>,
    content: Seq<char>,
    html: Option<Seq<char>>,
    depth: nat,
)
    ensures
        entry_preview_at(content_type, content, html, depth) matches Some(p) ==> p.len()
            <= TEXT_PREVIEW_MAX_CHARS && is_spaced(p, false),
{
    if content_type == "image"@ {
        lemma_image_preview();
    } else if content_type == "rich_text"@ {
        lemma_rich_preview();
        if let Some(whole) = rich_preview_at(content, html, depth) {
            law_one_line_is_tight(rich_content_at(content, html, depth)->0);
            lemma_preview_cut(whole);
        }
    } else if let Some(t) = plain_text_at(content, depth) {
        law_one_line_is_tight(t);
        lemma_preview_cut(one_line(t));
    }
}

/// The fingerprint of an entry holds words with single spaces between them.
pub proof fn law_fingerprint_is_tight(
    content_type: Seq<char>,
    content: Seq<char>,
    html: Option<Seq<char>>,
    depth: nat,
)
    ensures
        fingerprint_at(content_type, content, html, depth) matches Some(f) ==> is_tight(f),
{
    if content_type == "rich_text"@ {
        if let Some(t) = rich_content_at(content, html, depth) {
            law_one_line_is_tight(t);
        }
    } else if let Some(t) = plain_text_at(content, depth) {
        law_one_line_is_tight(t);
    }
}

/// The fingerprint of a text without the marks of a header is that text on one line, and so does
/// not depend on how its words are spaced or its lines end.
pub proof fn law_fingerprint_of_plain_text(
    content_type: Seq<char>,
    content: Seq<char>,
    html: Option<Seq<char>>,
    depth: nat,
)
    requires
        content_type == "text"@ || content_type == "code"@ || content_type == "url"@,
        !has_cf_header(content),
    ensures
        fingerprint_at(content_type, content, html, depth) == Some(one_line(content)),
{
    assert(content_type != "rich_text"@) by {
        reveal_strlit("rich_text");
        reveal_strlit("text");
        reveal_strlit("code");
        reveal_strlit("url");
        assert("rich_text"@.len() == 9);
    }
    law_plain_text_without_header(content, depth);
    law_one_line_whatever_line_endings(content);
}

/// The text of a rich entry has the words that its markup shows, where that shows any and the plain
/// flavor is no callout; and so has its fingerprint.
pub proof fn law_rich_content_has_the_words_of_its_markup(
    content: Seq<char>,
    html: Seq<char>,
    depth: nat,
)
    requires
        rich_content_at(content, Some(html), depth) is Some,
        html_text_at(html, depth) matches Some(t) && t.len() > 0,
        sanitized_at(content, depth) matches Some(p) && !is_callout(p),
    ensures
        one_line(rich_content_at(content, Some(html), depth)->0) == one_line(
            html_text_at(html, depth)->0,
        ),
        fingerprint_at("rich_text"@, content, Some(html), depth) == Some(
            one_line(html_text_at(html, depth)->0),
        ),
{
}

/// Markup that was found in plain text is what the text reads as in the `HTML Format` flavor.
pub proof fn law_inferred_markup_is_in_the_text(
    text: Seq<char>,
    app: Seq<char>,
    path: Option<Seq<char>>,
    depth: nat,
)
    ensures
        inferred_html_at(text, app, path, depth) matches Some(Some(html)) ==> cf_html(
            encode_utf8(trimmed(text)),
        ) == Some(html),
{
}

} // verus!
