use clipboard_utils::cf_html::{
    drop_header_lines, looks_like_cf_html_header_text, looks_like_html_fragment_shallow,
    offsets_fit, parse_cf_html, repair_html_fragment, restore_bracket,
};
use clipboard_utils::chars::{ascii_alnum, ascii_lower, digit, space};
use clipboard_utils::codecs::read_base64;
use clipboard_utils::layout::{
    collapse_line_whitespace, collapse_preview_whitespace, decode_basic_html_entities,
    normalize_plain_text_layout, unify_newlines,
};
use clipboard_utils::office::{
    blank_blocks, blank_office_blocks, drop_office_prefix, is_office_style_definition_text,
};
use clipboard_utils::plain_text::{
    extract_plain_text_from_htmlish, extract_renderable_html_region, looks_like_html_fragment,
    normalize_clipboard_plain_text, strip_leading_office_metadata_text, strip_office_preview_noise,
    try_normalize_clipboard_plain_text,
};
use clipboard_utils::regexes::{collapse_gaps, collapse_spaces, found, ranges, replace_matches};
use clipboard_utils::preview::cut_body;
use clipboard_utils::render::{remove_marks, render, render_tags};
use clipboard_utils::rich_text::{
    build_clipboard_text_fingerprint, build_entry_preview, choose_flavor, choose_rich_preview,
    cut_preview, derive_rich_text_content, looks_like_obsidian_callout_markdown,
    markup_is_worth_keeping, plain_text_has_rich_html_signals, sanitize_rich_text_plain_text,
    source_app_likely_formats_rich_text,
    try_build_clipboard_text_fingerprint, try_build_entry_preview, try_derive_rich_text_content,
    try_infer_rich_html_from_plain_text,
};
use clipboard_utils::text::{
    contains, ends_with, join, lines, parse_number, replace, rsplit_once, same_ignoring_case,
    slice_bytes, split_once, starts_with, take_before, take_chars, take_word, to_lower, trim,
    trim_end, trim_start, trim_start_char, trim_start_copies, trim_suffix,
};

/// A header that names itself: the range that it gives begins at its own start.
fn self_naming() -> String {
    let text = "<p>Version:0.9 StartHTML:0 EndHTML:00</p>";
    text.replace("EndHTML:00", &format!("EndHTML:{}", text.len()))
}

/// `text` behind `depth` headers, each of which gives the range of what stands behind it.
fn nested(text: &str, depth: usize) -> String {
    let mut out = text.to_string();
    for _ in 0..depth {
        let start = "Version:0.9\nStartHTML:00000000\nEndHTML:00000000\n".len();
        out = format!(
            "Version:0.9\nStartHTML:{:08}\nEndHTML:{:08}\n{}",
            start,
            start + out.len(),
            out
        );
    }
    out
}

/// The bytes of `text` in UTF-16, the lower byte first.
fn wide(text: &str) -> Vec<u8> {
    text.encode_utf16().flat_map(|unit| unit.to_le_bytes()).collect()
}

#[test]
fn characters_are_classed_as_in_std() {
    for n in 0..=0x10ffffu32 {
        if let Some(c) = char::from_u32(n) {
            assert_eq!(space(c), c.is_whitespace());
            assert_eq!(digit(c), c.is_ascii_digit());
            assert_eq!(ascii_alnum(c), c.is_ascii_alphanumeric());
            assert_eq!(ascii_lower(c), c.to_ascii_lowercase());
        }
    }
}

#[test]
fn texts_are_handled_as_in_std() {
    for s in ["", " ", "a", "\u{3000}ä b\t", "aXbXc", "XX", "ab\r\ncd\n\ne\r", "a\n", "\r\n", "aXXa"] {
        assert_eq!(trim(s), s.trim());
        assert_eq!(trim_start(s), s.trim_start());
        assert_eq!(trim_end(s), s.trim_end());
        assert_eq!(to_lower(s), s.to_ascii_lowercase());
        assert_eq!(lines(s), s.lines().map(|l| l.to_string()).collect::<Vec<_>>());
        assert_eq!(join(&lines(s), "\n"), s.lines().collect::<Vec<_>>().join("\n"));
        assert_eq!(take_word(s), s.split_whitespace().next().unwrap_or(""));
        assert_eq!(take_before(s, 'X'), s.split('X').next().unwrap_or(""));
        assert_eq!(trim_start_char(s, 'X'), s.trim_start_matches('X'));
        assert_eq!(take_chars(s, 2), s.chars().take(2).collect::<String>());
        for p in ["X", "XX", "a", "ab", "\n"] {
            assert_eq!(contains(s, p), s.contains(p));
            assert_eq!(starts_with(s, p), s.starts_with(p));
            assert_eq!(ends_with(s, p), s.ends_with(p));
            assert_eq!(replace(s, p, "--"), s.replace(p, "--"));
            assert_eq!(trim_start_copies(s, p), s.trim_start_matches(p));
            assert_eq!(trim_suffix(s, p), s.strip_suffix(p).unwrap_or(s));
            assert_eq!(
                split_once(s, p),
                s.split_once(p).map(|(a, b)| (a.to_string(), b.to_string()))
            );
            assert_eq!(
                rsplit_once(s, p),
                s.rsplit_once(p).map(|(a, b)| (a.to_string(), b.to_string()))
            );
            assert_eq!(same_ignoring_case(s, p), s.eq_ignore_ascii_case(p));
        }
    }
    assert_eq!(slice_bytes("aäb", 1, 3), "ä");
}

#[test]
fn numbers_are_read_as_in_std() {
    for s in ["", "0", "007", "12a", "1 2", "-1", "18446744073709551615", "18446744073709551616"] {
        assert_eq!(parse_number(s), s.parse::<usize>().ok());
    }
}

#[test]
fn white_space_collapses() {
    assert_eq!(collapse_spaces(" a \u{a0}\n b"), " a b");
    assert_eq!(collapse_gaps("a \t b\n  c"), "a b\n c");
    assert_eq!(collapse_line_whitespace("  a \t b "), "a b");
    assert_eq!(collapse_preview_whitespace(" a\r\n\r b\u{2003}c "), "a b c");
    assert_eq!(collapse_preview_whitespace("a b c"), "a b c");
    assert_eq!(unify_newlines("a\r\nb\rc\nd\r\r\n"), "a\nb\nc\nd\n\n");
}

#[test]
fn white_space_patterns_agree_with_the_tables() {
    for n in 0..=0x10ffffu32 {
        if let Some(c) = char::from_u32(n) {
            if c.is_whitespace() {
                let text = format!("a{}{}b", c, c);
                assert_eq!(collapse_spaces(&text), "a b");
                if c == '\r' || c == '\n' {
                    assert_eq!(collapse_gaps(&text), text);
                } else {
                    assert_eq!(collapse_gaps(&text), "a b");
                }
            }
        }
    }
    let mut rest = String::new();
    for n in 0..=0x10ffffu32 {
        if let Some(c) = char::from_u32(n) {
            if !c.is_whitespace() {
                rest.push(c);
            }
        }
    }
    assert_eq!(collapse_spaces(&rest), rest);
    assert_eq!(collapse_gaps(&rest), rest);
}

#[test]
fn layouts_are_tidied() {
    let messy = "\r\n  a  \t b\r\n\r\n \r\n\r\nc\n\n";
    assert_eq!(normalize_plain_text_layout(messy), "a b\n\nc");
    assert_eq!(normalize_plain_text_layout("a b\n\nc"), "a b\n\nc");
    assert_eq!(normalize_plain_text_layout(" \n "), "");
}

#[test]
fn entities_are_decoded_one_kind_after_the_other() {
    assert_eq!(
        decode_basic_html_entities("&lt;a&gt;&nbsp;&#160;&quot;&#34;&#39;&apos;"),
        "<a>  \"\"''"
    );
    assert_eq!(decode_basic_html_entities("&amp;lt;"), "<");
    assert_eq!(decode_basic_html_entities("no entities; here"), "no entities; here");
}

#[test]
fn patterns_that_do_not_compile_find_nothing() {
    assert!(!found("(", "("));
    assert_eq!(ranges("(", "("), Vec::new());
    assert_eq!(replace_matches("(", "a(b", "x"), "a(b");
    assert_eq!(ranges("ä+", "aäää ä"), vec![(1, 7), (8, 10)]);
    assert_eq!(replace_matches("b", "abc", "-"), "a-c");
}

#[test]
fn headers_are_known_by_their_marks() {
    assert!(looks_like_cf_html_header_text("VERSION:0.9"));
    assert!(looks_like_cf_html_header_text("StartHTML:1 StartFragment:2"));
    assert!(!looks_like_cf_html_header_text("StartHTML:1"));
    assert_eq!(drop_header_lines("Version:0.9\n\nSourceURL:x\n a\nVersion:1\n", false), "a\nVersion:1");
}

#[test]
fn markup_is_known_by_its_beginning() {
    assert!(looks_like_html_fragment_shallow("\u{feff} <p>"));
    assert!(looks_like_html_fragment_shallow("TABLE border=0>"));
    assert!(looks_like_html_fragment_shallow("x cellpadding=0 cellspacing=0"));
    assert!(!looks_like_html_fragment_shallow("tr"));
    assert!(!looks_like_html_fragment_shallow("td Version:0.9"));
}

#[test]
fn markup_is_repaired_once() {
    assert_eq!(repair_html_fragment(" td>a</td> "), "<td>a</td>");
    assert_eq!(repair_html_fragment("<td>a</td>"), "<td>a</td>");
    assert_eq!(repair_html_fragment("tdx>a"), "tdx>a");
    assert_eq!(repair_html_fragment("  "), "");
}

#[test]
fn nothing_is_read_from_no_bytes_and_no_markup() {
    assert_eq!(parse_cf_html(b""), None);
    assert_eq!(parse_cf_html(b"plain"), None);
}

#[test]
fn offsets_give_the_document_or_the_fragment() {
    let whole = b"Version:0.9 StartHTML:37 EndHTML:000045 <i>x</i> ";
    assert_eq!(parse_cf_html(whole).as_deref(), Some("45 <i>x<"));
    let fragment = b"StartFragment:42 EndFragment:0051         td>x</td>";
    assert_eq!(parse_cf_html(fragment).as_deref(), Some("<td>x</td>"));
}

#[test]
fn wide_text_is_read() {
    let text = "<!--StartFragment--><b>ä𝄞</b><!--EndFragment-->";
    let mut raw = vec![0xff, 0xfe];
    for unit in text.encode_utf16() {
        raw.extend_from_slice(&unit.to_le_bytes());
    }
    assert_eq!(parse_cf_html(&raw).as_deref(), Some("<b>ä𝄞</b>"));
    assert_eq!(parse_cf_html(&raw[2..]).as_deref(), Some("<b>ä𝄞</b>"));
    let lone = [0x3c, 0, 0x62, 0, 0x00, 0xd8, 0x3e, 0];
    assert_eq!(parse_cf_html(&lone).as_deref(), Some("<b\u{fffd}>"));
}

#[test]
fn ill_formed_text_is_read() {
    assert_eq!(parse_cf_html(b"<b>\xff</b>").as_deref(), Some("<b>\u{fffd}</b>"));
}

#[test]
fn offsets_that_cut_a_character_do_not_fit() {
    let text = "StartHTML:1 EndHTML:25 <p>ä</p>";
    assert_eq!(text.find('ä'), Some(26));
    assert!(offsets_fit(text.as_bytes()));
    let cut = "StartHTML:1 EndHTML:27 <p>ä</p>";
    assert!(!offsets_fit(cut.as_bytes()));
    let headed = format!("Version:0.9 {}", "StartHTML:1 EndHTML:39 <p>ä</p>");
    assert_eq!(headed.find('ä'), Some(38));
    assert_eq!(try_normalize_clipboard_plain_text(&headed), None);
    assert_eq!(try_build_entry_preview("text", &headed, None), None);
    assert_eq!(try_build_clipboard_text_fingerprint("text", &headed, None), None);
    assert_eq!(try_derive_rich_text_content(&headed, None), None);
    assert_eq!(try_infer_rich_html_from_plain_text(&headed, "", None), None);
}

#[test]
fn texts_that_name_themselves_have_no_plain_text() {
    let text = self_naming();
    assert!(offsets_fit(text.as_bytes()));
    assert_eq!(try_normalize_clipboard_plain_text(&text), None);
    assert_eq!(try_build_entry_preview("image", &text, None).as_deref(), Some("[Image Content]"));
    assert_eq!(try_build_entry_preview("text", &text, None), None);
    assert_eq!(try_build_clipboard_text_fingerprint("url", &text, None), None);
    assert_eq!(try_derive_rich_text_content("a", Some(&text)), None);
    assert_eq!(try_infer_rich_html_from_plain_text(&text, "", None), None);
    assert_eq!(extract_plain_text_from_htmlish(&text), None);
    assert_eq!(extract_renderable_html_region(&text), None);
    assert_eq!(strip_office_preview_noise(&text), None);
    assert_eq!(looks_like_html_fragment(&text), None);
    assert_eq!(strip_leading_office_metadata_text(&text), None);
    assert_eq!(sanitize_rich_text_plain_text(&text), None);
    let behind = nested(&text, 3);
    assert_eq!(try_normalize_clipboard_plain_text(&behind), None);
}

#[test]
fn headers_may_lie_deep_inside_each_other() {
    let text = nested("<p>deep</p>", 30);
    assert_eq!(extract_plain_text_from_htmlish(&text).as_deref(), Some("deep"));
}

#[test]
fn plain_text_behind_nested_headers_is_read() {
    let text = nested("<p>deep</p>", 5);
    assert_eq!(try_normalize_clipboard_plain_text(&text).as_deref(), Some("deep"));
    assert_eq!(try_build_entry_preview("text", &text, None).as_deref(), Some("deep"));
}

#[test]
fn rich_text_behind_nested_headers_is_read() {
    let text = nested("<p>deep</p>", 5);
    assert_eq!(try_derive_rich_text_content("x", Some(&text)).as_deref(), Some("deep"));
    assert_eq!(
        try_build_clipboard_text_fingerprint("text", &text, None).as_deref(),
        Some("deep")
    );
}

#[test]
fn plain_text_has_no_carriage_return_and_is_not_lost() {
    for text in [
        "a\r\nb\rc",
        " \r\n\t",
        "",
        "Version:0.9\r\nStartHTML:0\r\nEndHTML:0\r\nhello\r\nworld",
        "Version:0.9",
        "Version:0.9\r\n<p></p>",
        "StartHTML: 1 StartFragment: 2 MicrosoftInternetExplorer4 text",
    ] {
        let plain = normalize_clipboard_plain_text(text);
        assert!(!plain.contains('\r'));
        assert_eq!(plain.trim().is_empty(), text.trim().is_empty());
    }
    assert_eq!(normalize_clipboard_plain_text("Version:0.9"), "Version:0.9");
}

#[test]
fn header_keys_split_by_a_line_ending_are_no_header() {
    let text = "version:\r0.9";
    assert!(!looks_like_cf_html_header_text(text));
    assert_eq!(normalize_clipboard_plain_text(text), "version:\n0.9");
    assert_eq!(build_clipboard_text_fingerprint("text", text, None), "version: 0.9");
}

#[test]
fn layout_keeps_the_words() {
    for text in [
        "",
        " \r\n ",
        "a  b\r\n\r\n\r\n c\td\u{3000}e ",
        "\n\nx\u{a0}\u{a0}y\r z",
        "one",
    ] {
        let words: Vec<&str> = text.split_whitespace().collect();
        let tidy = normalize_plain_text_layout(text);
        assert_eq!(tidy.split_whitespace().collect::<Vec<_>>(), words);
        for line in tidy.lines() {
            assert_eq!(line.split_whitespace().collect::<Vec<_>>().join(" "), line);
        }
        assert_eq!(collapse_preview_whitespace(text), words.join(" "));
    }
    assert_eq!(normalize_plain_text_layout(" a  b \r\n\n\n c"), "a b\n\nc");
}

#[test]
fn markup_reads_the_same_in_wide_characters() {
    for text in [
        "<!--StartFragment--><b>a</b><!--EndFragment-->",
        "Version:0.9\r\n<p>x</p>",
        "td>A</td>",
        "plain",
    ] {
        assert_eq!(parse_cf_html(&wide(text)), parse_cf_html(text.as_bytes()));
    }
}

#[test]
fn careful_functions_agree_with_the_others() {
    let text = "Version:0.9\nStartHTML:0\nEndHTML:0\n<!--StartFragment--><p>a</p><p>b</p><!--EndFragment-->";
    assert_eq!(normalize_clipboard_plain_text(text), "a\nb");
    assert_eq!(try_normalize_clipboard_plain_text(text).as_deref(), Some("a\nb"));
    assert_eq!(
        try_build_clipboard_text_fingerprint("code", text, None),
        Some(build_clipboard_text_fingerprint("code", text, None))
    );
    assert_eq!(
        try_build_entry_preview("url", text, None),
        Some(build_entry_preview("url", text, None))
    );
    assert_eq!(
        try_derive_rich_text_content(text, None),
        Some(derive_rich_text_content(text, None))
    );
}

#[test]
fn plain_text_does_not_depend_on_line_endings() {
    assert_eq!(normalize_clipboard_plain_text("a\r\nb\rc"), "a\nb\nc");
    assert_eq!(
        build_clipboard_text_fingerprint("text", " a\r\n b", None),
        build_clipboard_text_fingerprint("code", "a b ", None)
    );
    assert_eq!(build_clipboard_text_fingerprint("text", " a\r\n b", None), "a b");
    assert_eq!(build_clipboard_text_fingerprint("image", "a", None), "");
}

#[test]
fn fingerprints_of_rich_text_have_the_words_of_the_markup() {
    assert_eq!(
        build_clipboard_text_fingerprint("rich_text", "x", Some("<p>one</p><p>two</p>")),
        "one two"
    );
    assert_eq!(derive_rich_text_content("one\ntwo", Some("<p>one</p><p>two</p>")), "one\ntwo");
}

#[test]
fn previews_are_short_lines() {
    let long = "word ".repeat(200);
    let shown = build_entry_preview("text", &long, None);
    assert_eq!(shown.chars().count(), 500);
    assert!(shown.ends_with("..."));
    let fits = "é".repeat(500);
    assert_eq!(build_entry_preview("text", &fits, None), fits);
    assert_eq!(build_entry_preview("text", &format!("{}x", fits), None), format!("{}...", "é".repeat(497)));
    assert_eq!(build_entry_preview("image", "x", None), "[Image Content]");
    assert_eq!(build_entry_preview("rich_text", " ", None), "[Rich Text Content]");
}

#[test]
fn markup_is_rendered() {
    assert_eq!(
        extract_plain_text_from_htmlish("<p>a&nbsp;&amp;<br>b</p><pre>c\n  d</pre>").as_deref(),
        Some("a &\nb\nc\n  d")
    );
    assert_eq!(
        extract_plain_text_from_htmlish("<tr><td>a</td><td>b</td></tr><tr><td>c</td></tr>")
            .as_deref(),
        Some("a b\nc")
    );
    assert_eq!(render("<div>x  y</div>z"), "x y\nz");
    assert_eq!(extract_plain_text_from_htmlish("Version:0.9 <p>a</p>").as_deref(), Some("a"));
}

#[test]
fn office_noise_is_known() {
    assert!(is_office_style_definition_text("table.MsoNormalTable {mso-style-name:x}"));
    assert!(!is_office_style_definition_text("mso-style-name"));
    assert_eq!(
        drop_office_prefix("/* Style Definitions */ table.MsoNormal <p>a</p>"),
        "<p>a</p>"
    );
    assert_eq!(drop_office_prefix("hello <p>a</p>"), "hello <p>a</p>");
}

#[test]
fn programs_that_format_text_are_known() {
    assert!(source_app_likely_formats_rich_text("WINWORD.EXE", None));
    assert!(source_app_likely_formats_rich_text("", Some("C:/WPS Office/x")));
    assert!(!source_app_likely_formats_rich_text("notepad", Some("C:/notepad.exe")));
    assert!(plain_text_has_rich_html_signals("<HTML"));
    assert!(!plain_text_has_rich_html_signals("<p>"));
}

#[test]
fn callouts_are_known_by_their_first_line() {
    assert!(looks_like_obsidian_callout_markdown("\n  > [!note] Title\ntext"));
    assert!(!looks_like_obsidian_callout_markdown("text\n> [!note]"));
    assert!(!looks_like_obsidian_callout_markdown(""));
}

#[test]
fn markup_in_plain_text_is_found() {
    let html = "<html><body><p>a</p></body></html>";
    assert_eq!(
        try_infer_rich_html_from_plain_text(html, "", None),
        Some(Some(html.to_string()))
    );
    assert_eq!(try_infer_rich_html_from_plain_text("<p>a</p>", "", None), Some(None));
    assert_eq!(
        try_infer_rich_html_from_plain_text("<p>a</p>", "Excel", None),
        Some(Some("<p>a</p>".to_string()))
    );
    assert_eq!(try_infer_rich_html_from_plain_text("  ", "Excel", None), Some(None));
}

#[test]
fn base64_is_read_in_its_one_form() {
    assert_eq!(read_base64(""), Some(vec![]));
    assert_eq!(read_base64("AQ=="), Some(vec![1]));
    assert_eq!(read_base64("AQI="), Some(vec![1, 2]));
    assert_eq!(read_base64("AQID"), Some(vec![1, 2, 3]));
    assert_eq!(read_base64("+/+/AA=="), Some(vec![0xfb, 0xff, 0xbf, 0]));
    for text in ["AQ", "AQ=", "AR==", "AQJ=", "A===", "====", "AQ==AQ==", "AQ-_", "A QI="] {
        assert_eq!(read_base64(text), None);
    }
}

#[test]
fn markup_is_rendered_with_its_tags_given() {
    let html = "a<br>b<p>c";
    assert_eq!(remove_marks(&render_tags(html, &vec![(1, 5), (6, 9)])), "a\nb\nc");
    assert_eq!(render_tags(html, &vec![]), html);
    assert_eq!(render_tags(" <x>  y", &vec![(1, 4)]), "y");
}

#[test]
fn blocks_are_blanked_where_they_are_noise() {
    assert_eq!(blank_blocks("a[x]b[y]c", &vec![(1, 4), (5, 8)], &[true, false]), "a b[y]c");
    assert_eq!(
        blank_office_blocks(r"\[.*?\]", "a[table.MsoNormal {mso-style-name:x}]b[table]c"),
        "a b[table]c"
    );
}

#[test]
fn brackets_are_restored_where_they_are_missing() {
    assert_eq!(restore_bracket(" x ", true), "<x");
    assert_eq!(restore_bracket(" x ", false), "x");
    assert_eq!(restore_bracket("<x", true), "<x");
    assert_eq!(restore_bracket(" ", true), "");
}

#[test]
fn the_plain_flavor_is_chosen_where_it_has_the_same_words() {
    let choose = |plain: &str, markup: bool, noise: bool| {
        choose_flavor(plain.to_string(), "a b".to_string(), markup, noise)
    };
    assert_eq!(choose("a\n  b", false, false), "a\n  b");
    assert_eq!(choose("a\n  b", true, false), "a b");
    assert_eq!(choose("a\n  b", false, true), "a b");
    assert_eq!(choose("a c", false, false), "a b");
    assert_eq!(choose("", false, false), "a b");
}

#[test]
fn markup_is_kept_where_it_is_worth_it() {
    assert!(markup_is_worth_keeping("<body>a", "a", "", None));
    assert!(markup_is_worth_keeping("<p>a", "a", "", Some("excel.exe")));
    assert!(!markup_is_worth_keeping("a", " a ", "excel", None));
    assert!(!markup_is_worth_keeping("<p>a", "a", "notepad", None));
    assert!(!markup_is_worth_keeping("<body>", "", "excel", None));
}

#[test]
fn previews_of_rich_text_stand_in_for_bare_markup() {
    assert_eq!(choose_rich_preview("a  b", "x", true), "a b");
    assert_eq!(choose_rich_preview("a  b", "a b", true), "[Rich Text Content]");
    assert_eq!(choose_rich_preview("a  b", "a b", false), "a b");
    assert_eq!(choose_rich_preview(" ", "x", false), "[Rich Text Content]");
    assert_eq!(cut_preview("x".repeat(500)), "x".repeat(500));
    assert_eq!(cut_preview("x".repeat(501)), format!("{}...", "x".repeat(497)));
}

#[test]
fn bodies_are_cut() {
    assert_eq!(cut_body(" short ".to_string()), " short ");
    assert_eq!(
        cut_body("x".repeat(5001)),
        format!("{}... [HTML Truncated]", "x".repeat(5000))
    );
}

#[test]
fn layouts_keep_every_visible_character() {
    let ink = |s: &str| s.chars().filter(|c| !c.is_whitespace()).collect::<String>();
    let messy = "\u{3000} a\u{f0000}b \r\n\r\r\n c\u{f0001}\t\u{2028}d\n";
    assert_eq!(ink(&normalize_plain_text_layout(messy)), ink(messy));
    assert_eq!(ink(&collapse_preview_whitespace(messy)), ink(messy));
    assert_eq!(
        normalize_plain_text_layout(&normalize_plain_text_layout(messy)),
        normalize_plain_text_layout(messy)
    );
}

#[test]
fn boundaries_between_blocks_are_one_break() {
    assert_eq!(render("<div><p>a</p></div><div>\n<p>b</p></div>"), "a\nb\n");
    assert_eq!(render("a\n  b<i>\n</i>c"), "a b c");
}

#[test]
fn headers_are_known_whatever_their_case() {
    let text = "Version:0.9 StartHTML:1";
    assert_eq!(
        looks_like_cf_html_header_text(text),
        looks_like_cf_html_header_text(&to_lower(text))
    );
}
