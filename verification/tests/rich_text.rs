use clipboard_utils::cf_html::parse_cf_html;
use clipboard_utils::layout::collapse_preview_whitespace;
use clipboard_utils::plain_text::normalize_clipboard_plain_text;
use clipboard_utils::rich_text::{
    build_entry_preview, derive_rich_text_content, infer_rich_html_from_plain_text,
};

#[test]
fn rich_text_preview_prefers_readable_html_text() {
    let html = "<table><tr><td>Alpha</td><td>Beta</td></tr><tr><td>Gamma</td><td>Delta</td></tr></table>";
    let preview = build_entry_preview("rich_text", "table border=0 cellpadding=0", Some(html));

    assert_eq!(preview, "Alpha Beta Gamma Delta");
}

#[test]
fn rich_text_preview_hides_markup_only_plain_text() {
    let preview = build_entry_preview(
        "rich_text",
        "table border=0 cellpadding=0 cellspacing=0 width=288",
        None,
    );

    assert_eq!(preview, "[Rich Text Content]");
}

#[test]
fn rich_text_preview_strips_office_style_definition_noise() {
    let html = [
        "Normal 0 false false false EN-US ZH-CN X-NONE ",
        "/* Style Definitions */ ",
        "table.MsoNormalTable {mso-style-name:普通表格; mso-style-noshow:yes;} ",
        "<table><tr><td>学院意见</td><td>通过</td></tr></table>",
    ]
    .concat();
    let html = html.as_str();

    let preview = build_entry_preview("rich_text", html, Some(html));

    assert_eq!(preview, "学院意见 通过");
}

#[test]
fn rich_text_content_prefers_renderable_html_over_wps_plain_text_noise() {
    let text =
        "1 1 1 1 MicrosoftInternetExplorer4 0 2 DocumentNotSpecified 7.8 磅 Normal 0 顶顶顶顶";
    let html = "<html><head><meta charset=\"utf-8\"><style>body{font-family:\"Times New Roman\";}</style></head><body><p>顶顶顶顶</p></body></html>";

    let content = derive_rich_text_content(text, Some(html));

    assert_eq!(content, "顶顶顶顶");
}

#[test]
fn rich_text_preview_ignores_wps_body_metadata_prefix() {
    let html = "<html><body>1 1 1 1 MicrosoftInternetExplorer4 0 2 DocumentNotSpecified 7.8 磅 Normal 0 <span>顶顶顶顶</span></body></html>";

    let preview = build_entry_preview("rich_text", html, Some(html));

    assert_eq!(preview, "顶顶顶顶");
}

#[test]
fn rich_text_content_preserves_obsidian_callout_markdown() {
    let text = "> [!note]- Important\n> Keep the markdown callout syntax";
    let html =
        "<blockquote><p>Important</p><p>Keep the markdown callout syntax</p></blockquote>";

    let content = derive_rich_text_content(text, Some(html));

    assert_eq!(content, text);
}

#[test]
fn rich_text_content_does_not_double_break_between_paragraphs() {
    let html = "<p>First</p><p>Second</p>";

    let content = derive_rich_text_content("First\nSecond", Some(html));

    assert_eq!(content, "First\nSecond");
}

#[test]
fn rich_text_content_collapses_nested_block_boundaries() {
    let html = "<div><p>First</p></div><div><p>Second</p></div>";

    let content = derive_rich_text_content("First\nSecond", Some(html));

    assert_eq!(content, "First\nSecond");
}

#[test]
fn rich_text_content_ignores_html_source_formatting_newlines() {
    let html = "<div>\n  <p>First</p>\n  <p>Second</p>\n</div>";

    let content = derive_rich_text_content("First\nSecond", Some(html));

    assert_eq!(content, "First\nSecond");
}

#[test]
fn rich_text_content_preserves_explicit_blank_line() {
    let html = "<p>First</p><p><br></p><p>Second</p>";

    let content = derive_rich_text_content("First\n\nSecond", Some(html));

    assert_eq!(content, "First\n\nSecond");
}

#[test]
fn rich_text_content_preserves_multiple_explicit_line_breaks() {
    let html = "<p>First<br><br><br>Second</p>";

    let content = derive_rich_text_content("First\n\n\nSecond", Some(html));

    assert_eq!(content, "First\n\n\nSecond");
}

#[test]
fn rich_text_content_preserves_multiple_preformatted_line_breaks() {
    let html = "<pre>First\n\n\nSecond</pre>";

    let content = derive_rich_text_content("First\n\n\nSecond", Some(html));

    assert_eq!(content, "First\n\n\nSecond");
}

#[test]
fn rich_text_content_preserves_plain_text_indentation_when_html_words_match() {
    let text = "    First\n\tSecond";
    let html = "<div style=\"white-space: pre-wrap\">    First<br>\tSecond</div>";

    let content = derive_rich_text_content(text, Some(html));

    assert_eq!(content, text);
}

#[test]
fn rich_text_content_preserves_preformatted_spaces_and_tabs_without_plain_text() {
    let html = "<pre>    First\n\tSecond</pre>";

    let content = derive_rich_text_content("", Some(html));

    assert_eq!(content, "    First\n\tSecond");
}

#[test]
fn rich_text_content_preserves_non_breaking_space_indentation() {
    let html = "<div>&nbsp;&#160;&#xA0;Indented</div>";

    let content = derive_rich_text_content("", Some(html));

    assert_eq!(content, "   Indented");
}

#[test]
fn rich_text_content_preserves_plain_table_spacing_without_blank_rows() {
    let html = [
        "<table>",
        "<tr><td>A</td><td>B</td></tr>",
        "<tr><td>C</td><td>D</td></tr>",
        "</table>",
    ]
    .concat();
    let html = html.as_str();

    let content = derive_rich_text_content("A\tB\nC\tD", Some(html));

    assert_eq!(content, "A\tB\nC\tD");
}

#[test]
fn infer_rich_html_from_plain_text_promotes_wps_table_fragment() {
    let text =
        "table border=0 cellpadding=0 cellspacing=0><tr><td>学院意见</td><td>通过</td></tr>";

    let html = infer_rich_html_from_plain_text(
        text,
        "WPS Office",
        Some("C:\\Program Files\\Kingsoft\\wps.exe"),
    )
    .expect("wps html-ish text should promote to rich html");

    assert!(html.starts_with("<table"));
    assert!(html.contains("<td>学院意见</td>"));
    assert_eq!(
        collapse_preview_whitespace(&derive_rich_text_content(text, Some(&html))),
        "学院意见 通过"
    );
}

#[test]
fn infer_rich_html_from_plain_text_keeps_html_source_from_editor_as_code() {
    let text = "<div class=\"note\">hello</div>";

    let html = infer_rich_html_from_plain_text(
        text,
        "Visual Studio Code",
        Some("C:\\Program Files\\Microsoft VS Code\\Code.exe"),
    );

    assert!(html.is_none());
}

#[test]
fn parse_cf_html_repairs_missing_opening_bracket() {
    let raw = b"Version:0.9\r\nStartHTML:0000000000\r\nEndHTML:0000000000\r\nStartFragment:0000000000\r\nEndFragment:0000000000\r\n<!--StartFragment-->table border=0 cellpadding=0 cellspacing=0><tr><td>A</td></tr><!--EndFragment-->";
    let parsed = parse_cf_html(raw).expect("cf_html should parse");

    assert!(parsed.starts_with("<table"));
    assert!(parsed.contains("<td>A</td>"));
}

#[test]
fn parse_cf_html_handles_fragment_offsets_without_line_break_separator() {
    let raw = b"Version:0.9\r\nStartHTML:0000000105\r\nEndHTML:0000000189\r\nStartFragment:0000000141EndFragment:0000000173\r\n<!--StartFragment--><p>Hello</p><!--EndFragment-->";
    let parsed = parse_cf_html(raw)
        .expect("cf_html should parse from markers when offsets are malformed");

    assert!(!parsed.contains("StartHTML:"));
    assert!(!parsed.contains("StartFragment:"));
    assert!(parsed.contains("<p>Hello</p>"));
}

#[test]
fn parse_cf_html_does_not_return_raw_header_when_only_fragment_like_payload_survives() {
    let raw = b"Version:0.9\r\nStartHTML:0000000105\r\nEndHTML:0000000829\r\nStartFragment:0000000141EndFragment:0000000793\r\ntable border=0 cellpadding=0 cellspacing=0><tr><td>A</td></tr>";
    let parsed = parse_cf_html(raw).expect("cf_html should recover fragment-like payload");

    assert!(parsed.starts_with("<table"), "parsed={parsed:?}");
    assert!(parsed.contains("<td>A</td>"));
    assert!(!parsed.contains("Version:0.9"));
    assert!(!parsed.contains("StartHTML:"));
}

#[test]
fn normalize_clipboard_plain_text_strips_cf_html_header_prefix() {
    let text = "Version:0.9 StartHTML:0000000105 EndHTML:0000000829 StartFragment:0000000141 EndFragment:0000000793 ddd";

    let normalized = normalize_clipboard_plain_text(text);

    assert_eq!(normalized, "ddd");
}

#[test]
fn text_preview_drops_cf_html_header_noise_for_plain_text_items() {
    let text = "Version:0.9 StartHTML:0000000105 EndHTML:0000000829 StartFragment:0000000141 EndFragment:0000000793 ddd";

    let preview = build_entry_preview("text", text, None);

    assert_eq!(preview, "ddd");
}
