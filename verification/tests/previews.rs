use clipboard_utils::cf_html::repair_html_fragment;
use clipboard_utils::markers::{
    attach_rich_image_fallback, attach_rich_named_formats, externalize_rich_image_fallback,
    rich_image_fallback_to_save, rich_named_formats_json, split_rich_html_and_image_fallback,
    split_rich_html_and_named_formats, stored_named_formats, NamedClipboardFormat,
    StoredNamedClipboardFormat,
};
use clipboard_utils::preview::{
    truncate_entry_for_ui, truncate_html_for_preview, try_truncate_entry_for_ui,
    try_truncate_html_for_preview, ClipboardEntry, HTML_TRUNCATION_SUFFIX,
};

const GIF: &str =
    "data:image/gif;base64,R0lGODlhAQABAPAAAP///wAAACH5BAAAAAAALAAAAAABAAEAAAICRAEAOw==";

fn write_json(formats: &[StoredNamedClipboardFormat]) -> Option<Vec<u8>> {
    let mut list = Vec::new();
    for format in formats {
        let mut item = serde_json::Map::new();
        item.insert("name".to_string(), serde_json::Value::String(format.name.clone()));
        item.insert(
            "data_base64".to_string(),
            serde_json::Value::String(format.data_base64.clone()),
        );
        list.push(serde_json::Value::Object(item));
    }
    serde_json::to_vec(&serde_json::Value::Array(list)).ok()
}

fn read_json(bytes: &[u8]) -> Option<Vec<StoredNamedClipboardFormat>> {
    let value = serde_json::from_slice::<serde_json::Value>(bytes).ok()?;
    let mut list = Vec::new();
    for item in value.as_array()? {
        list.push(StoredNamedClipboardFormat {
            name: item.get("name")?.as_str()?.to_string(),
            data_base64: item.get("data_base64")?.as_str()?.to_string(),
        });
    }
    Some(list)
}

fn listed_in(html: &str) -> Option<Vec<StoredNamedClipboardFormat>> {
    rich_named_formats_json(html).and_then(|bytes| read_json(&bytes))
}

fn attach_formats(html: &str, formats: &[NamedClipboardFormat]) -> String {
    attach_rich_named_formats(html, formats, &write_json(&stored_named_formats(formats)))
}

fn split_formats(html: &str) -> (String, Vec<NamedClipboardFormat>) {
    split_rich_html_and_named_formats(html, &listed_in(html))
}

fn preview_of(html: &str) -> Option<String> {
    let repaired = repair_html_fragment(html);
    let parsed = listed_in(&repaired);
    let (_, formats) = split_rich_html_and_named_formats(&repaired, &parsed);
    truncate_html_for_preview(html, &parsed, &write_json(&stored_named_formats(&formats)))
}

fn format_of(name: &str, data: &[u8]) -> NamedClipboardFormat {
    NamedClipboardFormat { name: name.to_string(), data: data.to_vec() }
}

#[test]
fn table_html_preview_keeps_valid_table_markup() {
    let row = "<tr><td>WPS</td><td>Preview</td><td>Cell</td></tr>";
    let html = format!(
        "<table border=0 cellpadding=0 cellspacing=0 style='border-collapse:collapse'>{}</table>",
        row.repeat(120)
    );

    let truncated = preview_of(&html).expect("table preview should exist");

    assert!(truncated.starts_with("<table"));
    assert!(truncated.contains("WPS"));
    assert!(truncated.ends_with("</table>"));
}

#[test]
fn mixed_html_preview_keeps_text_context_instead_of_images_only() {
    let html = format!(
        "<div class='card'><img src='https://example.com/card.jpg' alt='cover' /><h2>巴林牵头 阿拉伯国家在理会试图推动武力破局</h2><p>{}</p></div>",
        "后续描述".repeat(2000)
    );

    let truncated = preview_of(&html).expect("mixed html preview should exist");

    assert!(truncated.contains("<img"));
    assert!(truncated.contains("巴林牵头"));
    assert!(!truncated.starts_with("<div style=\"display:flex;flex-wrap:wrap;gap:4px;\">"));
}

#[test]
fn truncated_html_preview_keeps_rich_image_fallback_marker() {
    let base_html = format!("<div><p>GIF 标题</p><p>{}</p></div>", "内容".repeat(3000));
    let html = attach_rich_image_fallback(
        &base_html,
        "data:image/gif;base64,R0lGODlhAQABAPAAAP///wAAACH5BAAAAAAALAAAAAABAAEAAAICRAEAOw==",
    );

    let truncated = preview_of(&html).expect("html preview should exist");
    let (cleaned, fallback) = split_rich_html_and_image_fallback(&truncated);

    assert!(cleaned.contains("GIF 标题"));
    assert_eq!(
        fallback.as_deref(),
        Some("data:image/gif;base64,R0lGODlhAQABAPAAAP///wAAACH5BAAAAAAALAAAAAABAAEAAAICRAEAOw==")
    );
}

#[test]
fn html_preview_prefers_renderable_body_over_leading_head_noise() {
    let html = format!(
        "<html><head><style>{}</style></head><body><div><p>真正可见的网页内容</p></div></body></html>",
        "x".repeat(7000)
    );

    let truncated = preview_of(&html).expect("html preview should exist");

    assert!(truncated.contains("真正可见的网页内容"));
    assert_ne!(truncated.trim(), HTML_TRUNCATION_SUFFIX);
}

#[test]
fn rich_named_formats_round_trip_without_touching_html() {
    let html = "<table><tr><td>A</td><td>B</td></tr></table>";
    let formats = vec![
        NamedClipboardFormat {
            name: "Rich Text Format".to_string(),
            data: b"{\\rtf1\\ansi A\\tab B}".to_vec(),
        },
        NamedClipboardFormat {
            name: "Biff8".to_string(),
            data: vec![1, 2, 3, 4],
        },
    ];

    let tagged = attach_formats(html, &formats);
    let (cleaned, restored) = split_formats(&tagged);

    assert_eq!(cleaned, html);
    assert_eq!(restored, formats);
}

#[test]
fn rich_named_formats_and_image_fallback_can_coexist() {
    let html = "<table><tr><td>Excel</td></tr></table>";
    let html = attach_rich_image_fallback(html, "data:image/png;base64,AAAA");
    let formats = vec![NamedClipboardFormat {
        name: "Biff12".to_string(),
        data: vec![9, 8, 7],
    }];

    let tagged = attach_formats(&html, &formats);
    let (without_formats, restored_formats) = split_formats(&tagged);
    let (cleaned, restored_image) = split_rich_html_and_image_fallback(&without_formats);

    assert_eq!(restored_formats, formats);
    assert_eq!(
        restored_image.as_deref(),
        Some("data:image/png;base64,AAAA")
    );
    assert_eq!(cleaned, "<table><tr><td>Excel</td></tr></table>");
}

#[test]
fn stored_formats_are_in_base64() {
    let stored = stored_named_formats(&[
        format_of("Biff8", &[1, 2, 3, 4]),
        format_of(" ", &[1]),
        format_of("Empty", &[]),
    ]);
    assert_eq!(
        stored,
        vec![StoredNamedClipboardFormat {
            name: "Biff8".to_string(),
            data_base64: "AQIDBA==".to_string(),
        }]
    );
}

#[test]
fn nothing_worth_storing_leaves_markup_alone() {
    let html = " <p>x</p> ";
    assert_eq!(attach_formats(html, &[]), html);
    assert_eq!(attach_formats(html, &[format_of("", &[1])]), html);
    assert_eq!(attach_rich_named_formats(html, &[format_of("a", &[1])], &None), html);
}

#[test]
fn broken_formats_leave_markup_alone() {
    let bad = "<p>x</p>\n<!--TIEZ_RICH_FORMATS:%%%-->";
    assert_eq!(rich_named_formats_json(bad), None);
    assert_eq!(split_formats(bad), (bad.to_string(), Vec::new()));
    let not_json = "<p>x</p>\n<!--TIEZ_RICH_FORMATS:AAAA-->";
    assert_eq!(rich_named_formats_json(not_json), Some(vec![0, 0, 0]));
    assert_eq!(split_formats(not_json), (not_json.to_string(), Vec::new()));
    let open = "<p>x</p>\n<!--TIEZ_RICH_FORMATS:AAAA";
    assert_eq!(rich_named_formats_json(open), None);
}

#[test]
fn stored_formats_that_cannot_be_read_are_left_out() {
    let listed = Some(vec![
        StoredNamedClipboardFormat { name: "a".to_string(), data_base64: "?".to_string() },
        StoredNamedClipboardFormat { name: "b".to_string(), data_base64: "AQ==".to_string() },
        StoredNamedClipboardFormat { name: "c".to_string(), data_base64: "".to_string() },
    ]);
    let html = "<p>x</p>\n<!--TIEZ_RICH_FORMATS:AAAA-->";
    assert_eq!(
        split_rich_html_and_named_formats(html, &listed),
        ("<p>x</p>".to_string(), vec![format_of("b", &[1])])
    );
}

#[test]
fn images_come_back_from_markup() {
    let tagged = attach_rich_image_fallback("<p>x</p>  ", " data:image/png;base64,AAAA ");
    let (clean, image) = split_rich_html_and_image_fallback(&tagged);
    assert_eq!(clean, "<p>x</p>");
    assert_eq!(image.as_deref(), Some("data:image/png;base64,AAAA"));
    let again = attach_rich_image_fallback(&clean, image.as_deref().unwrap());
    assert_eq!(split_rich_html_and_image_fallback(&again), (clean, image));
}

#[test]
fn images_that_are_data_can_be_replaced_by_a_saved_copy() {
    let tagged = attach_rich_image_fallback("<p>x</p>", GIF);
    assert_eq!(rich_image_fallback_to_save(&tagged).as_deref(), Some(GIF));
    let saved = externalize_rich_image_fallback(&tagged, Some("/data/a.gif".to_string()));
    assert_eq!(
        split_rich_html_and_image_fallback(&saved),
        ("<p>x</p>".to_string(), Some("/data/a.gif".to_string()))
    );
    assert_eq!(externalize_rich_image_fallback(&tagged, None), tagged);
    assert_eq!(rich_image_fallback_to_save(&saved), None);
    assert_eq!(externalize_rich_image_fallback(&saved, Some("/b".to_string())), saved);
    assert_eq!(externalize_rich_image_fallback("<p>x</p>", Some("/b".to_string())), "<p>x</p>");
}

#[test]
fn blank_markup_has_no_preview() {
    assert_eq!(preview_of("  \n "), None);
    assert_eq!(try_truncate_html_for_preview(" ", &None, &None), Some(None));
}

#[test]
fn short_markup_is_shown_whole() {
    assert_eq!(preview_of(" <p>short</p> ").as_deref(), Some("<p>short</p>"));
    assert_eq!(preview_of("td width=1>A</td>").as_deref(), Some("<td width=1>A</td>"));
}

#[test]
fn long_markup_is_cut_behind_a_tag() {
    let html = format!("<p>{}</p>{}", "a".repeat(4000), "<b>bb</b>".repeat(1000));
    let shown = preview_of(&html).unwrap();
    assert!(shown.ends_with(HTML_TRUNCATION_SUFFIX));
    let kept = &shown[..shown.len() - HTML_TRUNCATION_SUFFIX.len()];
    assert!(kept.ends_with('>'));
    assert!(html.starts_with(kept));
    assert_eq!(kept.len(), 5000);
}

#[test]
fn long_tables_show_ten_rows() {
    let row = "<TR><td>0123456789012345678901234567890123456789</td></TR>";
    let table = format!("<TABLE>{}</TABLE>", row.repeat(200));
    assert_eq!(
        preview_of(&table).unwrap(),
        format!("<TABLE>{}</table>", row.repeat(10))
    );
    let rows = row.repeat(200);
    assert_eq!(
        preview_of(&rows).unwrap(),
        format!(
            "<table style=\"border-collapse: collapse; min-width: 100%;\">{}</table>",
            row.repeat(10)
        )
    );
    let open = format!("<table><tr><td>{}", "x".repeat(6000));
    assert_eq!(preview_of(&open).unwrap(), open);
}

#[test]
fn previews_keep_image_and_formats() {
    let long = format!("<div><p>{}</p></div>", "内容".repeat(3000));
    let formats = vec![format_of("Biff12", &[9, 8, 7])];
    let tagged = attach_formats(&attach_rich_image_fallback(&long, GIF), &formats);
    let shown = preview_of(&tagged).unwrap();
    let (unformatted, restored) = split_formats(&shown);
    assert_eq!(restored, formats);
    assert_eq!(split_rich_html_and_image_fallback(&unformatted).1.as_deref(), Some(GIF));
    assert_eq!(split_rich_html_and_image_fallback(&shown).1.as_deref(), Some(GIF));
}

#[test]
fn previews_keep_the_image() {
    let long = format!("<p>{}</p>", "x".repeat(6000));
    for body in ["", "  <p>a</p> ", "td>A</td>", "!--x", &long] {
        for html in [
            attach_rich_image_fallback(body, GIF),
            format!("{}<!--TIEZ_RICH_IMAGE: {} --> {}", body, GIF, body),
        ] {
            assert_eq!(split_rich_html_and_image_fallback(&html).1.as_deref(), Some(GIF));
            let shown = preview_of(&html).unwrap();
            assert_eq!(split_rich_html_and_image_fallback(&shown).1.as_deref(), Some(GIF));
        }
    }
}

#[test]
fn entries_are_shortened() {
    let entry = ClipboardEntry {
        content_type: "text".to_string(),
        content: "x".repeat(2001),
        html_content: Some("<p>y</p>".to_string()),
    };
    assert_eq!(
        truncate_entry_for_ui(entry, &None, &None),
        ClipboardEntry {
            content_type: "text".to_string(),
            content: format!("{}... [Truncated for speed]", "x".repeat(2000)),
            html_content: Some("<p>y</p>".to_string()),
        }
    );
}

#[test]
fn entries_that_are_short_or_no_text_stay() {
    let short = ClipboardEntry {
        content_type: "code".to_string(),
        content: "x".repeat(2000),
        html_content: None,
    };
    let image = ClipboardEntry {
        content_type: "image".to_string(),
        content: "x".repeat(2001),
        html_content: Some(String::new()),
    };
    assert_eq!(
        truncate_entry_for_ui(short, &None, &None),
        ClipboardEntry {
            content_type: "code".to_string(),
            content: "x".repeat(2000),
            html_content: None,
        }
    );
    assert_eq!(
        truncate_entry_for_ui(image, &None, &None),
        ClipboardEntry {
            content_type: "image".to_string(),
            content: "x".repeat(2001),
            html_content: Some(String::new()),
        }
    );
}

#[test]
fn entries_with_long_markup_get_its_preview() {
    let html = format!("<p>{}</p>", "a".repeat(6000));
    let entry = ClipboardEntry {
        content_type: "rich_text".to_string(),
        content: "a".to_string(),
        html_content: Some(html.clone()),
    };
    let shown = try_truncate_entry_for_ui(entry, &None, &None).unwrap();
    assert_eq!(shown.html_content, preview_of(&html));
    let blank = ClipboardEntry {
        content_type: "rich_text".to_string(),
        content: "a".to_string(),
        html_content: Some(" ".repeat(6000)),
    };
    assert_eq!(truncate_entry_for_ui(blank, &None, &None).html_content, None);
    let named = "<p>Version:0.9 StartHTML:0 EndHTML:00000</p>";
    let filled = format!("{}{}", named, "x".repeat(6000));
    let looping = ClipboardEntry {
        content_type: "rich_text".to_string(),
        content: "a".to_string(),
        html_content: Some(filled.replace("EndHTML:00000", &format!("EndHTML:0{}", filled.len()))),
    };
    assert_eq!(try_truncate_entry_for_ui(looping, &None, &None), None);
}
