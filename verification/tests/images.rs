use clipboard_utils::codecs::read_base64;
use clipboard_utils::image_links::{
    embed_local_images, links_to_store, local_image_requests, process_local_images_in_html,
};
use clipboard_utils::image_search::{
    extract_animated_image_data_url_from_html, extract_animated_image_data_url_from_text,
    extract_first_image_data_url_from_html, ImageSearch,
};
use clipboard_utils::images::{
    cut_last_segment, cut_name_ext, fetch_remote_image, file_mime_by_ext, gif_data_url_from_bytes,
    image_data_url_from_bytes, image_ext_from_bytes, image_ext_from_mime, image_ext_from_url,
    image_mime_by_ext, local_image_file_name, looks_like_gif_image_src,
    normalize_html_image_src_candidate, normalize_image_ext, normalize_remote_img_url,
    remote_reply_is_readable, resolve_local_image_src_path, saved_image_file_name, stored_file_url,
    write_hex, ImageReply, ImageSource, RemoteReply,
};

const GIF: &str =
    "data:image/gif;base64,R0lGODlhAQABAPAAAP///wAAACH5BAAAAAAALAAAAAABAAEAAAICRAEAOw==";

const PNG_MARK: [u8; 8] = [137, 80, 78, 71, 13, 10, 26, 10];

fn found(search: ImageSearch) -> Option<String> {
    match search {
        ImageSearch::Done(url) => url,
        ImageSearch::Ask(source) => panic!("asked for {:?}", source),
    }
}

fn remote(content_type: &str, body: &[u8]) -> RemoteReply {
    RemoteReply {
        success: true,
        content_length: None,
        content_type: Some(content_type.to_string()),
        body: Some(body.to_vec()),
    }
}

fn file(bytes: &[u8], extension: Option<&str>) -> ImageReply {
    ImageReply::File {
        bytes: bytes.to_vec(),
        extension: extension.map(|e| e.to_string()),
    }
}

#[test]
fn extract_animated_image_data_url_from_html_prefers_data_gif() {
    let gif_data_url =
        "data:image/gif;base64,R0lGODlhAQABAPAAAP///wAAACH5BAAAAAAALAAAAAABAAEAAAICRAEAOw==";
    let html = format!(r#"<div><img src="{gif_data_url}" alt="gif" /></div>"#);

    let extracted = found(extract_animated_image_data_url_from_html(&html, &[]));

    assert_eq!(extracted.as_deref(), Some(gif_data_url));
}

#[test]
fn extract_animated_image_data_url_from_html_ignores_static_png() {
    let html = r#"<div><img src="data:image/png;base64,iVBORw0KGgoAAAANSUhEUgAAAAUA" /></div>"#;

    let extracted = found(extract_animated_image_data_url_from_html(html, &[]));

    assert!(extracted.is_none());
}

#[test]
fn extract_first_image_data_url_from_html_accepts_static_png_data_url() {
    let png_data_url = "data:image/png;base64,iVBORw0KGgoAAAANSUhEUgAAAAUA";
    let html = format!(r#"<div><img src="{png_data_url}" alt="png" /></div>"#);

    let extracted = found(extract_first_image_data_url_from_html(&html, &[]));

    assert_eq!(extracted.as_deref(), Some(png_data_url));
}

#[test]
fn extract_first_image_data_url_from_html_reads_local_file_url() {
    let png = read_base64("iVBORw0KGgoAAAANSUhEUgAAAAEAAAABCAYAAAAfFcSJAAAADUlEQVQIHWP4////fwAJ+wP9KobjigAAAABJRU5ErkJggg==")
        .unwrap();
    let html = format!(
        r#"<div><img src="{}?v=1#preview" /></div>"#,
        stored_file_url("/tmp/dir/rich_local.png")
    );

    assert_eq!(
        extract_first_image_data_url_from_html(&html, &[]),
        ImageSearch::Ask(ImageSource::File("/tmp/dir/rich_local.png".to_string()))
    );
    let extracted = found(extract_first_image_data_url_from_html(
        &html,
        &[file(&png, Some("png"))],
    ));

    assert!(extracted
        .as_deref()
        .map(|value| value.starts_with("data:image/png;base64,"))
        .unwrap_or(false));
}

#[test]
fn extract_animated_image_data_url_from_text_accepts_direct_gif_data_url() {
    let gif_data_url =
        "data:image/gif;base64,R0lGODlhAQABAPAAAP///wAAACH5BAAAAAAALAAAAAABAAEAAAICRAEAOw==";

    let extracted = found(extract_animated_image_data_url_from_text(gif_data_url, &[]));

    assert_eq!(extracted.as_deref(), Some(gif_data_url));
}

#[test]
fn blank_markup_holds_no_image() {
    assert_eq!(found(extract_animated_image_data_url_from_html(" \n", &[])), None);
    assert_eq!(found(extract_first_image_data_url_from_html("", &[])), None);
    assert_eq!(found(extract_animated_image_data_url_from_text("  ", &[])), None);
    assert_eq!(found(extract_first_image_data_url_from_html("<p>x</p>", &[])), None);
}

#[test]
fn searches_ask_in_order_and_end() {
    let html = concat_lines(&[
        r#"<img src="blob:x"><img data-src='https://e.com/a.gif' src="C:\\b.gif">"#,
        r#"<img src="file:///c.png"><IMG SRCSET="//e.com/d.gif 1x, other 2x">"#,
    ]);
    let mut replies: Vec<ImageReply> = Vec::new();
    assert_eq!(
        extract_animated_image_data_url_from_html(&html, &replies),
        ImageSearch::Ask(ImageSource::Remote("https://e.com/a.gif".to_string()))
    );
    replies.push(ImageReply::Nothing);
    assert_eq!(
        extract_animated_image_data_url_from_html(&html, &replies),
        ImageSearch::Ask(ImageSource::File("C:\\\\b.gif".to_string()))
    );
    replies.push(file(&PNG_MARK, Some("gif")));
    assert_eq!(
        extract_animated_image_data_url_from_html(&html, &replies),
        ImageSearch::Ask(ImageSource::Remote("https://e.com/d.gif".to_string()))
    );
    let mut unlucky = vec![ImageReply::Nothing, ImageReply::Nothing];
    unlucky.push(ImageReply::Remote(remote("image/png", b"GIF89a")));
    assert_eq!(found(extract_animated_image_data_url_from_html(&html, &unlucky)), None);
    replies.push(ImageReply::Remote(remote("image/gif; x=y", b"GIF89a")));
    let url = Some("data:image/gif;base64,R0lGODlh".to_string());
    assert_eq!(found(extract_animated_image_data_url_from_html(&html, &replies)), url);
    replies.push(ImageReply::Nothing);
    assert_eq!(found(extract_animated_image_data_url_from_html(&html, &replies)), url);
}

fn concat_lines(parts: &[&str]) -> String {
    parts.concat()
}

#[test]
fn first_images_are_never_fetched() {
    let html = r#"<img src="https://e.com/a.png"><img src="/rel.png">"#;
    assert_eq!(found(extract_first_image_data_url_from_html(html, &[])), None);
}

#[test]
fn texts_are_taken_for_addresses() {
    assert_eq!(
        extract_animated_image_data_url_from_text(" http://e.com/x.gif ", &[]),
        ImageSearch::Ask(ImageSource::Remote("http://e.com/x.gif".to_string()))
    );
    assert_eq!(found(extract_animated_image_data_url_from_text("http://e.com/x.png", &[])), None);
    assert_eq!(found(extract_animated_image_data_url_from_text("javascript:x.gif", &[])), None);
}

#[test]
fn extensions_and_types_lead_back() {
    for ext in ["png", "jpg", "gif", "webp", "bmp"] {
        assert_eq!(normalize_image_ext(&ext.to_uppercase()), Some(ext));
        assert_eq!(image_ext_from_mime(image_mime_by_ext(ext)), Some(ext));
    }
    assert_eq!(normalize_image_ext("JPEG"), Some("jpg"));
    assert_eq!(normalize_image_ext("svg"), None);
    assert_eq!(image_ext_from_mime("image/svg+xml"), None);
    assert_eq!(image_mime_by_ext("tiff"), "image/png");
    assert_eq!(file_mime_by_ext("svg"), "image/svg+xml");
    assert_eq!(file_mime_by_ext("jpeg"), "image/jpeg");
    assert_eq!(file_mime_by_ext("webp"), "image/webp");
    assert_eq!(file_mime_by_ext("txt"), "image/png");
}

#[test]
fn extensions_are_read_from_addresses() {
    assert_eq!(image_ext_from_url("https://e.com/a/b.PNG?x=1.gif#y"), Some("png"));
    assert_eq!(image_ext_from_url("https://e.com/a.gif/"), Some("gif"));
    assert_eq!(image_ext_from_url("https://e.com/a.gif/b"), None);
    assert_eq!(image_ext_from_url("https://e.com/.gif"), None);
    assert_eq!(image_ext_from_url("/a.gif"), None);
}

#[test]
fn names_are_read_from_paths() {
    assert_eq!(cut_last_segment("/a/b.png"), "b.png");
    assert_eq!(cut_last_segment("/a/b.png//"), "b.png");
    assert_eq!(cut_last_segment("/a/b.png/./"), "b.png");
    assert_eq!(cut_last_segment("b.png"), "b.png");
    assert_eq!(cut_last_segment("/"), "");
    for path in ["/a/b.png", "/a/b.png//", "/a/b.png/.", "a.tar.gz", ".hidden", "/x.", "/a.b/c"] {
        let expected = std::path::Path::new(path)
            .extension()
            .and_then(|e| e.to_str())
            .unwrap_or("");
        assert_eq!(cut_name_ext(&cut_last_segment(path)), expected);
    }
}

#[test]
fn formats_are_known_by_their_first_bytes() {
    assert_eq!(image_ext_from_bytes(&PNG_MARK), Some("png"));
    assert_eq!(image_ext_from_bytes(&[255, 216, 255, 0]), Some("jpg"));
    assert_eq!(image_ext_from_bytes(b"GIF87a"), Some("gif"));
    assert_eq!(image_ext_from_bytes(b"GIF89a"), Some("gif"));
    assert_eq!(image_ext_from_bytes(b"RIFF0000WEBP"), Some("webp"));
    assert_eq!(image_ext_from_bytes(b"RIFF0000WAVE"), None);
    assert_eq!(image_ext_from_bytes(b"BM"), Some("bmp"));
    assert_eq!(image_ext_from_bytes(b"II*\0"), None);
    assert_eq!(image_ext_from_bytes(b"plain"), None);
    assert_eq!(image_ext_from_bytes(b""), None);
}

#[test]
fn images_are_written_as_data_addresses() {
    assert_eq!(
        image_data_url_from_bytes(&PNG_MARK).as_deref(),
        Some("data:image/png;base64,iVBORw0KGgo=")
    );
    assert_eq!(gif_data_url_from_bytes(&PNG_MARK), None);
    assert_eq!(
        gif_data_url_from_bytes(b"GIF89a").as_deref(),
        Some("data:image/gif;base64,R0lGODlh")
    );
    assert_eq!(image_data_url_from_bytes(b"x"), None);
}

#[test]
fn remote_addresses_are_normalized() {
    assert_eq!(normalize_remote_img_url(" http://a "), Some("http://a".to_string()));
    assert_eq!(normalize_remote_img_url("//a/b"), Some("https://a/b".to_string()));
    assert_eq!(normalize_remote_img_url("https://a"), Some("https://a".to_string()));
    assert_eq!(normalize_remote_img_url("HTTP://a"), None);
    assert_eq!(normalize_remote_img_url("file:///a"), None);
    assert_eq!(normalize_remote_img_url("C:/a"), None);
}

#[test]
fn local_paths_are_decoded() {
    assert_eq!(
        resolve_local_image_src_path("file:///C:/a%20b.png?x#y"),
        Some("C:/a b.png".to_string())
    );
    assert_eq!(resolve_local_image_src_path("file:///home/a.png"), Some("/home/a.png".to_string()));
    assert_eq!(resolve_local_image_src_path("file://file://x"), Some("x".to_string()));
    assert_eq!(resolve_local_image_src_path("D:\\a#b"), Some("D:\\a".to_string()));
    assert_eq!(resolve_local_image_src_path("D:/a%ff"), Some("D:/a%ff".to_string()));
    assert_eq!(resolve_local_image_src_path("D:a"), None);
    assert_eq!(resolve_local_image_src_path("/home/a.png"), None);
    assert_eq!(resolve_local_image_src_path("https://a"), None);
}

#[test]
fn the_first_of_several_addresses_counts() {
    assert_eq!(
        normalize_html_image_src_candidate(" a.png 1x, b.png 2x "),
        Some("a.png".to_string())
    );
    assert_eq!(normalize_html_image_src_candidate("a?b&amp;c"), Some("a?b&c".to_string()));
    assert_eq!(
        normalize_html_image_src_candidate("data:image/png;base64,AA AA"),
        Some("data:image/png;base64,AA AA".to_string())
    );
    assert_eq!(normalize_html_image_src_candidate(",a b"), Some(",a b".to_string()));
    assert_eq!(normalize_html_image_src_candidate(" "), None);
    assert_eq!(normalize_html_image_src_candidate("blob:x"), None);
    assert_eq!(normalize_html_image_src_candidate("javascript:x"), None);
}

#[test]
fn addresses_tell_gifs() {
    assert!(looks_like_gif_image_src("A.GIF"));
    assert!(looks_like_gif_image_src("x?format=gif"));
    assert!(looks_like_gif_image_src("x?fm=gif"));
    assert!(looks_like_gif_image_src("data:image/gif;base64,"));
    assert!(!looks_like_gif_image_src("gif"));
    assert!(!looks_like_gif_image_src(" "));
}

#[test]
fn replies_are_judged() {
    let url = "https://e.com/a.webp";
    assert_eq!(fetch_remote_image(url, &remote(" image/png ; q=1", b"x")), Some("png"));
    assert_eq!(fetch_remote_image(url, &remote("text/html", b"x")), Some("webp"));
    assert_eq!(fetch_remote_image("https://e.com/a", &remote("", b"GIF87a")), Some("gif"));
    assert_eq!(fetch_remote_image("https://e.com/a", &remote("", b"x")), None);
    assert_eq!(fetch_remote_image(url, &remote("image/png", b"")), None);
    let mut failed = remote("image/png", b"x");
    failed.success = false;
    assert_eq!(fetch_remote_image(url, &failed), None);
    let mut long = remote("image/png", b"x");
    long.content_length = Some(8 * 1024 * 1024 + 1);
    assert_eq!(fetch_remote_image(url, &long), None);
    let mut unread = remote("image/png", b"x");
    unread.body = None;
    assert_eq!(fetch_remote_image(url, &unread), None);
    let mut untyped = remote("image/png", b"x");
    untyped.content_type = None;
    assert_eq!(fetch_remote_image(url, &untyped), Some("webp"));
}

#[test]
fn replies_that_are_too_long_are_not_read() {
    assert!(remote_reply_is_readable(true, None));
    assert!(remote_reply_is_readable(true, Some(8388608)));
    assert!(!remote_reply_is_readable(true, Some(8388609)));
    assert!(!remote_reply_is_readable(false, Some(1)));
    let fits = vec![0u8; 8388608];
    assert_eq!(fetch_remote_image("https://e.com/a.bmp", &remote("", &fits)), Some("bmp"));
    let over = vec![0u8; 8388609];
    assert_eq!(fetch_remote_image("https://e.com/a.bmp", &remote("", &over)), None);
}

#[test]
fn links_say_what_they_want() {
    let html = r#"a<img src="file:///x/y.PNG?1">b<img alt='' src='//e.com/z'>c<img src="data:,">d"#;
    assert_eq!(
        local_image_requests(html),
        vec![
            Some(ImageSource::File("/x/y.PNG".to_string())),
            Some(ImageSource::Remote("https://e.com/z".to_string())),
            None,
        ]
    );
    assert_eq!(local_image_requests("<p>none</p>"), Vec::new());
}

#[test]
fn links_are_embedded() {
    let html = r#"a<img src="file:///x/y.PNG?1">b<img alt='' src='//e.com/z'>c<img src="data:,">d"#;
    let replies = [
        file(b"\x00\x01", Some("SVG")),
        ImageReply::Remote(remote("image/jpeg", b"\x02")),
    ];
    assert_eq!(
        embed_local_images(html, &replies),
        r#"a<img src="data:image/svg+xml;base64,AAE=">b<img alt='' src='data:image/jpeg;base64,Ag=='>c<img src="data:,">d"#
    );
    assert_eq!(embed_local_images(html, &[]), html);
    assert_eq!(
        embed_local_images(html, &[ImageReply::Nothing, file(b"\x00", None)]),
        html
    );
    assert_eq!(embed_local_images("é<p>none</p>é", &replies), "é<p>none</p>é");
}

#[test]
fn files_without_extension_are_embedded_as_png() {
    assert_eq!(
        embed_local_images(r#"<img src="C:/x">"#, &[file(b"\x00", None)]),
        r#"<img src="data:image/png;base64,AA==">"#
    );
}

#[test]
fn links_get_the_addresses_of_stored_images() {
    let html = r#"ä<img src="file:///x/y.PNG">ö<img src='http://e.com/z'>ü<img src="data:,">"#;
    let paths = [
        Some("C:\\att\\img_1.png".to_string()),
        Some("/att/img_2.png".to_string()),
        Some("/att/img_3.png".to_string()),
    ];
    assert_eq!(
        process_local_images_in_html(html, &[], &paths),
        r#"ä<img src="file:///C:/att/img_1.png">ö<img src='file:///att/img_2.png'>ü<img src="data:,">"#
    );
    assert_eq!(process_local_images_in_html(html, &[], &[None]), html);
    assert_eq!(process_local_images_in_html("", &[], &paths), "");
}

#[test]
fn stored_images_have_names() {
    assert_eq!(
        local_image_file_name(0xdead_beef, &Some("JPEG".to_string())),
        "img_deadbeef.jpeg"
    );
    assert_eq!(local_image_file_name(0, &None), "img_0.png");
    assert_eq!(
        saved_image_file_name(u64::MAX, "JPEG"),
        Some("img_ffffffffffffffff.jpg".to_string())
    );
    assert_eq!(saved_image_file_name(1, "svg"), None);
    for n in [0u64, 9, 10, 15, 16, 255, 256, 4096, 123456789] {
        assert_eq!(write_hex(n), format!("{:x}", n));
    }
}

#[test]
fn stored_addresses_lead_back() {
    for path in ["/home/a/b.png", "C:/a/b.png"] {
        assert_eq!(
            resolve_local_image_src_path(&stored_file_url(path)),
            Some(path.to_string())
        );
    }
    assert_eq!(stored_file_url("C:\\a\\b.png"), "file:///C:/a/b.png");
}

#[test]
fn data_addresses_are_found_by_the_search() {
    let html = format!("<img src='{}'>", GIF);
    assert_eq!(found(extract_first_image_data_url_from_html(&html, &[])).as_deref(), Some(GIF));
}

#[test]
fn links_without_an_image_leave_markup_alone() {
    let html = "ä<img class='x' src=\"file:///a.png\"><p>b</p><img src='https://h/c'>d";
    assert_eq!(local_image_requests(html).len(), 2);
    assert_eq!(embed_local_images(html, &[]), html);
    assert_eq!(embed_local_images(html, &[ImageReply::Nothing, ImageReply::Nothing]), html);
    assert_eq!(process_local_images_in_html(html, &[], &[]), html);
    assert_eq!(process_local_images_in_html(html, &[], &[None, None]), html);
}

#[test]
fn stored_links_ask_for_their_own_file() {
    let html = "<img src='file:///x/a.png'> <img src='https://h/b.gif'>";
    let paths = [
        Some("C:\\data\\attachments\\img_1.png".to_string()),
        Some("/data/attachments/img_2.gif".to_string()),
    ];
    let stored = process_local_images_in_html(html, &[], &paths);
    assert_eq!(
        local_image_requests(&stored),
        vec![
            Some(ImageSource::File("C:/data/attachments/img_1.png".to_string())),
            Some(ImageSource::File("/data/attachments/img_2.gif".to_string())),
        ]
    );
    assert_eq!(process_local_images_in_html(&stored, &[], &[None, None]), stored);
}

#[test]
fn links_to_files_inside_are_not_stored() {
    let html = "<img src='file:///x/a.png'><img src='https://h/b.gif'><img src='data:,'><img src='C:/y'>";
    assert_eq!(links_to_store(html, &[]), vec![true, true, false, true]);
    assert_eq!(
        links_to_store(html, &[true, true, true, false]),
        vec![false, true, false, true]
    );
    assert_eq!(links_to_store(html, &[false, false, false, true]), vec![true, true, false, false]);
    assert_eq!(links_to_store("<p>none</p>", &[true]), Vec::<bool>::new());
    let path = Some("/data/attachments/img_1.png".to_string());
    assert_eq!(
        process_local_images_in_html(
            "<img src='file:///x/a.png'><img src='file:///x/a.png'>",
            &[true],
            &[path.clone(), path]
        ),
        "<img src='file:///x/a.png'><img src='file:///data/attachments/img_1.png'>"
    );
}

#[test]
fn storing_twice_is_storing_once() {
    let html = "<img src='file:///x/a.png'><img src='https://h/b.gif'><img src='file:///data/attachments/c.png'><img src='https://h/gone'><img src='data:,'>";
    let lies_inside = |html: &str| -> Vec<bool> {
        local_image_requests(html)
            .iter()
            .map(|source| match source {
                Some(ImageSource::File(path)) => path.starts_with("/data/attachments/"),
                _ => false,
            })
            .collect()
    };
    let saved = |n: u32| Some(format!("/data/attachments/img_{}.png", n));
    let once = process_local_images_in_html(
        html,
        &lies_inside(html),
        &[saved(1), saved(2), saved(3), None, saved(5)],
    );
    assert_eq!(
        once,
        "<img src='file:///data/attachments/img_1.png'><img src='file:///data/attachments/img_2.png'><img src='file:///data/attachments/c.png'><img src='https://h/gone'><img src='data:,'>"
    );
    let inside = lies_inside(&once);
    assert_eq!(links_to_store(&once, &inside), vec![false, false, false, true, false]);
    let again = [saved(6), saved(7), saved(8), None, saved(9)];
    assert_eq!(process_local_images_in_html(&once, &inside, &again), once);
}

#[test]
fn replaced_addresses_with_brackets_may_uncover_others() {
    let html = r#"<img src="file:///a>b.png" data-src="C:/y.png">"#;
    assert_eq!(
        local_image_requests(html),
        vec![Some(ImageSource::File("/a>b.png".to_string()))]
    );
    let once = process_local_images_in_html(html, &[], &[Some("/att/img_1.png".to_string())]);
    assert_eq!(once, r#"<img src="file:///att/img_1.png" data-src="C:/y.png">"#);
    assert_eq!(
        local_image_requests(&once),
        vec![Some(ImageSource::File("C:/y.png".to_string()))]
    );
}
