//! Images that markup refers to: where they lie, what they are, and how they are stored.
//!
//! Reading files and fetching addresses is left to the caller. The functions here and in the
//! modules for searches and links say what is wanted, take what came back, and decide on it.

use vstd::prelude::*;

use crate::chars::is_space;
use crate::codecs::{
    base64_encode, base64_text, guess_format, kind_by_mark, law_text_without_escapes_stays,
    parsed_path, percent_decode, percent_decoded, small_form, to_lowercase, url_path,
    ImageKind,
};
use crate::text::{
    before, contains, first_word, is_blank, join2, join3, lemma_begins, lemma_span_is,
    lemma_trimmed_around, lemma_trimmed_parts, lemma_trimmed_twice, lowered, occurs, piece, replace,
    replaced, same, starts_with, str_opt, string_opt, take_before, take_word, to_chars, to_lower,
    trim, trim_start_copies, trimmed, without_leading_copies,
};

verus! {

/// How many bytes an image from another host may have.
pub const REMOTE_IMAGE_MAX_BYTES: usize = 8_388_608;

// ---------------------------------------------------------------------------
// Kinds of images

/// The extension that stands for the image extension `ext`, whatever its case.
pub open spec fn known_ext(ext: Seq<char>) -> Option<Seq<char>> {
    let e = lowered(ext);
    if e == "jpeg"@ {
        Some("jpg"@)
    } else if e == "png"@ || e == "jpg"@ || e == "gif"@ || e == "webp"@ || e == "bmp"@ {
        Some(e)
    } else {
        None
    }
}

/// The extension of the image type `mime`.
pub open spec fn ext_of_mime(mime: Seq<char>) -> Option<Seq<char>> {
    if mime == "image/png"@ {
        Some("png"@)
    } else if mime == "image/jpeg"@ {
        Some("jpg"@)
    } else if mime == "image/gif"@ {
        Some("gif"@)
    } else if mime == "image/webp"@ {
        Some("webp"@)
    } else if mime == "image/bmp"@ {
        Some("bmp"@)
    } else {
        None
    }
}

/// The image type of the extension `ext`.
pub open spec fn mime_of_ext(ext: Seq<char>) -> Seq<char> {
    if ext == "jpg"@ {
        "image/jpeg"@
    } else if ext == "gif"@ {
        "image/gif"@
    } else if ext == "webp"@ {
        "image/webp"@
    } else if ext == "bmp"@ {
        "image/bmp"@
    } else {
        "image/png"@
    }
}

/// The last segment of a path whose segments end in `/`. Empty segments and segments that are a
/// single dot do not count.
pub open spec fn last_segment(path: Seq<char>) -> Seq<char>
    decreases path.len(),
{
    if path.len() == 0 {
        path
    } else if path.last() == '/' {
        last_segment(path.drop_last())
    } else if path.len() > 1 && path.last() == '.' && path[path.len() - 2] == '/' {
        last_segment(path.take(path.len() - 2))
    } else {
        behind_last(path, '/')
    }
}

/// What stands in `s` behind the last `c`, or all of it.
pub open spec fn behind_last(s: Seq<char>, c: char) -> Seq<char>
    decreases s.len(),
{
    if s.len() == 0 || s.last() == c {
        seq![]
    } else {
        behind_last(s.drop_last(), c).push(s.last())
    }
}

/// The extension of the file name `name`: what stands behind its last dot, unless the name begins
/// with that dot or has none.
pub open spec fn name_ext(name: Seq<char>) -> Seq<char> {
    let e = behind_last(name, '.');
    if e.len() + 1 < name.len() {
        e
    } else {
        seq![]
    }
}

/// The image extension in the path of the address `url`.
pub open spec fn ext_of_url(url: Seq<char>) -> Option<Seq<char>> {
    match parsed_path(url) {
        Some(path) => known_ext(name_ext(last_segment(path))),
        None => None,
    }
}

/// The extension of an embeddable format.
pub open spec fn ext_of_kind(kind: ImageKind) -> Option<Seq<char>> {
    match kind {
        ImageKind::Png => Some("png"@),
        ImageKind::Jpeg => Some("jpg"@),
        ImageKind::Gif => Some("gif"@),
        ImageKind::WebP => Some("webp"@),
        ImageKind::Bmp => Some("bmp"@),
        ImageKind::Other => None,
    }
}

/// The extension of the image `bytes`, by its first bytes.
pub open spec fn ext_of_bytes(bytes: Seq<u8>) -> Option<Seq<char>> {
    match kind_by_mark(bytes) {
        Some(kind) => ext_of_kind(kind),
        None => None,
    }
}

/// Finds the extension that stands for an image extension.
pub fn normalize_image_ext(ext: &str) -> (r: Option<&'static str>)
    ensures
        str_opt(r) == known_ext(ext@),
{
    let e = to_lower(ext);
    if same(&e, "jpeg") || same(&e, "jpg") {
        Some("jpg")
    } else if same(&e, "png") {
        Some("png")
    } else if same(&e, "gif") {
        Some("gif")
    } else if same(&e, "webp") {
        Some("webp")
    } else if same(&e, "bmp") {
        Some("bmp")
    } else {
        None
    }
}

/// Finds the extension of an image type.
pub fn image_ext_from_mime(mime: &str) -> (r: Option<&'static str>)
    ensures
        str_opt(r) == ext_of_mime(mime@),
{
    if same(mime, "image/png") {
        Some("png")
    } else if same(mime, "image/jpeg") {
        Some("jpg")
    } else if same(mime, "image/gif") {
        Some("gif")
    } else if same(mime, "image/webp") {
        Some("webp")
    } else if same(mime, "image/bmp") {
        Some("bmp")
    } else {
        None
    }
}

/// Cuts the part of `s[..n]` that stands behind its last `c`.
fn cut_behind(s: &[char], n: usize, c: char) -> (r: String)
    requires
        n <= s@.len(),
    ensures
        r@ == behind_last(s@.take(n as int), c),
{
    let mut i: usize = n;
    assert(s@.subrange(n as int, n as int) == Seq::<char>::empty());
    while i > 0 && s[i - 1] != c
        invariant
            i <= n <= s@.len(),
            behind_last(s@.take(n as int), c) == behind_last(s@.take(i as int), c) + s@.subrange(
                i as int,
                n as int,
            ),
        decreases i,
    {
        assert(s@.take(i as int).drop_last() == s@.take(i - 1));
        assert(s@.subrange(i - 1, n as int) == seq![s@[i - 1]] + s@.subrange(i as int, n as int));
        i = i - 1;
    }
    assert(behind_last(s@.take(i as int), c) == Seq::<char>::empty());
    piece(s, i, n)
}

/// Cuts the last segment of a path.
pub fn cut_last_segment(path: &str) -> (r: String)
    ensures
        r@ == last_segment(path@),
{
    let v = to_chars(path);
    let mut n: usize = v.len();
    assert(v@.take(n as int) == v@);
    loop
        invariant
            v@ == path@,
            n <= v@.len(),
            last_segment(path@) == last_segment(v@.take(n as int)),
        ensures
            n <= v@.len(),
            last_segment(path@) == behind_last(v@.take(n as int), '/'),
        decreases n,
    {
        let ghost cut = v@.take(n as int);
        if n > 0 && v[n - 1] == '/' {
            assert(cut.drop_last() == v@.take(n - 1));
            n = n - 1;
        } else if n > 1 && v[n - 1] == '.' && v[n - 2] == '/' {
            assert(cut.take(cut.len() - 2) == v@.take(n - 2));
            n = n - 2;
        } else {
            break;
        }
    }
    cut_behind(&v, n, '/')
}

/// Cuts the extension of a file name.
pub fn cut_name_ext(name: &str) -> (r: String)
    ensures
        r@ == name_ext(name@),
{
    let v = to_chars(name);
    assert(v@.take(v@.len() as int) == v@);
    let e = cut_behind(&v, v.len(), '.');
    let n: usize = to_chars(&e).len();
    if n < v.len() && n + 1 < v.len() {
        e
    } else {
        String::new()
    }
}

/// Finds the image extension in the path of an address.
pub fn image_ext_from_url(url: &str) -> (r: Option<&'static str>)
    ensures
        str_opt(r) == ext_of_url(url@),
{
    match url_path(url) {
        Some(path) => normalize_image_ext(&cut_name_ext(&cut_last_segment(&path))),
        None => None,
    }
}

/// Finds the extension of an image by its first bytes.
pub fn image_ext_from_bytes(bytes: &[u8]) -> (r: Option<&'static str>)
    ensures
        str_opt(r) == ext_of_bytes(bytes@),
{
    match guess_format(bytes) {
        Some(ImageKind::Png) => Some("png"),
        Some(ImageKind::Jpeg) => Some("jpg"),
        Some(ImageKind::Gif) => Some("gif"),
        Some(ImageKind::WebP) => Some("webp"),
        Some(ImageKind::Bmp) => Some("bmp"),
        Some(ImageKind::Other) => None,
        None => None,
    }
}

/// Finds the image type of an extension.
pub fn image_mime_by_ext(ext: &str) -> (r: &'static str)
    ensures
        r@ == mime_of_ext(ext@),
{
    if same(ext, "jpg") {
        "image/jpeg"
    } else if same(ext, "gif") {
        "image/gif"
    } else if same(ext, "webp") {
        "image/webp"
    } else if same(ext, "bmp") {
        "image/bmp"
    } else {
        "image/png"
    }
}

// ---------------------------------------------------------------------------
// Where images lie

/// The address of an image on another host that `src` gives.
pub open spec fn remote_url(src: Seq<char>) -> Option<Seq<char>> {
    let t = trimmed(src);
    if "http://"@.is_prefix_of(t) || "https://"@.is_prefix_of(t) {
        Some(t)
    } else if "//"@.is_prefix_of(t) {
        Some("https:"@ + t)
    } else {
        None
    }
}

/// `src` refers to a file: by a file address, or by a path that begins with a drive.
pub open spec fn is_local(src: Seq<char>) -> bool {
    "file://"@.is_prefix_of(src) || (src.len() > 2 && src[1] == ':' && (src[2] == '\\' || src[2]
        == '/'))
}

/// The path in `src`, without the mark of a file address and without the slash before a drive.
pub open spec fn raw_local_path(src: Seq<char>) -> Seq<char> {
    if "file://"@.is_prefix_of(src) {
        let raw = without_leading_copies(src, "file://"@);
        if raw.len() > 2 && raw[0] == '/' && raw[2] == ':' {
            raw.skip(1)
        } else {
            raw
        }
    } else {
        src
    }
}

/// The path of the file that `src` refers to: decoded, without query and fragment.
pub open spec fn local_path(src: Seq<char>) -> Option<Seq<char>> {
    if is_local(src) {
        let raw = raw_local_path(src);
        let decoded = match percent_decoded(raw) {
            Some(d) => d,
            None => raw,
        };
        Some(before(before(decoded, '?'), '#'))
    } else {
        None
    }
}

/// The address that the value `src` of an image attribute stands for: the first one of a list,
/// unless it holds the data itself.
pub open spec fn src_candidate(src: Seq<char>) -> Option<Seq<char>> {
    let t = trimmed(src);
    let head = before(t, ',');
    let first = if trimmed(head).len() == 0 {
        t
    } else {
        first_word(head)
    };
    let c = if "data:"@.is_prefix_of(t) {
        t
    } else {
        replaced(trimmed(first), "&amp;"@, "&"@)
    };
    if t.len() == 0 || c.len() == 0 || "blob:"@.is_prefix_of(c) || "javascript:"@.is_prefix_of(c) {
        None
    } else {
        Some(c)
    }
}

/// Something in `src` says that the image is a GIF.
pub open spec fn names_gif(src: Seq<char>) -> bool {
    let s = lowered(trimmed(src));
    occurs(s, ".gif"@) || occurs(s, "format=gif"@) || occurs(s, "fm=gif"@) || occurs(
        s,
        "image/gif"@,
    )
}

/// Finds the address of an image on another host.
pub fn normalize_remote_img_url(src: &str) -> (r: Option<String>)
    ensures
        string_opt(r) == remote_url(src@),
{
    let t = trim(src);
    if starts_with(&t, "http://") || starts_with(&t, "https://") {
        return Some(t);
    }
    if starts_with(&t, "//") {
        return Some(join2("https:", &t));
    }
    None
}

/// Tells whether `src` refers to a file.
fn refers_to_file(src: &str) -> (r: bool)
    ensures
        r == is_local(src@),
{
    if starts_with(src, "file://") {
        return true;
    }
    let v = to_chars(src);
    v.len() > 2 && v[1] == ':' && (v[2] == '\\' || v[2] == '/')
}

/// Cuts the path out of `src`.
fn cut_local_path(src: &str) -> (r: String)
    ensures
        r@ == raw_local_path(src@),
{
    if !starts_with(src, "file://") {
        return src.to_owned();
    }
    proof {
        reveal_strlit("file://");
    }
    let raw = trim_start_copies(src, "file://");
    let v = to_chars(&raw);
    if v.len() > 2 && v[0] == '/' && v[2] == ':' {
        assert(v@.subrange(1, v@.len() as int) == raw@.skip(1));
        piece(&v, 1, v.len())
    } else {
        raw
    }
}

/// Finds the path of the file that `src` refers to. Whether there is such a file is not asked.
pub fn resolve_local_image_src_path(src: &str) -> (r: Option<String>)
    ensures
        string_opt(r) == local_path(src@),
{
    if !refers_to_file(src) {
        return None;
    }
    let raw = cut_local_path(src);
    let decoded = match percent_decode(&raw) {
        Some(d) => d,
        None => raw,
    };
    Some(take_before(&take_before(&decoded, '?'), '#'))
}

/// Finds the address that the value of an image attribute stands for.
pub fn normalize_html_image_src_candidate(src: &str) -> (r: Option<String>)
    ensures
        string_opt(r) == src_candidate(src@),
{
    let t = trim(src);
    if t.as_str().is_empty() {
        return None;
    }
    proof {
        reveal_strlit("&amp;");
    }
    let c = if starts_with(&t, "data:") {
        t
    } else {
        let head = take_before(&t, ',');
        let first = if is_blank(&head) {
            t
        } else {
            take_word(&head)
        };
        replace(&trim(&first), "&amp;", "&")
    };
    if c.as_str().is_empty() || starts_with(&c, "blob:") || starts_with(&c, "javascript:") {
        None
    } else {
        Some(c)
    }
}

/// Tells whether something in `src` says that the image is a GIF.
pub fn looks_like_gif_image_src(src: &str) -> (r: bool)
    ensures
        r == names_gif(src@),
{
    let s = to_lower(&trim(src));
    contains(&s, ".gif") || contains(&s, "format=gif") || contains(&s, "fm=gif") || contains(
        &s,
        "image/gif",
    )
}

// ---------------------------------------------------------------------------
// What came back

/// Where an image is to be had.
#[derive(Debug, PartialEq, Eq)]
pub enum ImageSource {
    /// It stands in this data address.
    Data(String),
    /// It lies in the file at this path.
    File(String),
    /// It lies at this address of another host.
    Remote(String),
}

/// What an `ImageSource` says.
pub enum ImageSourceView {
    /// It stands in this data address.
    Data(Seq<char>),
    /// It lies in the file at this path.
    File(Seq<char>),
    /// It lies at this address of another host.
    Remote(Seq<char>),
}

impl View for ImageSource {
    type V = ImageSourceView;

    open spec fn view(&self) -> ImageSourceView {
        match self {
            ImageSource::Data(s) => ImageSourceView::Data(s@),
            ImageSource::File(s) => ImageSourceView::File(s@),
            ImageSource::Remote(s) => ImageSourceView::Remote(s@),
        }
    }
}

/// What came of asking for an image.
#[derive(Debug, PartialEq, Eq)]
pub enum ImageReply {
    /// Nothing could be had.
    Nothing,
    /// A file was read. Its name has this extension.
    File {
        /// What the file holds.
        bytes: Vec<u8>,
        /// The extension of its name.
        extension: Option<String>,
    },
    /// Another host answered.
    Remote(RemoteReply),
}

/// What a source says, if there is one.
pub open spec fn source_opt(s: Option<ImageSource>) -> Option<ImageSourceView> {
    match s {
        Some(s) => Some(s@),
        None => None,
    }
}

/// The answer of another host.
#[derive(Debug, PartialEq, Eq)]
pub struct RemoteReply {
    /// The status says success.
    pub success: bool,
    /// The length that the host gave.
    pub content_length: Option<u64>,
    /// The header `Content-Type`.
    pub content_type: Option<String>,
    /// What was read, where reading did not fail.
    pub body: Option<Vec<u8>>,
}

/// An answer with this status and this length is worth reading.
pub open spec fn is_readable(success: bool, content_length: Option<u64>) -> bool {
    success && match content_length {
        Some(n) => n <= REMOTE_IMAGE_MAX_BYTES,
        None => true,
    }
}

/// The media type in the header `Content-Type`, without its parameters.
pub open spec fn media_type(content_type: Option<String>) -> Seq<char> {
    match content_type {
        Some(s) => trimmed(before(s@, ';')),
        None => seq![],
    }
}

/// The extension of the image that the host of `url` answered with, where the answer is an image:
/// by its media type, else by the address, else by its first bytes.
pub open spec fn remote_ext(url: Seq<char>, reply: RemoteReply) -> Option<Seq<char>> {
    match reply.body {
        Some(bytes) => if is_readable(reply.success, reply.content_length) && 0 < bytes@.len()
            <= REMOTE_IMAGE_MAX_BYTES {
            match ext_of_mime(media_type(reply.content_type)) {
                Some(e) => Some(e),
                None => match ext_of_url(url) {
                    Some(e) => Some(e),
                    None => ext_of_bytes(bytes@),
                },
            }
        } else {
            None
        },
        None => None,
    }
}

/// Tells whether an answer is worth reading.
pub fn remote_reply_is_readable(success: bool, content_length: Option<u64>) -> (r: bool)
    ensures
        r == is_readable(success, content_length),
{
    success && match content_length {
        Some(n) => n <= REMOTE_IMAGE_MAX_BYTES as u64,
        None => true,
    }
}

/// Cuts the media type out of the header `Content-Type`.
fn cut_media_type(content_type: &Option<String>) -> (r: String)
    ensures
        r@ == media_type(*content_type),
{
    match content_type {
        Some(s) => trim(&take_before(s, ';')),
        None => String::new(),
    }
}

/// Judges the answer of the host of `url` and finds the extension of the image in it.
pub fn fetch_remote_image(url: &str, reply: &RemoteReply) -> (r: Option<&'static str>)
    ensures
        str_opt(r) == remote_ext(url@, *reply),
{
    if !remote_reply_is_readable(reply.success, reply.content_length) {
        return None;
    }
    let bytes = match &reply.body {
        Some(bytes) => bytes,
        None => return None,
    };
    if bytes.len() == 0 || bytes.len() > REMOTE_IMAGE_MAX_BYTES {
        return None;
    }
    let by_mime = image_ext_from_mime(&cut_media_type(&reply.content_type));
    if by_mime.is_some() {
        return by_mime;
    }
    let by_url = image_ext_from_url(url);
    if by_url.is_some() {
        return by_url;
    }
    image_ext_from_bytes(bytes)
}

// ---------------------------------------------------------------------------
// Data addresses

/// The address that holds `bytes`, of the type `mime`, themselves.
pub open spec fn data_url(mime: Seq<char>, bytes: Seq<u8>) -> Seq<char> {
    "data:"@ + mime + ";base64,"@ + base64_text(bytes)
}

/// The data address of the image `bytes`, where its format is known.
pub open spec fn image_data_url(bytes: Seq<u8>) -> Option<Seq<char>> {
    match ext_of_bytes(bytes) {
        Some(e) => Some(data_url(mime_of_ext(e), bytes)),
        None => None,
    }
}

/// The data address of the image `bytes`, where it is a GIF.
pub open spec fn gif_data_url(bytes: Seq<u8>) -> Option<Seq<char>> {
    if ext_of_bytes(bytes) == Some("gif"@) {
        Some(data_url("image/gif"@, bytes))
    } else {
        None
    }
}

/// Writes the data address of `bytes`.
pub fn write_data_url(mime: &str, bytes: &[u8]) -> (r: String)
    ensures
        r@ == data_url(mime@, bytes@),
{
    join2(&join3("data:", mime, ";base64,"), &base64_encode(bytes))
}

/// Writes the data address of a GIF.
pub fn gif_data_url_from_bytes(bytes: &[u8]) -> (r: Option<String>)
    ensures
        string_opt(r) == gif_data_url(bytes@),
{
    match image_ext_from_bytes(bytes) {
        Some(ext) => if same(ext, "gif") {
            Some(write_data_url("image/gif", bytes))
        } else {
            None
        },
        None => None,
    }
}

/// Writes the data address of an image.
pub fn image_data_url_from_bytes(bytes: &[u8]) -> (r: Option<String>)
    ensures
        string_opt(r) == image_data_url(bytes@),
{
    match image_ext_from_bytes(bytes) {
        Some(ext) => Some(write_data_url(image_mime_by_ext(ext), bytes)),
        None => None,
    }
}

// ---------------------------------------------------------------------------
// Stored images

/// The extension of a stored or embedded file: that of its name in small letters, or `png`.
pub open spec fn file_ext(extension: Option<String>) -> Seq<char> {
    match extension {
        Some(e) => small_form(e@),
        None => "png"@,
    }
}

/// The image type of a file with the extension `ext`.
pub open spec fn file_mime(ext: Seq<char>) -> Seq<char> {
    if ext == "jpg"@ || ext == "jpeg"@ {
        "image/jpeg"@
    } else if ext == "gif"@ {
        "image/gif"@
    } else if ext == "webp"@ {
        "image/webp"@
    } else if ext == "bmp"@ {
        "image/bmp"@
    } else if ext == "svg"@ {
        "image/svg+xml"@
    } else {
        "image/png"@
    }
}

/// The address of the file at `path`.
pub open spec fn file_url(path: Seq<char>) -> Seq<char> {
    let p = replaced(path, "\\"@, "/"@);
    if "/"@.is_prefix_of(p) {
        "file://"@ + p
    } else {
        "file:///"@ + p
    }
}

/// Finds the extension of a stored or embedded file.
pub fn find_file_ext(extension: &Option<String>) -> (r: String)
    ensures
        r@ == file_ext(*extension),
{
    match extension {
        Some(e) => to_lowercase(e),
        None => "png".to_owned(),
    }
}

/// Finds the image type of a file.
pub fn file_mime_by_ext(ext: &str) -> (r: &'static str)
    ensures
        r@ == file_mime(ext@),
{
    if same(ext, "jpg") || same(ext, "jpeg") {
        "image/jpeg"
    } else if same(ext, "gif") {
        "image/gif"
    } else if same(ext, "webp") {
        "image/webp"
    } else if same(ext, "bmp") {
        "image/bmp"
    } else if same(ext, "svg") {
        "image/svg+xml"
    } else {
        "image/png"
    }
}

/// Writes the address of the file at `path`.
pub fn stored_file_url(path: &str) -> (r: String)
    ensures
        r@ == file_url(path@),
{
    proof {
        reveal_strlit("\\");
    }
    let p = replace(path, "\\", "/");
    if starts_with(&p, "/") {
        join2("file://", &p)
    } else {
        join2("file:///", &p)
    }
}

/// The digit that stands for `d` in base sixteen.
pub open spec fn hex_digit(d: int) -> char {
    if d < 10 {
        ('0' as int + d) as char
    } else {
        ('a' as int + d - 10) as char
    }
}

/// `n` in base sixteen, without zeros in front.
pub open spec fn hex(n: nat) -> Seq<char>
    decreases n,
{
    if n < 16 {
        seq![hex_digit(n as int)]
    } else {
        hex(n / 16).push(hex_digit((n % 16) as int))
    }
}

/// The name of the stored image with this hash and this extension.
pub open spec fn image_file_name(hash: u64, ext: Seq<char>) -> Seq<char> {
    "img_"@ + hex(hash as nat) + "."@ + ext
}

/// Writes a digit in base sixteen.
fn write_hex_digit(d: u8) -> (c: char)
    requires
        d < 16,
    ensures
        c == hex_digit(d as int),
{
    if d < 10 {
        (48 + d) as char
    } else {
        (87 + d) as char
    }
}

/// Writes `n` in base sixteen.
pub fn write_hex(n: u64) -> (r: String)
    ensures
        r@ == hex(n as nat),
    decreases n,
{
    if n < 16 {
        let mut r = String::new();
        r.push(write_hex_digit(n as u8));
        assert(r@ == hex(n as nat));
        r
    } else {
        let mut r = write_hex(n / 16);
        r.push(write_hex_digit((n % 16) as u8));
        r
    }
}

/// Names the stored copy of a file whose name has the extension `extension`.
pub fn local_image_file_name(hash: u64, extension: &Option<String>) -> (r: String)
    ensures
        r@ == image_file_name(hash, file_ext(*extension)),
{
    join2(&join3("img_", &write_hex(hash), "."), &find_file_ext(extension))
}

/// Names the stored copy of an image with the extension `ext`, where that is known.
pub fn saved_image_file_name(hash: u64, ext: &str) -> (r: Option<String>)
    ensures
        string_opt(r) == match known_ext(ext@) {
            Some(e) => Some(image_file_name(hash, e)),
            None => None,
        },
{
    match normalize_image_ext(ext) {
        Some(e) => Some(join2(&join3("img_", &write_hex(hash), "."), e)),
        None => None,
    }
}

// ---------------------------------------------------------------------------
// Laws

/// The extension that stands for an image extension stands for itself, and its image type leads
/// back to it.
pub proof fn law_image_type_leads_back(ext: Seq<char>)
    ensures
        known_ext(ext) matches Some(e) ==> known_ext(e) == Some(e) && ext_of_mime(mime_of_ext(e))
            == Some(e),
{
    reveal_strlit("png");
    reveal_strlit("jpg");
    reveal_strlit("jpeg");
    reveal_strlit("gif");
    reveal_strlit("webp");
    reveal_strlit("bmp");
    if let Some(e) = known_ext(ext) {
        assert(lowered(e) =~= e);
        assert("png"@[0] == 'p' && "gif"@[0] == 'g' && "bmp"@[0] == 'b' && "jpg"@[0] == 'j');
        assert("webp"@.len() == 4 && "jpeg"@.len() == 4 && "jpeg"@[0] == 'j' && "webp"@[0] == 'w');
        lemma_image_types_differ();
    }
}

/// The image types that are known are different ones.
proof fn lemma_image_types_differ()
    ensures
        ext_of_mime("image/png"@) == Some("png"@),
        ext_of_mime("image/jpeg"@) == Some("jpg"@),
        ext_of_mime("image/gif"@) == Some("gif"@),
        ext_of_mime("image/webp"@) == Some("webp"@),
        ext_of_mime("image/bmp"@) == Some("bmp"@),
{
    reveal_strlit("image/png");
    reveal_strlit("image/jpeg");
    reveal_strlit("image/gif");
    reveal_strlit("image/webp");
    reveal_strlit("image/bmp");
    assert("image/png"@[6] == 'p');
    assert("image/jpeg"@[6] == 'j');
    assert("image/gif"@[6] == 'g');
    assert("image/webp"@[6] == 'w');
    assert("image/bmp"@[6] == 'b');
}

/// What refers to a file refers to no other host.
pub proof fn law_local_is_not_remote(src: Seq<char>)
    requires
        is_local(src),
    ensures
        remote_url(src) is None,
{
    reveal_strlit("file://");
    reveal_strlit("http://");
    reveal_strlit("https://");
    reveal_strlit("//");
    let t = trimmed(src);
    let (v, w) = lemma_trimmed_parts(src);
    if remote_url(src) is Some {
        if "http://"@.is_prefix_of(t) {
            lemma_begins("http://"@, t);
            assert("http://"@[0] == 'h' && "http://"@[1] == 't');
        } else if "https://"@.is_prefix_of(t) {
            lemma_begins("https://"@, t);
            assert("https://"@[0] == 'h' && "https://"@[1] == 't');
        } else {
            lemma_begins("//"@, t);
            assert("//"@[0] == '/' && "//"@[1] == '/');
        }
        assert(t.len() >= 2 && (t[0] == 'h' && t[1] == 't' || t[0] == '/' && t[1] == '/'));
        assert forall|i: int| 0 <= i < t.len() implies #[trigger] t[i] == src[v.len() + i] by {
            assert((v + t + w)[v.len() + i] == t[i]);
        }
        assert forall|i: int| 0 <= i < v.len() implies is_space(#[trigger] src[i]) by {
            assert((v + t + w)[i] == v[i]);
        }
        let k = v.len() as int;
        assert(t[0] == src[k] && t[1] == src[k + 1]);
        if "file://"@.is_prefix_of(src) {
            lemma_begins("file://"@, src);
            assert("file://"@[0] == 'f');
            assert(!is_space('f'));
        } else {
            assert(!is_space(':'));
            if v.len() >= 2 {
                assert(is_space(src[1]));
            }
        }
    }
}

/// The address of an image on another host begins with one of the two schemes of the web, and it
/// stands for itself.
pub proof fn law_remote_address_stands_for_itself(src: Seq<char>)
    ensures
        remote_url(src) matches Some(u) ==> ("http://"@.is_prefix_of(u) || "https://"@.is_prefix_of(
            u,
        )) && remote_url(u) == Some(u),
{
    reveal_strlit("https://");
    reveal_strlit("https:");
    reveal_strlit("//");
    let t = trimmed(src);
    lemma_trimmed_twice(src);
    let (_, _) = lemma_trimmed_parts(src);
    if let Some(u) = remote_url(src) {
        if u != t {
            let e = Seq::<char>::empty();
            lemma_begins("//"@, t);
            assert("//"@[0] == '/' && "//"@[1] == '/');
            assert(u.subrange(0, 8) =~= "https://"@);
            assert(u.last() == t.last());
            lemma_trimmed_around(e, u, e);
            assert(e + u + e == u);
        }
    }
}

/// The address of a stored file begins with the mark of a file address and a slash.
pub proof fn law_file_address_is_local(path: Seq<char>)
    ensures
        "file:///"@.is_prefix_of(file_url(path)),
        is_local(file_url(path)),
{
    reveal_strlit("file://");
    reveal_strlit("file:///");
    reveal_strlit("/");
    let p = replaced(path, "\\"@, "/"@);
    let u = file_url(path);
    if "/"@.is_prefix_of(p) {
        lemma_begins("/"@, p);
        assert("/"@[0] == '/');
        assert(u.subrange(0, 8) =~= "file:///"@);
    } else {
        assert(u.subrange(0, 8) =~= "file:///"@);
    }
    assert(u.subrange(0, 7) =~= "file://"@);
}

/// The path begins with a slash and no drive behind it, or with a drive.
pub open spec fn is_absolute(p: Seq<char>) -> bool {
    (p.len() > 0 && p[0] == '/' && !(p.len() > 2 && p[2] == ':')) || (p.len() > 1 && p[0] != '/'
        && p[1] == ':')
}

/// The address of a stored file gives its path, with slashes in it.
proof fn lemma_file_address(path: Seq<char>)
    requires
        is_absolute(replaced(path, "\\"@, "/"@)),
    ensures
        raw_local_path(file_url(path)) == replaced(path, "\\"@, "/"@),
{
    reveal_strlit("file://");
    reveal_strlit("file:///");
    reveal_strlit("/");
    law_file_address_is_local(path);
    let p = replaced(path, "\\"@, "/"@);
    let u = file_url(path);
    let rest = u.skip(7);
    if p[0] == '/' {
        assert("/"@ =~= p.subrange(0, 1));
        assert(rest == p);
    } else {
        if "/"@.is_prefix_of(p) {
            lemma_begins("/"@, p);
            assert("/"@[0] == '/');
        }
        assert(rest == "/"@ + p);
        assert(rest.skip(1) == p);
    }
    assert(rest[0] == '/');
    if "file://"@.is_prefix_of(rest) {
        lemma_begins("file://"@, rest);
        assert("file://"@[0] == 'f');
    }
    assert(u.subrange(0, 7) =~= "file://"@);
    assert(without_leading_copies(rest, "file://"@) == rest);
    assert(without_leading_copies(u, "file://"@) == rest);
}

/// The address of a stored file leads back to its path, with slashes in it, unless that holds what
/// is taken for an escape, a query or a fragment.
pub proof fn law_file_address_leads_back(path: Seq<char>)
    requires
        is_absolute(replaced(path, "\\"@, "/"@)),
        !replaced(path, "\\"@, "/"@).contains('%'),
        !replaced(path, "\\"@, "/"@).contains('?'),
        !replaced(path, "\\"@, "/"@).contains('#'),
    ensures
        local_path(file_url(path)) == Some(replaced(path, "\\"@, "/"@)),
{
    let p = replaced(path, "\\"@, "/"@);
    lemma_file_address(path);
    law_file_address_is_local(path);
    law_text_without_escapes_stays(p);
    lemma_nothing_before(p, '?');
    lemma_nothing_before(p, '#');
}

/// A text without `c` stands before its first `c` whole.
proof fn lemma_nothing_before(s: Seq<char>, c: char)
    requires
        !s.contains(c),
    ensures
        before(s, c) == s,
{
    lemma_span_is(s, c, s.len() as int);
    assert(s.take(s.len() as int) == s);
}

/// Different numbers are written differently in base sixteen.
pub proof fn law_hex_tells_numbers_apart(a: nat, b: nat)
    requires
        hex(a) == hex(b),
    ensures
        a == b,
    decreases a,
{
    if a < 16 {
        assert(b < 16) by {
            if b >= 16 {
                lemma_hex_len(b / 16);
            }
        }
        assert(hex(a)[0] == hex_digit(a as int));
        assert(hex(b)[0] == hex_digit(b as int));
        lemma_hex_digit(a as int, b as int);
    } else {
        if b < 16 {
            lemma_hex_len(a / 16);
        }
        assert(hex(a).last() == hex_digit((a % 16) as int));
        assert(hex(b).last() == hex_digit((b % 16) as int));
        assert(hex(a).drop_last() == hex(a / 16));
        assert(hex(b).drop_last() == hex(b / 16));
        lemma_hex_digit((a % 16) as int, (b % 16) as int);
        law_hex_tells_numbers_apart(a / 16, b / 16);
        assert(a == 16 * (a / 16) + a % 16);
        assert(b == 16 * (b / 16) + b % 16);
    }
}

/// A number has a digit.
proof fn lemma_hex_len(n: nat)
    ensures
        hex(n).len() > 0,
{
}

/// Different digits are written differently.
proof fn lemma_hex_digit(a: int, b: int)
    requires
        0 <= a < 16,
        0 <= b < 16,
    ensures
        hex_digit(a) == hex_digit(b) ==> a == b,
{
}

/// Images with different hashes are stored under different names.
pub proof fn law_image_file_names_differ(a: u64, b: u64, ext: Seq<char>)
    requires
        a != b,
    ensures
        image_file_name(a, ext) != image_file_name(b, ext),
{
    if image_file_name(a, ext) == image_file_name(b, ext) {
        let x = hex(a as nat);
        let y = hex(b as nat);
        let n = "img_"@.len() as int;
        assert(image_file_name(a, ext).len() == n + x.len() + "."@.len() + ext.len());
        assert(image_file_name(b, ext).len() == n + y.len() + "."@.len() + ext.len());
        assert(image_file_name(a, ext).subrange(n, n + x.len()) == x);
        assert(image_file_name(b, ext).subrange(n, n + y.len()) == y);
        law_hex_tells_numbers_apart(a as nat, b as nat);
    }
}

} // verus!
