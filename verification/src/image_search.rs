//! The search for the first image in markup or text that can be had as a data address.

use vstd::prelude::*;

use crate::images::{
    data_url, ext_of_bytes, fetch_remote_image, gif_data_url, gif_data_url_from_bytes,
    image_data_url, image_data_url_from_bytes, local_path, looks_like_gif_image_src, mime_of_ext,
    names_gif, normalize_html_image_src_candidate, normalize_remote_img_url, remote_ext, remote_url,
    resolve_local_image_src_path, source_opt, src_candidate, ImageReply, ImageSource,
    ImageSourceView,
};
use crate::regexes::{
    cut_match, cut_match_group, group_text, group_views, groups, groups_fit, match_text,
    pattern_groups, pattern_ranges, ranges, ranges_fit,
};
use crate::text::{is_blank, same, starts_with, string_opt, strings, trim, trimmed};

verus! {

/// The tag of an image.
pub const IMG_TAG: &'static str = r"(?is)<img\b[^>]*>";

/// An attribute that gives the address of an image.
pub const IMG_ATTR: &'static str =
    r#"(?is)(src|data-src|data-original|data-actualsrc|srcset)\s*=\s*["']([^"']+)["']"#;

/// How far a search for an image has come.
#[derive(Debug, PartialEq, Eq)]
pub enum ImageSearch {
    /// It has ended, with this data address or with nothing.
    Done(Option<String>),
    /// It goes on with the reply to this.
    Ask(ImageSource),
}

/// What an `ImageSearch` says.
pub enum ImageSearchView {
    /// It has ended, with this data address or with nothing.
    Done(Option<Seq<char>>),
    /// It goes on with the reply to this.
    Ask(ImageSourceView),
}

impl View for ImageSearch {
    type V = ImageSearchView;

    open spec fn view(&self) -> ImageSearchView {
        match self {
            ImageSearch::Done(r) => ImageSearchView::Done(string_opt(*r)),
            ImageSearch::Ask(s) => ImageSearchView::Ask(s@),
        }
    }
}

/// What the sources say.
pub open spec fn source_views(v: Seq<ImageSource>) -> Seq<ImageSourceView> {
    v.map_values(|s: ImageSource| s@)
}

/// Where the image at the address `src` is to be had, if it may be an animated one.
pub open spec fn animated_source(src: Seq<char>) -> Option<ImageSourceView> {
    let t = trimmed(src);
    if "data:image/gif"@.is_prefix_of(t) {
        Some(ImageSourceView::Data(t))
    } else if !names_gif(t) {
        None
    } else {
        match local_path(t) {
            Some(path) => Some(ImageSourceView::File(path)),
            None => match remote_url(t) {
                Some(url) => Some(ImageSourceView::Remote(url)),
                None => None,
            },
        }
    }
}

/// Where the image at the address `src` is to be had without asking another host.
pub open spec fn nearby_source(src: Seq<char>) -> Option<ImageSourceView> {
    let t = trimmed(src);
    if "data:image/"@.is_prefix_of(t) {
        Some(ImageSourceView::Data(t))
    } else {
        match local_path(t) {
            Some(path) => Some(ImageSourceView::File(path)),
            None => None,
        }
    }
}

/// Where the image of an attribute with the value `value` is to be had.
pub open spec fn value_source(value: Seq<char>, animated: bool) -> Option<ImageSourceView> {
    match src_candidate(value) {
        Some(c) => if animated {
            animated_source(c)
        } else {
            nearby_source(c)
        },
        None => None,
    }
}

/// Where the images of attributes with these values are to be had, in their order.
pub open spec fn value_sources(values: Seq<Seq<char>>, animated: bool) -> Seq<ImageSourceView>
    decreases values.len(),
{
    if values.len() == 0 {
        seq![]
    } else {
        let rest = value_sources(values.drop_last(), animated);
        match value_source(values.last(), animated) {
            Some(s) => rest.push(s),
            None => rest,
        }
    }
}

/// The data address that a reply to `source` gives.
pub open spec fn answered(
    source: ImageSourceView,
    reply: ImageReply,
    animated: bool,
) -> Option<Seq<char>> {
    match (source, reply) {
        (ImageSourceView::File(_), ImageReply::File { bytes, .. }) => if animated {
            gif_data_url(bytes@)
        } else {
            image_data_url(bytes@)
        },
        (ImageSourceView::Remote(url), ImageReply::Remote(r)) => if remote_ext(url, r) == Some(
            "gif"@,
        ) {
            gif_data_url(r.body->0@)
        } else {
            None
        },
        _ => None,
    }
}

/// How far the search through `sources` comes with these replies. One that holds its data ends the
/// search; each other one takes the next reply, and ends the search where that gives an image.
pub open spec fn searched(
    sources: Seq<ImageSourceView>,
    replies: Seq<ImageReply>,
    animated: bool,
) -> ImageSearchView
    decreases sources.len(),
{
    if sources.len() == 0 {
        ImageSearchView::Done(None)
    } else {
        match sources[0] {
            ImageSourceView::Data(url) => ImageSearchView::Done(Some(url)),
            _ => if replies.len() == 0 {
                ImageSearchView::Ask(sources[0])
            } else {
                match answered(sources[0], replies[0], animated) {
                    Some(url) => ImageSearchView::Done(Some(url)),
                    None => searched(sources.drop_first(), replies.drop_first(), animated),
                }
            },
        }
    }
}

/// The values of the image attributes of a tag.
pub open spec fn tag_values(tag: Seq<char>) -> Seq<Seq<char>> {
    pattern_groups(IMG_ATTR@, tag).map_values(
        |g: Seq<Option<(usize, usize)>>| group_text(tag, g, 2),
    )
}

/// The values of the image attributes in the first `n` of the tags at `rs`.
pub open spec fn tags_values(html: Seq<char>, rs: Seq<(usize, usize)>, n: int) -> Seq<Seq<char>>
    decreases n,
{
    if n <= 0 {
        seq![]
    } else {
        tags_values(html, rs, n - 1) + tag_values(match_text(html, rs, n - 1))
    }
}

/// The values of the image attributes of all image tags in `html`.
pub open spec fn img_values(html: Seq<char>) -> Seq<Seq<char>> {
    let rs = pattern_ranges(IMG_TAG@, html);
    tags_values(html, rs, rs.len() as int)
}

/// How far the search for an image in `html` comes.
pub open spec fn html_searched(
    html: Seq<char>,
    replies: Seq<ImageReply>,
    animated: bool,
) -> ImageSearchView {
    if trimmed(html).len() == 0 {
        ImageSearchView::Done(None)
    } else {
        searched(value_sources(img_values(html), animated), replies, animated)
    }
}

/// Finds where an image is to be had that may be an animated one.
pub fn resolve_animated_image_src(src: &str) -> (r: Option<ImageSource>)
    ensures
        source_opt(r) == animated_source(src@),
{
    let t = trim(src);
    if starts_with(&t, "data:image/gif") {
        return Some(ImageSource::Data(t));
    }
    if !looks_like_gif_image_src(&t) {
        return None;
    }
    match resolve_local_image_src_path(&t) {
        Some(path) => Some(ImageSource::File(path)),
        None => match normalize_remote_img_url(&t) {
            Some(url) => Some(ImageSource::Remote(url)),
            None => None,
        },
    }
}

/// Finds where an image is to be had without asking another host.
pub fn resolve_image_src(src: &str) -> (r: Option<ImageSource>)
    ensures
        source_opt(r) == nearby_source(src@),
{
    let t = trim(src);
    if starts_with(&t, "data:image/") {
        return Some(ImageSource::Data(t));
    }
    match resolve_local_image_src_path(&t) {
        Some(path) => Some(ImageSource::File(path)),
        None => None,
    }
}

/// Finds where the images of attributes with these values are to be had.
pub fn image_sources(values: &[String], animated: bool) -> (r: Vec<ImageSource>)
    ensures
        source_views(r@) == value_sources(strings(values@), animated),
{
    let mut r: Vec<ImageSource> = Vec::new();
    let ghost vs = strings(values@);
    assert(source_views(r@) == Seq::<ImageSourceView>::empty());
    for i in 0..values.len()
        invariant
            vs == strings(values@),
            source_views(r@) == value_sources(vs.take(i as int), animated),
    {
        assert(vs.take(i + 1).drop_last() == vs.take(i as int));
        assert(vs.take(i + 1).last() == values@[i as int]@);
        if let Some(c) = normalize_html_image_src_candidate(&values[i]) {
            let source = if animated {
                resolve_animated_image_src(&c)
            } else {
                resolve_image_src(&c)
            };
            if let Some(s) = source {
                let ghost done = r@;
                r.push(s);
                assert(source_views(r@) == source_views(done).push(s@));
            }
        }
    }
    assert(vs.take(vs.len() as int) == vs);
    r
}

/// Reads the data address out of a reply.
pub fn judge_reply(source: &ImageSource, reply: &ImageReply, animated: bool) -> (r: Option<String>)
    ensures
        string_opt(r) == answered(source@, *reply, animated),
{
    match (source, reply) {
        (ImageSource::File(_), ImageReply::File { bytes, .. }) => if animated {
            gif_data_url_from_bytes(bytes)
        } else {
            image_data_url_from_bytes(bytes)
        },
        (ImageSource::Remote(url), ImageReply::Remote(reply)) => {
            match (fetch_remote_image(url, reply), &reply.body) {
                (Some(ext), Some(bytes)) => if same(ext, "gif") {
                    gif_data_url_from_bytes(bytes)
                } else {
                    None
                },
                _ => None,
            }
        },
        _ => None,
    }
}

/// A copy of a source.
fn copy_source(source: &ImageSource) -> (r: ImageSource)
    ensures
        r@ == source@,
{
    match source {
        ImageSource::Data(s) => ImageSource::Data(s.as_str().to_owned()),
        ImageSource::File(s) => ImageSource::File(s.as_str().to_owned()),
        ImageSource::Remote(s) => ImageSource::Remote(s.as_str().to_owned()),
    }
}

/// Goes through `sources` with the replies that have come so far, and tells what to ask for next or
/// what was found.
pub fn search_images(sources: &[ImageSource], replies: &[ImageReply], animated: bool) -> (r:
    ImageSearch)
    ensures
        r@ == searched(source_views(sources@), replies@, animated),
{
    let ghost all = source_views(sources@);
    assert(all.skip(0) == all);
    assert(replies@.skip(0) == replies@);
    for i in 0..sources.len()
        invariant
            all == source_views(sources@),
            i <= replies@.len(),
            searched(all, replies@, animated) == searched(
                all.skip(i as int),
                replies@.skip(i as int),
                animated,
            ),
    {
        assert(all.skip(i as int)[0] == sources@[i as int]@);
        assert(all.skip(i as int).drop_first() == all.skip(i + 1));
        if let ImageSource::Data(url) = &sources[i] {
            return ImageSearch::Done(Some(url.as_str().to_owned()));
        }
        if i >= replies.len() {
            return ImageSearch::Ask(copy_source(&sources[i]));
        }
        assert(replies@.skip(i as int)[0] == replies@[i as int]);
        assert(replies@.skip(i as int).drop_first() == replies@.skip(i + 1));
        let found = judge_reply(&sources[i], &replies[i], animated);
        if found.is_some() {
            return ImageSearch::Done(found);
        }
    }
    assert(all.skip(all.len() as int).len() == 0);
    ImageSearch::Done(None)
}

/// Reads the values of the image attributes of a tag.
fn read_tag_values(tag: &str) -> (r: Vec<String>)
    ensures
        strings(r@) == tag_values(tag@),
{
    let gs = groups(IMG_ATTR, tag);
    let ghost views = group_views(gs@);
    let mut r: Vec<String> = Vec::new();
    for i in 0..gs.len()
        invariant
            views == group_views(gs@),
            groups_fit(tag@, views),
            r@.len() == i,
            forall|j: int| 0 <= j < i ==> (#[trigger] r@[j])@ == group_text(tag@, views[j], 2),
    {
        r.push(cut_match_group(tag, &gs, i, 2));
    }
    assert(strings(r@) == tag_values(tag@));
    r
}

/// Reads the values of the image attributes in the tags at `rs`.
pub fn read_img_values(html: &str, rs: &Vec<(usize, usize)>) -> (r: Vec<String>)
    requires
        ranges_fit(html@, rs@),
    ensures
        strings(r@) == tags_values(html@, rs@, rs@.len() as int),
{
    let mut r: Vec<String> = Vec::new();
    assert(strings(r@) == Seq::<Seq<char>>::empty());
    for i in 0..rs.len()
        invariant
            ranges_fit(html@, rs@),
            strings(r@) == tags_values(html@, rs@, i as int),
    {
        let mut more = read_tag_values(cut_match(html, rs, i));
        let ghost done = r@;
        let ghost new = more@;
        r.append(&mut more);
        assert(strings(r@) == strings(done) + strings(new));
    }
    r
}

/// Searches `html` for an image, with the replies that have come so far.
fn search_html(html: &str, replies: &[ImageReply], animated: bool) -> (r: ImageSearch)
    ensures
        r@ == html_searched(html@, replies@, animated),
{
    if is_blank(html) {
        return ImageSearch::Done(None);
    }
    let values = read_img_values(html, &ranges(IMG_TAG, html));
    search_images(&image_sources(&values, animated), replies, animated)
}

/// Searches `html` for an animated image. The replies answer, in order, what the search asked for
/// before.
pub fn extract_animated_image_data_url_from_html(html: &str, replies: &[ImageReply]) -> (r:
    ImageSearch)
    ensures
        r@ == html_searched(html@, replies@, true),
{
    search_html(html, replies, true)
}

/// Searches `html` for an image that is to be had without asking another host. The replies answer,
/// in order, what the search asked for before.
pub fn extract_first_image_data_url_from_html(html: &str, replies: &[ImageReply]) -> (r:
    ImageSearch)
    ensures
        r@ == html_searched(html@, replies@, false),
{
    search_html(html, replies, false)
}

/// Takes `text` for the address of an animated image and searches for that.
pub fn extract_animated_image_data_url_from_text(text: &str, replies: &[ImageReply]) -> (r:
    ImageSearch)
    ensures
        r@ == searched(value_sources(seq![text@], true), replies@, true),
{
    let mut values: Vec<String> = Vec::new();
    values.push(text.to_owned());
    assert(strings(values@) == seq![text@]);
    search_images(&image_sources(&values, true), replies, true)
}

// ---------------------------------------------------------------------------
// Laws

/// What a search finds is the data address of an image, and that of a GIF where an animated image
/// is looked for.
pub proof fn law_search_finds_data_addresses(
    values: Seq<Seq<char>>,
    replies: Seq<ImageReply>,
    animated: bool,
)
    ensures
        searched(value_sources(values, animated), replies, animated) matches ImageSearchView::Done(
            Some(url),
        ) ==> "data:image/"@.is_prefix_of(url) && (animated ==> "data:image/gif"@.is_prefix_of(url)),
{
    lemma_data_sources(values, animated);
    lemma_found(value_sources(values, animated), replies, animated);
}

/// A source that holds its data holds those of an image, and those of a GIF where an animated image
/// is looked for.
pub open spec fn holds_image(source: ImageSourceView, animated: bool) -> bool {
    source matches ImageSourceView::Data(url) ==> "data:image/"@.is_prefix_of(url) && (animated
        ==> "data:image/gif"@.is_prefix_of(url))
}

/// The address of a GIF is the address of an image.
proof fn lemma_gif_is_image(url: Seq<char>)
    requires
        "data:image/gif"@.is_prefix_of(url),
    ensures
        "data:image/"@.is_prefix_of(url),
{
    reveal_strlit("data:image/gif");
    reveal_strlit("data:image/");
    assert("data:image/gif"@.subrange(0, 11) =~= "data:image/"@);
    assert(url.subrange(0, 11) =~= url.subrange(0, 14).subrange(0, 11));
}

/// Sources that hold their data hold those of an image.
proof fn lemma_data_sources(values: Seq<Seq<char>>, animated: bool)
    ensures
        forall|i: int|
            0 <= i < value_sources(values, animated).len() ==> holds_image(
                #[trigger] value_sources(values, animated)[i],
                animated,
            ) && (animated || value_sources(values, animated)[i] !is Remote),
    decreases values.len(),
{
    if values.len() > 0 {
        lemma_data_sources(values.drop_last(), animated);
        let rest = value_sources(values.drop_last(), animated);
        let all = value_sources(values, animated);
        assert forall|i: int| 0 <= i < all.len() implies holds_image(#[trigger] all[i], animated) && (
        animated || all[i] !is Remote) by {
            if i < rest.len() {
                assert(all[i] == rest[i]);
            } else if let ImageSourceView::Data(url) = all[i] {
                if animated {
                    lemma_gif_is_image(url);
                }
            }
        }
    }
}

/// A data address begins with its image type.
proof fn lemma_data_url(mime: Seq<char>, bytes: Seq<u8>)
    ensures
        ("data:"@ + mime).is_prefix_of(data_url(mime, bytes)),
{
    let u = data_url(mime, bytes);
    assert(u.subrange(0, ("data:"@ + mime).len() as int) == "data:"@ + mime);
}

/// What a reply gives is the data address of an image.
proof fn lemma_answered(source: ImageSourceView, reply: ImageReply, animated: bool)
    requires
        animated || source !is Remote,
    ensures
        answered(source, reply, animated) matches Some(url) ==> "data:image/"@.is_prefix_of(url)
            && (animated ==> "data:image/gif"@.is_prefix_of(url)),
{
    if let Some(url) = answered(source, reply, animated) {
        let bytes = match reply {
            ImageReply::File { bytes, .. } => bytes@,
            ImageReply::Remote(r) => r.body->0@,
            ImageReply::Nothing => seq![],
        };
        reveal_strlit("data:");
        reveal_strlit("data:image/");
        if animated {
            lemma_data_url("image/gif"@, bytes);
            reveal_strlit("image/gif");
            reveal_strlit("data:image/gif");
            assert("data:"@ + "image/gif"@ =~= "data:image/gif"@);
            lemma_gif_is_image(url);
        } else {
            let mime = mime_of_ext(ext_of_bytes(bytes)->0);
            lemma_data_url(mime, bytes);
            assert("data:image/"@.is_prefix_of("data:"@ + mime)) by {
                reveal_strlit("image/png");
                reveal_strlit("image/jpeg");
                reveal_strlit("image/gif");
                reveal_strlit("image/webp");
                reveal_strlit("image/bmp");
                assert(("data:"@ + mime).subrange(0, 11) =~= "data:image/"@);
            }
            assert(url.subrange(0, 11) =~= url.subrange(0, ("data:"@ + mime).len() as int).subrange(
                0,
                11,
            ));
        }
    }
}

/// What a search finds comes from a source that holds its data or from a reply.
proof fn lemma_found(
    sources: Seq<ImageSourceView>,
    replies: Seq<ImageReply>,
    animated: bool,
)
    requires
        forall|i: int| 0 <= i < sources.len() ==> holds_image(#[trigger] sources[i], animated),
        forall|i: int| 0 <= i < sources.len() ==> animated || #[trigger] sources[i] !is Remote,
    ensures
        searched(sources, replies, animated) matches ImageSearchView::Done(Some(url))
            ==> "data:image/"@.is_prefix_of(url) && (animated ==> "data:image/gif"@.is_prefix_of(
            url,
        )),
    decreases sources.len(),
{
    if sources.len() > 0 {
        assert(holds_image(sources[0], animated));
        if sources[0] !is Data && replies.len() > 0 {
            lemma_answered(sources[0], replies[0], animated);
            let rest = sources.drop_first();
            assert forall|i: int| 0 <= i < rest.len() implies holds_image(
                #[trigger] rest[i],
                animated,
            ) && (animated || rest[i] !is Remote) by {
                assert(rest[i] == sources[i + 1]);
            }
            lemma_found(rest, replies.drop_first(), animated);
        }
    }
}

/// A search that has ended stays as it ended, whatever more comes back.
pub proof fn law_ended_search_stays(
    sources: Seq<ImageSourceView>,
    replies: Seq<ImageReply>,
    more: Seq<ImageReply>,
    animated: bool,
)
    requires
        searched(sources, replies, animated) is Done,
    ensures
        searched(sources, replies + more, animated) == searched(sources, replies, animated),
    decreases sources.len(),
{
    if sources.len() > 0 && sources[0] !is Data {
        assert((replies + more)[0] == replies[0]);
        assert((replies + more).drop_first() == replies.drop_first() + more);
        if answered(sources[0], replies[0], animated) is None {
            law_ended_search_stays(sources.drop_first(), replies.drop_first(), more, animated);
        }
    }
}

/// A search asks for one source after the other, never for one that holds its data, and has ended
/// when it has asked for all of them.
pub proof fn law_search_asks_in_order(
    sources: Seq<ImageSourceView>,
    replies: Seq<ImageReply>,
    animated: bool,
)
    ensures
        searched(sources, replies, animated) matches ImageSearchView::Ask(s) ==> replies.len()
            < sources.len() && s == sources[replies.len() as int] && s !is Data,
    decreases sources.len(),
{
    if sources.len() > 0 && sources[0] !is Data && replies.len() > 0 {
        if answered(sources[0], replies[0], animated) is None {
            law_search_asks_in_order(sources.drop_first(), replies.drop_first(), animated);
        }
    }
}

} // verus!
