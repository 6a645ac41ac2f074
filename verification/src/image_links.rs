//! Images that markup links to, embedded in it or stored beside it.

use vstd::prelude::*;
use vstd::utf8::encode_utf8;

use crate::chars::is_ascii_alnum;
use crate::images::{
    data_url, fetch_remote_image, file_ext, file_mime, file_mime_by_ext, file_url, find_file_ext,
    hex, image_file_name, image_mime_by_ext, is_absolute, law_file_address_is_local,
    law_file_address_leads_back, local_path, mime_of_ext, normalize_remote_img_url, remote_ext,
    remote_url, resolve_local_image_src_path, source_opt, stored_file_url, write_data_url,
    ImageReply, ImageSource, ImageSourceView,
};
use crate::regexes::{
    cut_gap, cut_match_group, gap_text, group_text, group_views, groups, groups_fit, parts_cover,
    pattern_groups, range_fits, ranges_fit, whole_match, IMG_LINK,
};
use crate::text::{
    byte_slice, lemma_byte_parts, lemma_bytes_join, lemma_ends_on_boundary, lemma_nothing_replaced,
    replaced, str_opt, string_opt, strings,
};

verus! {

/// Where the image at the address `src` is to be had, if it does not stand in it.
pub open spec fn wanted_source(src: Seq<char>) -> Option<ImageSourceView> {
    match local_path(src) {
        Some(path) => Some(ImageSourceView::File(path)),
        None => match remote_url(src) {
            Some(url) => Some(ImageSourceView::Remote(url)),
            None => None,
        },
    }
}

/// The address that takes the place of `src` when its image is embedded.
pub open spec fn embedded_src(src: Seq<char>, reply: ImageReply) -> Seq<char> {
    match (wanted_source(src), reply) {
        (Some(ImageSourceView::File(_)), ImageReply::File { bytes, extension }) => data_url(
            file_mime(file_ext(extension)),
            bytes@,
        ),
        (Some(ImageSourceView::Remote(url)), ImageReply::Remote(r)) => match remote_ext(url, r) {
            Some(e) => data_url(mime_of_ext(e), r.body->0@),
            None => src,
        },
        _ => src,
    }
}

/// The reply `i`, or nothing where there is none.
pub open spec fn reply_at(replies: Seq<ImageReply>, i: int) -> ImageReply {
    if 0 <= i < replies.len() {
        replies[i]
    } else {
        ImageReply::Nothing
    }
}

/// The image that a link asks for is to be stored: it does not stand in the link, and it is no file
/// that lies inside the directory of the stored images, as `inside` tells of a file.
pub open spec fn is_to_store(wanted: Option<ImageSourceView>, inside: bool) -> bool {
    match wanted {
        Some(ImageSourceView::File(_)) => !inside,
        Some(_) => true,
        None => false,
    }
}

/// The address that takes the place of `src` when its image was stored at `path`. It stays where
/// the image is not to be stored.
pub open spec fn stored_src(src: Seq<char>, inside: bool, path: Option<Seq<char>>) -> Seq<char> {
    match path {
        Some(path) => if is_to_store(wanted_source(src), inside) {
            file_url(path)
        } else {
            src
        },
        None => src,
    }
}

/// What was told of the file `i`, or that it does not lie inside where nothing was told.
pub open spec fn inside_at(inside: Seq<bool>, i: int) -> bool {
    0 <= i < inside.len() && inside[i]
}

/// The path `i`, if there is one.
pub open spec fn path_at(paths: Seq<Option<String>>, i: int) -> Option<Seq<char>> {
    if 0 <= i < paths.len() {
        string_opt(paths[i])
    } else {
        None
    }
}

/// The ranges of the whole matches.
pub open spec fn whole_ranges(gs: Seq<Seq<Option<(usize, usize)>>>) -> Seq<(usize, usize)> {
    gs.map_values(|g: Seq<Option<(usize, usize)>>| whole_match(g))
}

/// The addresses in the image links at `gs`.
pub open spec fn link_srcs(html: Seq<char>, gs: Seq<Seq<Option<(usize, usize)>>>) -> Seq<
    Seq<char>,
> {
    gs.map_values(|g: Seq<Option<(usize, usize)>>| group_text(html, g, 2))
}

/// `html` up to the end of the image link `n`, with the addresses `srcs` in the links.
pub open spec fn relinked_upto(
    html: Seq<char>,
    gs: Seq<Seq<Option<(usize, usize)>>>,
    srcs: Seq<Seq<char>>,
    n: int,
) -> Seq<char>
    decreases n,
{
    if n <= 0 {
        seq![]
    } else {
        relinked_upto(html, gs, srcs, n - 1) + gap_text(html, whole_ranges(gs), n - 1) + group_text(
            html,
            gs[n - 1],
            1,
        ) + srcs[n - 1] + group_text(html, gs[n - 1], 3)
    }
}

/// `html` with the addresses `srcs` in the image links at `gs`.
pub open spec fn relinked(
    html: Seq<char>,
    gs: Seq<Seq<Option<(usize, usize)>>>,
    srcs: Seq<Seq<char>>,
) -> Seq<char> {
    relinked_upto(html, gs, srcs, gs.len() as int) + gap_text(
        html,
        whole_ranges(gs),
        gs.len() as int,
    )
}

/// What is wanted for each image link in `html`.
pub open spec fn links_wanted(html: Seq<char>) -> Seq<Option<ImageSourceView>> {
    link_srcs(html, pattern_groups(IMG_LINK@, html)).map_values(
        |src: Seq<char>| wanted_source(src),
    )
}

/// `html` with the images embedded that the replies hold.
pub open spec fn images_embedded(html: Seq<char>, replies: Seq<ImageReply>) -> Seq<char> {
    let gs = pattern_groups(IMG_LINK@, html);
    let srcs = link_srcs(html, gs);
    relinked(html, gs, Seq::new(gs.len(), |i: int| embedded_src(srcs[i], reply_at(replies, i))))
}

/// Which image links in `html` ask for something that is to be stored.
pub open spec fn links_stored(html: Seq<char>, inside: Seq<bool>) -> Seq<bool> {
    Seq::new(
        links_wanted(html).len(),
        |i: int| is_to_store(links_wanted(html)[i], inside_at(inside, i)),
    )
}

/// The addresses that the image links in `html` have once their images were stored.
pub open spec fn stored_srcs(
    html: Seq<char>,
    inside: Seq<bool>,
    paths: Seq<Option<String>>,
) -> Seq<Seq<char>> {
    let srcs = link_srcs(html, pattern_groups(IMG_LINK@, html));
    Seq::new(srcs.len(), |i: int| stored_src(srcs[i], inside_at(inside, i), path_at(paths, i)))
}

/// `html` with the addresses of stored images in place of those that it had.
pub open spec fn images_stored(
    html: Seq<char>,
    inside: Seq<bool>,
    paths: Seq<Option<String>>,
) -> Seq<char> {
    relinked(html, pattern_groups(IMG_LINK@, html), stored_srcs(html, inside, paths))
}

/// Finds where the image at the address `src` is to be had, if it does not stand in it.
pub fn find_wanted_source(src: &str) -> (r: Option<ImageSource>)
    ensures
        source_opt(r) == wanted_source(src@),
{
    match resolve_local_image_src_path(src) {
        Some(path) => Some(ImageSource::File(path)),
        None => match normalize_remote_img_url(src) {
            Some(url) => Some(ImageSource::Remote(url)),
            None => None,
        },
    }
}

/// Finds the address that takes the place of `src` when its image is embedded.
pub fn embed_src(src: &str, reply: &ImageReply) -> (r: String)
    ensures
        r@ == embedded_src(src@, *reply),
{
    match (find_wanted_source(src), reply) {
        (Some(ImageSource::File(_)), ImageReply::File { bytes, extension }) => write_data_url(
            file_mime_by_ext(&find_file_ext(extension)),
            bytes,
        ),
        (Some(ImageSource::Remote(url)), ImageReply::Remote(reply)) => {
            match (fetch_remote_image(&url, reply), &reply.body) {
                (Some(ext), Some(bytes)) => write_data_url(image_mime_by_ext(ext), bytes),
                _ => src.to_owned(),
            }
        },
        _ => src.to_owned(),
    }
}

/// Tells whether the image that a link asks for is to be stored.
pub fn wanted_is_to_store(wanted: &Option<ImageSource>, inside: bool) -> (r: bool)
    ensures
        r == is_to_store(source_opt(*wanted), inside),
{
    match wanted {
        Some(ImageSource::File(_)) => !inside,
        Some(_) => true,
        None => false,
    }
}

/// Finds the address that takes the place of `src` when its image was stored at `path`.
pub fn store_src(src: &str, inside: bool, path: Option<&str>) -> (r: String)
    ensures
        r@ == stored_src(src@, inside, str_opt(path)),
{
    match path {
        Some(path) => if wanted_is_to_store(&find_wanted_source(src), inside) {
            stored_file_url(path)
        } else {
            src.to_owned()
        },
        None => src.to_owned(),
    }
}

/// The ranges of the whole matches.
fn list_whole_ranges(html: &str, gs: &Vec<Vec<Option<(usize, usize)>>>) -> (r: Vec<(usize, usize)>)
    requires
        groups_fit(html@, group_views(gs@)),
    ensures
        r@ == whole_ranges(group_views(gs@)),
        ranges_fit(html@, r@),
{
    let ghost views = group_views(gs@);
    let mut r: Vec<(usize, usize)> = Vec::new();
    for i in 0..gs.len()
        invariant
            views == group_views(gs@),
            groups_fit(html@, views),
            r@ == whole_ranges(views).take(i as int),
    {
        assert(views[i as int].len() > 0);
        assert(views[i as int] == gs@[i as int]@);
        let whole = gs[i][0].unwrap();
        r.push(whole);
        assert(whole_ranges(views).take(i + 1) == whole_ranges(views).take(i as int).push(whole));
    }
    assert(whole_ranges(views).take(views.len() as int) == whole_ranges(views));
    assert forall|i: int| 0 <= i < r@.len() implies range_fits(html@, #[trigger] r@[i]) by {
        assert(views[i][0] is Some);
    }
    assert forall|i: int, j: int| 0 <= i < j < r@.len() implies (#[trigger] r@[i]).1 <= (
    #[trigger] r@[j]).0 by {
        assert(whole_match(views[i]).1 <= whole_match(views[j]).0);
    }
    r
}

/// Cuts the addresses out of the image links at `gs`.
pub fn cut_link_srcs(html: &str, gs: &Vec<Vec<Option<(usize, usize)>>>) -> (r: Vec<String>)
    requires
        groups_fit(html@, group_views(gs@)),
    ensures
        strings(r@) == link_srcs(html@, group_views(gs@)),
{
    let mut r: Vec<String> = Vec::new();
    for i in 0..gs.len()
        invariant
            groups_fit(html@, group_views(gs@)),
            strings(r@) == link_srcs(html@, group_views(gs@)).take(i as int),
    {
        let ghost done = r@;
        r.push(cut_match_group(html, gs, i, 2));
        assert(strings(r@) == strings(done).push(r@.last()@));
        assert(link_srcs(html@, group_views(gs@)).take(i + 1) == link_srcs(
            html@,
            group_views(gs@),
        ).take(i as int).push(r@.last()@));
    }
    assert(link_srcs(html@, group_views(gs@)).take(gs@.len() as int) == link_srcs(
        html@,
        group_views(gs@),
    ));
    r
}

/// Writes `html` with the addresses `srcs` in the image links at `gs`.
pub fn relink(html: &str, gs: &Vec<Vec<Option<(usize, usize)>>>, srcs: &[String]) -> (r: String)
    requires
        groups_fit(html@, group_views(gs@)),
        srcs@.len() == gs@.len(),
    ensures
        r@ == relinked(html@, group_views(gs@), strings(srcs@)),
{
    let ghost views = group_views(gs@);
    let rs = list_whole_ranges(html, gs);
    let mut r = String::new();
    for i in 0..gs.len()
        invariant
            views == group_views(gs@),
            groups_fit(html@, views),
            rs@ == whole_ranges(views),
            ranges_fit(html@, rs@),
            srcs@.len() == gs@.len(),
            r@ == relinked_upto(html@, views, strings(srcs@), i as int),
    {
        r.append(cut_gap(html, &rs, i));
        r.append(&cut_match_group(html, gs, i, 1));
        r.append(&srcs[i]);
        r.append(&cut_match_group(html, gs, i, 3));
    }
    r.append(cut_gap(html, &rs, gs.len()));
    r
}

/// Lists what is wanted for each image link in `html`, in order.
pub fn local_image_requests(html: &str) -> (r: Vec<Option<ImageSource>>)
    ensures
        r@.map_values(|s: Option<ImageSource>| source_opt(s)) == links_wanted(html@),
{
    let srcs = cut_link_srcs(html, &groups(IMG_LINK, html));
    let ghost all = strings(srcs@);
    let mut r: Vec<Option<ImageSource>> = Vec::new();
    for i in 0..srcs.len()
        invariant
            all == strings(srcs@),
            r@.len() == i,
            forall|j: int| 0 <= j < i ==> source_opt(#[trigger] r@[j]) == wanted_source(all[j]),
    {
        r.push(find_wanted_source(&srcs[i]));
    }
    assert(r@.map_values(|s: Option<ImageSource>| source_opt(s)) == links_wanted(html@));
    r
}

/// Tells for each image link in `html`, in order, whether it asks for something that is to be
/// stored. `inside[i]` tells whether the file that the link `i` asks for lies inside the directory
/// of the stored images; such a file is not stored again.
pub fn links_to_store(html: &str, inside: &[bool]) -> (r: Vec<bool>)
    ensures
        r@ == links_stored(html@, inside@),
{
    let wanted = local_image_requests(html);
    let ghost all = wanted@.map_values(|s: Option<ImageSource>| source_opt(s));
    let mut r: Vec<bool> = Vec::new();
    for i in 0..wanted.len()
        invariant
            all == wanted@.map_values(|s: Option<ImageSource>| source_opt(s)),
            r@.len() == i,
            forall|j: int|
                0 <= j < i ==> #[trigger] r@[j] == is_to_store(all[j], inside_at(inside@, j)),
    {
        r.push(wanted_is_to_store(&wanted[i], i < inside.len() && inside[i]));
    }
    assert(r@ == links_stored(html@, inside@));
    r
}

/// Embeds the images that the replies hold. The reply `i` answers what is wanted for the image link
/// `i`; a link without an image in its reply stays as it is.
pub fn embed_local_images(html: &str, replies: &[ImageReply]) -> (r: String)
    ensures
        r@ == images_embedded(html@, replies@),
{
    let gs = groups(IMG_LINK, html);
    let old_srcs = cut_link_srcs(html, &gs);
    let ghost all = strings(old_srcs@);
    let ghost new = Seq::new(all.len(), |i: int| embedded_src(all[i], reply_at(replies@, i)));
    let mut srcs: Vec<String> = Vec::new();
    for i in 0..old_srcs.len()
        invariant
            all == strings(old_srcs@),
            new == Seq::new(all.len(), |i: int| embedded_src(all[i], reply_at(replies@, i))),
            srcs@.len() == i,
            forall|j: int| 0 <= j < i ==> (#[trigger] srcs@[j])@ == new[j],
    {
        if i < replies.len() {
            srcs.push(embed_src(&old_srcs[i], &replies[i]));
        } else {
            srcs.push(embed_src(&old_srcs[i], &ImageReply::Nothing));
        }
    }
    assert(strings(srcs@) == new);
    relink(html, &gs, &srcs)
}

/// Puts the addresses of stored images in place of those that `html` had. The path `i` tells where
/// the image of the link `i` was stored; a link without a path stays as it is, and so does one to a
/// file that lies inside the directory of the stored images, as `inside[i]` tells.
pub fn process_local_images_in_html(html: &str, inside: &[bool], paths: &[Option<String>]) -> (r:
    String)
    ensures
        r@ == images_stored(html@, inside@, paths@),
{
    let gs = groups(IMG_LINK, html);
    let old_srcs = cut_link_srcs(html, &gs);
    let ghost all = strings(old_srcs@);
    let ghost new = stored_srcs(html@, inside@, paths@);
    let mut srcs: Vec<String> = Vec::new();
    for i in 0..old_srcs.len()
        invariant
            all == strings(old_srcs@),
            all == link_srcs(html@, pattern_groups(IMG_LINK@, html@)),
            new == stored_srcs(html@, inside@, paths@),
            srcs@.len() == i,
            forall|j: int| 0 <= j < i ==> (#[trigger] srcs@[j])@ == new[j],
    {
        let path: Option<&str> = if i < paths.len() {
            match &paths[i] {
                Some(p) => Some(p.as_str()),
                None => None,
            }
        } else {
            None
        };
        srcs.push(store_src(&old_srcs[i], i < inside.len() && inside[i], path));
    }
    assert(strings(srcs@) == new);
    relink(html, &gs, &srcs)
}

// ---------------------------------------------------------------------------
// Laws

/// Markup without an image link stays as it is, whatever came back.
pub proof fn law_markup_without_links_stays(
    html: Seq<char>,
    replies: Seq<ImageReply>,
    inside: Seq<bool>,
    paths: Seq<Option<String>>,
)
    requires
        pattern_groups(IMG_LINK@, html).len() == 0,
    ensures
        images_embedded(html, replies) == html,
        images_stored(html, inside, paths) == html,
{
    let bytes = encode_utf8(html);
    assert(bytes.subrange(0, bytes.len() as int) == bytes);
    vstd::utf8::encode_utf8_decode_utf8(html);
    assert(gap_text(html, Seq::<(usize, usize)>::empty(), 0) == html);
    assert(whole_ranges(pattern_groups(IMG_LINK@, html)) == Seq::<(usize, usize)>::empty());
}

/// Links with the addresses that they had make up the markup again.
proof fn lemma_relinked_stays(html: Seq<char>, gs: Seq<Seq<Option<(usize, usize)>>>, n: int)
    requires
        groups_fit(html, gs),
        parts_cover(gs),
        0 <= n <= gs.len(),
    ensures
        relinked_upto(html, gs, link_srcs(html, gs), n) == byte_slice(
            html,
            0,
            if n == 0 {
                0
            } else {
                whole_match(gs[n - 1]).1 as int
            },
        ),
    decreases n,
{
    lemma_ends_on_boundary(html);
    if n == 0 {
        assert(encode_utf8(html).subrange(0, 0) == Seq::<u8>::empty());
    } else {
        lemma_relinked_stays(html, gs, n - 1);
        let g = gs[n - 1];
        let from: int = if n == 1 {
            0
        } else {
            whole_match(gs[n - 2]).1 as int
        };
        if n > 1 {
            assert(gs[n - 2][0] is Some);
            assert(range_fits(html, gs[n - 2][0]->0));
            assert(whole_match(gs[n - 2]).1 <= whole_match(gs[n - 1]).0);
        }
        assert(g.len() > 0);
        assert(range_fits(html, gs[n - 1][0]->0));
        assert(range_fits(html, gs[n - 1][1]->0));
        assert(range_fits(html, gs[n - 1][2]->0));
        assert(range_fits(html, gs[n - 1][3]->0));
        let a = (g[1]->0).0 as int;
        let b = (g[2]->0).0 as int;
        let c = (g[3]->0).0 as int;
        let d = (g[3]->0).1 as int;
        lemma_bytes_join(html, from, a);
        lemma_bytes_join(html, a, b);
        lemma_bytes_join(html, b, c);
        lemma_bytes_join(html, c, d);
    }
}

/// Markup whose links keep the addresses that they had stays as it is.
proof fn lemma_relinked_whole(html: Seq<char>)
    ensures
        relinked(
            html,
            pattern_groups(IMG_LINK@, html),
            link_srcs(html, pattern_groups(IMG_LINK@, html)),
        ) == html,
{
    let gs = pattern_groups(IMG_LINK@, html);
    let n = gs.len() as int;
    assert(groups_fit(html, gs) && parts_cover(gs));
    lemma_relinked_stays(html, gs, n);
    lemma_ends_on_boundary(html);
    let end: int = if n == 0 {
        0
    } else {
        whole_match(gs[n - 1]).1 as int
    };
    if n > 0 {
        assert(gs[n - 1][0] is Some);
        assert(range_fits(html, gs[n - 1][0]->0));
    }
    lemma_byte_parts(html, end);
}

/// Where no image came back for any of the links, the markup stays as it is when images are
/// embedded.
pub proof fn law_markup_without_replies_stays(html: Seq<char>, replies: Seq<ImageReply>)
    requires
        forall|i: int| 0 <= i < replies.len() ==> #[trigger] replies[i] is Nothing,
    ensures
        images_embedded(html, replies) == html,
{
    let gs = pattern_groups(IMG_LINK@, html);
    let srcs = link_srcs(html, gs);
    lemma_relinked_whole(html);
    assert(Seq::new(gs.len(), |i: int| embedded_src(srcs[i], reply_at(replies, i))) == srcs);
}

/// Where every link either asks for nothing that is to be stored or has no path, the markup stays
/// as it is when images are stored.
pub proof fn law_markup_with_nothing_stored_stays(
    html: Seq<char>,
    inside: Seq<bool>,
    paths: Seq<Option<String>>,
)
    requires
        forall|i: int|
            0 <= i < links_stored(html, inside).len() && #[trigger] links_stored(html, inside)[i]
                ==> path_at(paths, i) is None,
    ensures
        images_stored(html, inside, paths) == html,
{
    let srcs = link_srcs(html, pattern_groups(IMG_LINK@, html));
    lemma_relinked_whole(html);
    assert forall|i: int| 0 <= i < srcs.len() implies #[trigger] stored_srcs(html, inside, paths)[i]
        == srcs[i] by {
        assert(links_wanted(html)[i] == wanted_source(srcs[i]));
        assert(links_stored(html, inside)[i] == is_to_store(
            wanted_source(srcs[i]),
            inside_at(inside, i),
        ));
    }
    assert(stored_srcs(html, inside, paths) == srcs);
}

/// The address of a stored image is that of a file.
proof fn lemma_stored_is_file(path: Seq<char>)
    ensures
        wanted_source(file_url(path)) matches Some(ImageSourceView::File(_)),
{
    law_file_address_is_local(path);
}

/// Stored images stay where they are: where every image that was to be stored was stored, the links
/// in the new markup have the addresses that they got, and the files that these ask for lie inside
/// the directory of the stored images, nothing is stored again, and the markup stays as it is.
pub proof fn law_stored_links_are_left_alone(
    html: Seq<char>,
    inside: Seq<bool>,
    paths: Seq<Option<String>>,
    inside_again: Seq<bool>,
    paths_again: Seq<Option<String>>,
)
    requires
        forall|i: int|
            0 <= i < links_stored(html, inside).len() && #[trigger] links_stored(html, inside)[i]
                ==> path_at(paths, i) is Some,
        ({
            let r = images_stored(html, inside, paths);
            link_srcs(r, pattern_groups(IMG_LINK@, r)) == stored_srcs(html, inside, paths)
        }),
        forall|i: int|
            0 <= i < stored_srcs(html, inside, paths).len() ==> #[trigger] inside_at(
                inside_again,
                i,
            ),
    ensures
        ({
            let r = images_stored(html, inside, paths);
            &&& forall|i: int|
                0 <= i < links_stored(r, inside_again).len() ==> !#[trigger] links_stored(
                    r,
                    inside_again,
                )[i]
            &&& images_stored(r, inside_again, paths_again) == r
        }),
{
    let r = images_stored(html, inside, paths);
    let srcs = link_srcs(html, pattern_groups(IMG_LINK@, html));
    let new = stored_srcs(html, inside, paths);
    assert forall|i: int|
        0 <= i < links_stored(r, inside_again).len() implies !#[trigger] links_stored(
        r,
        inside_again,
    )[i] by {
        assert(links_wanted(r)[i] == wanted_source(new[i]));
        assert(links_wanted(html)[i] == wanted_source(srcs[i]));
        assert(links_stored(html, inside)[i] == is_to_store(
            wanted_source(srcs[i]),
            inside_at(inside, i),
        ));
        assert(inside_at(inside_again, i));
        if links_stored(html, inside)[i] {
            lemma_stored_is_file(path_at(paths, i)->0);
        } else {
            assert(new[i] == srcs[i]);
        }
    }
    law_markup_with_nothing_stored_stays(r, inside_again, paths_again);
}

/// The path of a file with slashes in it.
pub open spec fn slashed(path: Seq<char>) -> Seq<char> {
    replaced(path, "\\"@, "/"@)
}

/// The address of a file at `path` leads back to it: the path is absolute and holds nothing that is
/// taken for an escape, a query or a fragment.
pub open spec fn leads_back(path: Seq<char>) -> bool {
    &&& is_absolute(slashed(path))
    &&& !slashed(path).contains('%')
    &&& !slashed(path).contains('?')
    &&& !slashed(path).contains('#')
}

/// The address that a link got when its image was stored asks for the stored file itself, with
/// slashes in its path.
pub proof fn law_stored_link_asks_for_its_file(src: Seq<char>, inside: bool, path: Seq<char>)
    requires
        is_to_store(wanted_source(src), inside),
        leads_back(path),
    ensures
        wanted_source(stored_src(src, inside, Some(path))) == Some(
            ImageSourceView::File(slashed(path)),
        ),
{
    law_file_address_leads_back(path);
}

/// `inside` tells of every file that `html` links to whether it lies `within` a directory.
pub open spec fn tells_inside(
    html: Seq<char>,
    within: spec_fn(Seq<char>) -> bool,
    inside: Seq<bool>,
) -> bool {
    forall|i: int|
        0 <= i < links_wanted(html).len() ==> (#[trigger] links_wanted(html)[i] matches Some(
            ImageSourceView::File(path),
        ) ==> inside_at(inside, i) == within(path))
}

/// Storing the images of markup twice is storing them once. The stored files lie `within` the
/// directory of the stored images, and their addresses lead back to them; the links in the new
/// markup have the addresses that they got; and an image that was not to be had the first time is
/// not to be had the second time. Then no image that was stored is stored again, and the markup
/// stays as it is. Where an address with a closing bracket in it was replaced, the pattern may find
/// another address in the same tag, so what it finds is asked for.
pub proof fn law_storing_twice_is_storing_once(
    html: Seq<char>,
    within: spec_fn(Seq<char>) -> bool,
    inside: Seq<bool>,
    paths: Seq<Option<String>>,
    inside_again: Seq<bool>,
    paths_again: Seq<Option<String>>,
)
    requires
        ({
            let r = images_stored(html, inside, paths);
            &&& tells_inside(html, within, inside)
            &&& tells_inside(r, within, inside_again)
            &&& link_srcs(r, pattern_groups(IMG_LINK@, r)) == stored_srcs(html, inside, paths)
        }),
        forall|i: int|
            0 <= i < links_stored(html, inside).len() && #[trigger] links_stored(html, inside)[i]
                ==> match path_at(paths, i) {
                Some(path) => leads_back(path) && within(slashed(path)),
                None => path_at(paths_again, i) is None,
            },
    ensures
        ({
            let r = images_stored(html, inside, paths);
            &&& forall|i: int|
                0 <= i < links_stored(r, inside_again).len() && #[trigger] links_stored(
                    r,
                    inside_again,
                )[i] ==> links_stored(html, inside)[i] && path_at(paths, i) is None
            &&& images_stored(r, inside_again, paths_again) == r
        }),
{
    let r = images_stored(html, inside, paths);
    let srcs = link_srcs(html, pattern_groups(IMG_LINK@, html));
    let new = stored_srcs(html, inside, paths);
    assert forall|i: int|
        0 <= i < links_stored(r, inside_again).len() && #[trigger] links_stored(
            r,
            inside_again,
        )[i] implies links_stored(html, inside)[i] && path_at(paths, i) is None by {
        assert(links_wanted(r)[i] == wanted_source(new[i]));
        assert(links_wanted(html)[i] == wanted_source(srcs[i]));
        assert(links_stored(html, inside)[i] == is_to_store(
            wanted_source(srcs[i]),
            inside_at(inside, i),
        ));
        if links_stored(html, inside)[i] {
            if let Some(path) = path_at(paths, i) {
                law_stored_link_asks_for_its_file(srcs[i], inside_at(inside, i), path);
            }
        } else {
            assert(new[i] == srcs[i]);
        }
    }
    law_markup_with_nothing_stored_stays(r, inside_again, paths_again);
}

/// The character is plain in a path: it is a letter or a digit of ASCII, or one of four signs.
pub open spec fn is_plain_path_char(c: char) -> bool {
    is_ascii_alnum(c) || c == '/' || c == '_' || c == '-' || c == '.'
}

/// The address of a file at an absolute path of plain characters leads back to that path.
pub proof fn law_plain_path_leads_back(path: Seq<char>)
    requires
        path.len() > 0,
        path[0] == '/',
        forall|i: int| 0 <= i < path.len() ==> is_plain_path_char(#[trigger] path[i]),
    ensures
        leads_back(path),
        slashed(path) == path,
{
    reveal_strlit("\\");
    assert forall|i: int| 0 <= i < path.len() implies path[i] != '\\' && path[i] != '%' && path[i]
        != '?' && path[i] != '#' && path[i] != ':' by {
        assert(is_plain_path_char(path[i]));
    }
    lemma_nothing_replaced(path, "\\"@, "/"@);
}

/// A number in base sixteen is made of plain characters.
proof fn lemma_hex_is_plain(n: nat)
    ensures
        forall|i: int| 0 <= i < hex(n).len() ==> is_plain_path_char(#[trigger] hex(n)[i]),
    decreases n,
{
    if n >= 16 {
        let front = hex(n / 16);
        lemma_hex_is_plain(n / 16);
        assert forall|i: int| 0 <= i < hex(n).len() implies is_plain_path_char(
            #[trigger] hex(n)[i],
        ) by {
            if i < front.len() {
                assert(hex(n)[i] == front[i]);
            }
        }
    }
}

/// The name of a stored image whose extension is made of letters and digits of ASCII is made of
/// plain characters, and so its address leads back to it in a directory with such a path.
pub proof fn law_stored_image_leads_back(dir: Seq<char>, hash: u64, ext: Seq<char>)
    requires
        dir.len() > 0,
        dir[0] == '/',
        forall|i: int| 0 <= i < dir.len() ==> is_plain_path_char(#[trigger] dir[i]),
        forall|i: int| 0 <= i < ext.len() ==> is_ascii_alnum(#[trigger] ext[i]),
    ensures
        leads_back(dir + "/"@ + image_file_name(hash, ext)),
        slashed(dir + "/"@ + image_file_name(hash, ext)) == dir + "/"@ + image_file_name(hash, ext),
{
    reveal_strlit("/");
    reveal_strlit("img_");
    reveal_strlit(".");
    let h = hex(hash as nat);
    lemma_hex_is_plain(hash as nat);
    let name = image_file_name(hash, ext);
    assert forall|i: int| 0 <= i < name.len() implies is_plain_path_char(#[trigger] name[i]) by {
        if i < 4 {
            assert(name[i] == "img_"@[i]);
        } else if i < 4 + h.len() {
            assert(name[i] == h[i - 4]);
        } else if i > 4 + h.len() {
            assert(name[i] == ext[i - 5 - h.len()]);
        }
    }
    let path = dir + "/"@ + name;
    assert forall|i: int| 0 <= i < path.len() implies is_plain_path_char(#[trigger] path[i]) by {
        if i < dir.len() {
            assert(path[i] == dir[i]);
        } else if i > dir.len() {
            assert(path[i] == name[i - dir.len() - 1]);
        }
    }
    law_plain_path_leads_back(path);
}

} // verus!
