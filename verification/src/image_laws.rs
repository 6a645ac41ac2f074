//! What the image functions come to: where an image is looked for, which answer counts, and what a
//! link is made.

use vstd::prelude::*;
use vstd::utf8::is_ascii_chars;

use crate::chars::is_space;
use crate::codecs::{
    base64_bytes, base64_text, law_base64_round_trip, law_text_without_escapes_stays,
};
use crate::image_links::{
    embedded_src, images_embedded, images_stored, inside_at, link_srcs, path_at, relinked,
    relinked_upto, reply_at, stored_src, stored_srcs, wanted_source, whole_ranges,
};
use crate::image_search::{
    animated_source, answered, html_searched, img_values, nearby_source, searched, tag_values,
    tags_values, value_source, value_sources, ImageSearchView,
};
use crate::images::{
    behind_last, data_url, ext_of_bytes, ext_of_url, file_ext, file_mime, file_url, image_data_url, known_ext,
    last_segment, local_path, mime_of_ext, name_ext, names_gif, remote_ext, remote_url,
    src_candidate, ImageReply, ImageSourceView, RemoteReply,
};
use crate::layout::lemma_once_replaced;
use crate::regexes::{gap_text, group_text, match_text, pattern_groups, pattern_ranges};
use crate::text::{
    before, byte_len, first_word, lemma_begins, lemma_nothing_replaced, lemma_slice_of_part,
    lemma_span, lemma_span_is, lemma_trimmed_around, lemma_trimmed_parts, lowered, occurs,
    span, trimmed, trimmed_start, word_len,
};

verus! {

// ---------------------------------------------------------------------------
// Kinds of images

/// Six extensions are known, whatever their case, and each stands for itself but for `jpeg`, which
/// stands for `jpg`; no other extension is known.
pub proof fn law_image_extensions_are_known(ext: Seq<char>)
    ensures
        lowered(ext) == "png"@ ==> known_ext(ext) == Some("png"@),
        lowered(ext) == "jpg"@ ==> known_ext(ext) == Some("jpg"@),
        lowered(ext) == "jpeg"@ ==> known_ext(ext) == Some("jpg"@),
        lowered(ext) == "gif"@ ==> known_ext(ext) == Some("gif"@),
        lowered(ext) == "webp"@ ==> known_ext(ext) == Some("webp"@),
        lowered(ext) == "bmp"@ ==> known_ext(ext) == Some("bmp"@),
        lowered(ext) != "png"@ && lowered(ext) != "jpg"@ && lowered(ext) != "jpeg"@ && lowered(ext)
            != "gif"@ && lowered(ext) != "webp"@ && lowered(ext) != "bmp"@ ==> known_ext(ext)
            is None,
{
    reveal_strlit("png");
    reveal_strlit("jpg");
    reveal_strlit("jpeg");
    reveal_strlit("gif");
    reveal_strlit("webp");
    reveal_strlit("bmp");
    assert("jpeg"@.len() == 4 && "webp"@.len() == 4 && "jpeg"@[0] == 'j' && "webp"@[0] == 'w');
    assert("png"@.len() == 3 && "jpg"@.len() == 3 && "gif"@.len() == 3 && "bmp"@.len() == 3);
}

/// An image is known by its first bytes: its data address names its type and holds its bytes.
pub proof fn law_images_are_known_by_their_first_bytes(bytes: Seq<u8>)
    ensures
        seq![137u8, 80, 78, 71, 13, 10, 26, 10].is_prefix_of(bytes) ==> image_data_url(bytes)
            == Some("data:"@ + "image/png"@ + ";base64,"@ + base64_text(bytes)),
        seq![71u8, 73, 70, 56, 57, 97].is_prefix_of(bytes) ==> image_data_url(bytes) == Some(
            "data:"@ + "image/gif"@ + ";base64,"@ + base64_text(bytes),
        ),
        seq![71u8, 73, 70, 56, 55, 97].is_prefix_of(bytes) ==> image_data_url(bytes) == Some(
            "data:"@ + "image/gif"@ + ";base64,"@ + base64_text(bytes),
        ),
        seq![255u8, 216, 255].is_prefix_of(bytes) ==> image_data_url(bytes) == Some(
            "data:"@ + "image/jpeg"@ + ";base64,"@ + base64_text(bytes),
        ),
        seq![66u8, 77].is_prefix_of(bytes) ==> image_data_url(bytes) == Some(
            "data:"@ + "image/bmp"@ + ";base64,"@ + base64_text(bytes),
        ),
        seq![82u8, 73, 70, 70].is_prefix_of(bytes) && bytes.len() >= 12 && bytes.subrange(8, 12)
            == seq![87u8, 69, 66, 80] ==> image_data_url(bytes) == Some(
            "data:"@ + "image/webp"@ + ";base64,"@ + base64_text(bytes),
        ),
{
    reveal_strlit("png");
    reveal_strlit("jpg");
    reveal_strlit("gif");
    reveal_strlit("webp");
    reveal_strlit("bmp");
    assert("png"@[0] == 'p' && "gif"@[0] == 'g' && "bmp"@[0] == 'b' && "jpg"@[0] == 'j');
    assert("webp"@.len() == 4 && "webp"@[0] == 'w');
    lemma_first_byte(seq![137u8, 80, 78, 71, 13, 10, 26, 10], bytes);
    lemma_first_byte(seq![71u8, 73, 70, 56, 57, 97], bytes);
    lemma_first_byte(seq![71u8, 73, 70, 56, 55, 97], bytes);
    lemma_first_byte(seq![255u8, 216, 255], bytes);
    lemma_first_byte(seq![66u8, 77], bytes);
    lemma_first_byte(seq![82u8, 73, 70, 70], bytes);
}

/// Bytes that begin with a mark begin with its first byte.
proof fn lemma_first_byte(mark: Seq<u8>, bytes: Seq<u8>)
    requires
        mark.len() > 0,
    ensures
        mark.is_prefix_of(bytes) ==> bytes.len() > 0 && bytes[0] == mark[0],
{
    if mark.is_prefix_of(bytes) {
        assert(bytes.subrange(0, mark.len() as int)[0] == bytes[0]);
    }
}

/// The image in a data address can be read back out of it.
pub proof fn law_data_address_holds_the_bytes(mime: Seq<char>, bytes: Seq<u8>)
    ensures
        ({
            let head = "data:"@ + mime + ";base64,"@;
            let url = data_url(mime, bytes);
            &&& url.take(head.len() as int) == head
            &&& base64_bytes(url.skip(head.len() as int)) == Some(bytes)
        }),
{
    let head = "data:"@ + mime + ";base64,"@;
    let url = data_url(mime, bytes);
    assert(url.take(head.len() as int) == head);
    assert(url.skip(head.len() as int) == base64_text(bytes));
    law_base64_round_trip(bytes);
}

// ---------------------------------------------------------------------------
// Answers of other hosts

/// A media type in the header of an answer.
pub open spec fn answers_with_type(reply: RemoteReply, mime: Seq<char>, rest: Seq<char>) -> bool {
    reply.content_type matches Some(t) && t@ == mime + rest && (rest.len() == 0 || rest[0] == ';')
}

/// The answer of a host that says success and holds 1 to 8388608 bytes, and no more by its own
/// account, is an image of the type that it names, whatever stands behind that type and whatever
/// the address looks like.
pub proof fn law_media_type_decides(url: Seq<char>, reply: RemoteReply, rest: Seq<char>)
    requires
        reply.success,
        reply.content_length matches Some(n) ==> n <= 8388608,
        reply.body matches Some(b) && 0 < b@.len() <= 8388608,
    ensures
        answers_with_type(reply, "image/png"@, rest) ==> remote_ext(url, reply) == Some("png"@),
        answers_with_type(reply, "image/jpeg"@, rest) ==> remote_ext(url, reply) == Some("jpg"@),
        answers_with_type(reply, "image/gif"@, rest) ==> remote_ext(url, reply) == Some("gif"@),
        answers_with_type(reply, "image/webp"@, rest) ==> remote_ext(url, reply) == Some("webp"@),
        answers_with_type(reply, "image/bmp"@, rest) ==> remote_ext(url, reply) == Some("bmp"@),
{
    reveal_strlit("image/png");
    reveal_strlit("image/jpeg");
    reveal_strlit("image/gif");
    reveal_strlit("image/webp");
    reveal_strlit("image/bmp");
    lemma_media_type("image/png"@, rest);
    lemma_media_type("image/jpeg"@, rest);
    lemma_media_type("image/gif"@, rest);
    lemma_media_type("image/webp"@, rest);
    lemma_media_type("image/bmp"@, rest);
    assert("image/png"@[6] == 'p' && "image/jpeg"@[6] == 'j' && "image/gif"@[6] == 'g');
    assert("image/webp"@[6] == 'w' && "image/bmp"@[6] == 'b');
}

/// The media type is what stands before the first semicolon.
proof fn lemma_media_type(mime: Seq<char>, rest: Seq<char>)
    requires
        mime.len() > 0,
        !is_space(mime[0]) && !is_space(mime.last()),
        forall|i: int| 0 <= i < mime.len() ==> #[trigger] mime[i] != ';',
    ensures
        rest.len() == 0 || rest[0] == ';' ==> trimmed(before(mime + rest, ';')) == mime,
{
    let e = Seq::<char>::empty();
    if rest.len() == 0 || rest[0] == ';' {
        let n = mime.len() as int;
        lemma_span_is(mime + rest, ';', n);
        assert((mime + rest).take(n) == mime);
        lemma_trimmed_around(e, mime, e);
        assert(e + mime + e == mime);
    }
}

/// An answer that does not say success, that is empty or could not be read, or that has more than
/// 8388608 bytes, or says so, is no image.
pub proof fn law_failed_or_long_answers_are_no_images(url: Seq<char>, reply: RemoteReply)
    requires
        !reply.success || reply.body is None || reply.body->0@.len() == 0 || reply.body->0@.len()
            > 8388608 || (reply.content_length matches Some(n) && n > 8388608),
    ensures
        remote_ext(url, reply) is None,
{
}

/// An answer without a known media type is an image of the extension in its address, and else of
/// the kind that its first bytes tell.
pub proof fn law_address_and_bytes_decide_next(url: Seq<char>, reply: RemoteReply)
    requires
        reply.success,
        reply.content_length matches Some(n) ==> n <= 8388608,
        reply.body matches Some(b) && 0 < b@.len() <= 8388608,
        reply.content_type is None,
    ensures
        ext_of_url(url) is Some ==> remote_ext(url, reply)
            == ext_of_url(url),
        ext_of_url(url) is None ==> remote_ext(url, reply) == ext_of_bytes(
            reply.body->0@,
        ),
{
    reveal_strlit("image/png");
    reveal_strlit("image/jpeg");
    reveal_strlit("image/gif");
    reveal_strlit("image/webp");
    reveal_strlit("image/bmp");
    assert("image/png"@.len() == 9 && "image/jpeg"@.len() == 10 && "image/gif"@.len() == 9);
    assert("image/webp"@.len() == 10 && "image/bmp"@.len() == 9);
}

// ---------------------------------------------------------------------------
// Addresses

/// The file that a path ends with is its last segment, and what stands behind the last dot of its
/// name is its extension.
pub proof fn law_last_segment_and_extension(dir: Seq<char>, stem: Seq<char>, ext: Seq<char>)
    requires
        stem.len() > 0,
        !stem.contains('/'),
        ext.len() > 0,
        !ext.contains('/') && !ext.contains('.'),
    ensures
        last_segment(dir + seq!['/'] + stem + seq!['.'] + ext) == stem + seq!['.'] + ext,
        name_ext(stem + seq!['.'] + ext) == ext,
{
    let name = stem + seq!['.'] + ext;
    let path = dir + seq!['/'] + stem + seq!['.'] + ext;
    assert(path.last() == ext.last());
    assert(ext.contains(ext.last()));
    assert(path.last() != '/' && path.last() != '.');
    assert(dir + seq!['/'] + name == path);
    assert(!name.contains('/')) by {
        assert forall|i: int| 0 <= i < name.len() implies name[i] != '/' by {
            if i < stem.len() {
                assert(name[i] == stem[i]);
                assert(stem.contains(stem[i]));
            } else if i > stem.len() {
                assert(name[i] == ext[i - stem.len() - 1]);
                assert(ext.contains(ext[i - stem.len() - 1]));
            }
        }
    }
    lemma_behind_last(dir, '/', name);
    lemma_behind_last(stem, '.', ext);
}

/// What stands behind the last copy of a character.
proof fn lemma_behind_last(a: Seq<char>, c: char, b: Seq<char>)
    requires
        !b.contains(c),
    ensures
        behind_last(a + seq![c] + b, c) == b,
    decreases b.len(),
{
    let s = a + seq![c] + b;
    if b.len() > 0 {
        let t = b.drop_last();
        assert(s.last() == b.last());
        assert(b.contains(b.last()));
        assert(s.drop_last() == a + seq![c] + t);
        assert(!t.contains(c)) by {
            assert forall|i: int| 0 <= i < t.len() implies t[i] != c by {
                assert(t[i] == b[i]);
                assert(b.contains(b[i]));
            }
        }
        lemma_behind_last(a, c, t);
        assert(t.push(b.last()) == b);
    } else {
        assert(s.last() == c);
    }
}

/// An address on the web is taken as it stands, without white space around it, and one without a
/// scheme gets the safe one; a data address and a path are no address on the web.
pub proof fn law_web_addresses_are_known(src: Seq<char>)
    requires
        trimmed(src) == src,
    ensures
        "http://"@.is_prefix_of(src) || "https://"@.is_prefix_of(src) ==> remote_url(src) == Some(
            src,
        ),
        "//"@.is_prefix_of(src) ==> remote_url(src) == Some("https:"@ + src),
        "data:"@.is_prefix_of(src) ==> remote_url(src) is None,
{
    reveal_strlit("http://");
    reveal_strlit("https://");
    reveal_strlit("//");
    reveal_strlit("data:");
    lemma_prefix_start("http://"@, src);
    lemma_prefix_start("https://"@, src);
    lemma_prefix_start("//"@, src);
    lemma_prefix_start("data:"@, src);
    assert("//"@[0] == '/' && "http://"@[0] == 'h' && "https://"@[0] == 'h' && "data:"@[0] == 'd');
}

/// A text begins with the first character of what it begins with.
proof fn lemma_prefix_start(p: Seq<char>, s: Seq<char>)
    requires
        p.len() > 0,
    ensures
        p.is_prefix_of(s) ==> s.len() >= p.len() && s[0] == p[0],
{
    if p.is_prefix_of(s) {
        lemma_begins(p, s);
        assert(s[0] == p[0]);
    }
}

/// A path that begins with a drive is the path of a file; what stands behind a question mark or a
/// number sign does not belong to it.
pub proof fn law_drive_paths_are_files(drive: char, path: Seq<char>, rest: Seq<char>)
    requires
        path.len() > 0,
        path[0] == '/' || path[0] == '\\',
        drive != '%' && drive != '?' && drive != '#' && drive != 'f',
        !path.contains('%') && !path.contains('?') && !path.contains('#'),
        rest.len() == 0 || (rest[0] == '?' || rest[0] == '#') && !rest.contains('%'),
    ensures
        local_path(seq![drive, ':'] + path + rest) == Some(seq![drive, ':'] + path),
        wanted_source(seq![drive, ':'] + path + rest) == Some(
            ImageSourceView::File(seq![drive, ':'] + path),
        ),
{
    reveal_strlit("file://");
    let file = seq![drive, ':'] + path;
    let src = file + rest;
    lemma_prefix_start("file://"@, src);
    assert("file://"@[0] == 'f');
    assert(src[0] == drive && src[1] == ':' && src[2] == path[0]);
    assert forall|i: int| 0 <= i < file.len() implies #[trigger] file[i] != '%' && file[i] != '?'
        && file[i] != '#' by {
        if i >= 2 {
            assert(file[i] == path[i - 2]);
            assert(path.contains(path[i - 2]));
        }
    }
    assert(!src.contains('%')) by {
        assert forall|i: int| 0 <= i < src.len() implies src[i] != '%' by {
            if i < file.len() {
                assert(src[i] == file[i]);
            } else {
                assert(src[i] == rest[i - file.len()]);
                assert(rest.contains(rest[i - file.len()]));
            }
        }
    }
    law_text_without_escapes_stays(src);
    let n = file.len() as int;
    assert(file.take(n) == file);
    assert(src.take(n) == file);
    if rest.len() > 0 && rest[0] == '?' {
        assert forall|i: int| 0 <= i < n implies #[trigger] src[i] != '?' by {
            assert(src[i] == file[i]);
        }
        assert(src[n] == '?');
        lemma_span_is(src, '?', n);
        lemma_span_is(file, '#', n);
    } else if rest.len() > 0 {
        lemma_before_twice(file, rest);
    } else {
        assert(src == file);
        lemma_span_is(file, '?', n);
        lemma_span_is(file, '#', n);
    }
}

/// What stands before a number sign, where no question mark stands before it.
proof fn lemma_before_twice(file: Seq<char>, rest: Seq<char>)
    requires
        rest.len() > 0,
        rest[0] == '#',
        forall|i: int| 0 <= i < file.len() ==> #[trigger] file[i] != '?' && file[i] != '#',
    ensures
        before(before(file + rest, '?'), '#') == file,
{
    let src = file + rest;
    let n = file.len() as int;
    lemma_span(src, '?');
    let k = span(src, '?') as int;
    assert(k > n) by {
        if k <= n {
            if k < n {
                assert(src[k] == file[k]);
            } else {
                assert(src[k] == rest[0]);
            }
        }
    }
    let head = src.take(k);
    assert forall|i: int| 0 <= i < n implies #[trigger] head[i] != '#' by {
        assert(head[i] == file[i]);
    }
    assert(head[n] == '#');
    lemma_span_is(head, '#', n);
    assert(head.take(n) == file);
}

/// The value of an image attribute that holds data is taken whole; of a list of addresses the first
/// one is taken, without what stands behind it, and with its ampersands decoded.
pub proof fn law_first_address_of_a_list(first: Seq<char>, rest: Seq<char>)
    requires
        first.len() > 0,
        forall|i: int| 0 <= i < first.len() ==> !is_space(#[trigger] first[i]) && first[i] != ','
            && first[i] != '&',
        !"data:"@.is_prefix_of(first + rest),
        !"blob:"@.is_prefix_of(first),
        !"javascript:"@.is_prefix_of(first),
        rest.len() == 0 || ((rest[0] == ' ' || rest[0] == ',') && !is_space(rest.last())),
    ensures
        src_candidate(first + rest) == Some(first),
{
    let e = Seq::<char>::empty();
    let s = first + rest;
    assert(!is_space(first[0]));
    assert(!is_space(first[first.len() - 1]));
    assert(s.last() == (if rest.len() > 0 {
        rest.last()
    } else {
        first[first.len() - 1]
    }));
    lemma_trimmed_around(e, s, e);
    assert(e + s + e == s);
    lemma_span(s, ',');
    let n = span(s, ',') as int;
    let m = first.len() as int;
    assert(n >= m) by {
        if n < m {
            assert(s[n] == first[n]);
        }
    }
    let head = s.take(n);
    assert(head[0] == first[0]);
    let (v, w) = lemma_trimmed_parts(head);
    if trimmed(head).len() == 0 {
        if v.len() > 0 {
            assert(head[0] == v[0]);
        } else {
            assert(head[0] == w[0]);
        }
    }
    assert(trimmed_start(head) == head);
    lemma_word_len(first, head.skip(m));
    assert(head == first + head.skip(m)) by {
        assert(head.take(m) == first);
    }
    if head.skip(m).len() > 0 {
        assert(head.skip(m)[0] == rest[0]);
        assert(s[m] == rest[0]);
        assert(rest[0] != ',') by {
            if rest[0] == ',' {
                assert(s[m] == ',');
                lemma_span_is(s, ',', m);
            }
        }
    }
    assert(head.take(m) == first);
    assert(first_word(head) == first);
    lemma_trimmed_around(e, first, e);
    assert(e + first + e == first);
    reveal_strlit("&amp;");
    assert(!first.contains('&'));
    lemma_nothing_replaced(first, "&amp;"@, "&"@);
}

/// A word ends where white space begins.
proof fn lemma_word_len(word: Seq<char>, rest: Seq<char>)
    requires
        forall|i: int| 0 <= i < word.len() ==> !is_space(#[trigger] word[i]),
    ensures
        rest.len() == 0 || is_space(rest[0]) ==> word_len(word + rest) == word.len(),
    decreases word.len(),
{
    if rest.len() == 0 || is_space(rest[0]) {
        let s = word + rest;
        if word.len() > 0 {
            let t = word.drop_first();
            assert(s[0] == word[0]);
            assert(s.drop_first() == t + rest);
            assert forall|i: int| 0 <= i < t.len() implies !is_space(#[trigger] t[i]) by {
                assert(t[i] == word[i + 1]);
            }
            lemma_word_len(t, rest);
        } else {
            assert(s == rest);
        }
    }
}

/// A data address is taken whole, and an address that runs a script or lies in the memory of the
/// browser is none.
pub proof fn law_data_is_taken_whole(src: Seq<char>)
    requires
        trimmed(src) == src,
    ensures
        "data:"@.is_prefix_of(src) ==> src_candidate(src) == Some(src),
        src.len() == 0 ==> src_candidate(src) is None,
{
    reveal_strlit("data:");
    reveal_strlit("blob:");
    reveal_strlit("javascript:");
    lemma_prefix_start("data:"@, src);
    lemma_prefix_start("blob:"@, src);
    lemma_prefix_start("javascript:"@, src);
    assert("data:"@[0] == 'd' && "blob:"@[0] == 'b' && "javascript:"@[0] == 'j');
}

/// An address names a GIF by each of four signs, whatever the case.
pub proof fn law_gif_is_named(src: Seq<char>)
    ensures
        occurs(lowered(trimmed(src)), ".gif"@) || occurs(lowered(trimmed(src)), "format=gif"@)
            || occurs(lowered(trimmed(src)), "fm=gif"@) || occurs(
            lowered(trimmed(src)),
            "image/gif"@,
        ) <==> names_gif(src),
{
}

// ---------------------------------------------------------------------------
// Searches

/// The first source that gives an image ends the search: behind sources whose replies give none, one
/// that holds its data gives these, and one whose reply gives an image gives that.
pub proof fn law_first_image_wins(
    sources: Seq<ImageSourceView>,
    replies: Seq<ImageReply>,
    n: int,
    animated: bool,
)
    requires
        0 <= n < sources.len(),
        n <= replies.len(),
        forall|i: int|
            0 <= i < n ==> #[trigger] sources[i] !is Data && answered(
                sources[i],
                replies[i],
                animated,
            ) is None,
    ensures
        sources[n] matches ImageSourceView::Data(url) ==> searched(sources, replies, animated)
            == ImageSearchView::Done(Some(url)),
        sources[n] !is Data && n == replies.len() ==> searched(sources, replies, animated)
            == ImageSearchView::Ask(sources[n]),
        sources[n] !is Data && n < replies.len() ==> (answered(
            sources[n],
            replies[n],
            animated,
        ) matches Some(url) ==> searched(sources, replies, animated) == ImageSearchView::Done(
            Some(url),
        )),
    decreases n,
{
    if n > 0 {
        let rest = sources.drop_first();
        let more = replies.drop_first();
        assert(sources[0] !is Data);
        assert forall|i: int| 0 <= i < n - 1 implies #[trigger] rest[i] !is Data && answered(
            rest[i],
            more[i],
            animated,
        ) is None by {
            assert(rest[i] == sources[i + 1]);
            assert(more[i] == replies[i + 1]);
        }
        assert(rest[n - 1] == sources[n]);
        if n < replies.len() {
            assert(more[n - 1] == replies[n]);
        }
        law_first_image_wins(rest, more, n - 1, animated);
    }
}

/// A search that had a reply for every source, none of which gave an image, finds nothing.
pub proof fn law_search_without_images_finds_nothing(
    sources: Seq<ImageSourceView>,
    replies: Seq<ImageReply>,
    animated: bool,
)
    requires
        sources.len() <= replies.len(),
        forall|i: int|
            0 <= i < sources.len() ==> #[trigger] sources[i] !is Data && answered(
                sources[i],
                replies[i],
                animated,
            ) is None,
    ensures
        searched(sources, replies, animated) == ImageSearchView::Done(None),
    decreases sources.len(),
{
    if sources.len() > 0 {
        let rest = sources.drop_first();
        let more = replies.drop_first();
        assert(sources[0] !is Data);
        assert forall|i: int| 0 <= i < rest.len() implies #[trigger] rest[i] !is Data && answered(
            rest[i],
            more[i],
            animated,
        ) is None by {
            assert(rest[i] == sources[i + 1]);
            assert(more[i] == replies[i + 1]);
        }
        law_search_without_images_finds_nothing(rest, more, animated);
    }
}

/// The sources of two lots of values are those of the first and then those of the second.
pub proof fn law_sources_keep_their_order(
    a: Seq<Seq<char>>,
    b: Seq<Seq<char>>,
    animated: bool,
)
    ensures
        value_sources(a + b, animated) == value_sources(a, animated) + value_sources(b, animated),
    decreases b.len(),
{
    if b.len() > 0 {
        let t = b.drop_last();
        law_sources_keep_their_order(a, t, animated);
        assert((a + b).drop_last() == a + t);
        assert((a + b).last() == b.last());
        if let Some(s) = value_source(b.last(), animated) {
            let x = value_sources(a, animated);
            let y = value_sources(t, animated);
            assert((x + y).push(s) == x + y.push(s));
        }
    } else {
        assert(a + b == a);
        let x = value_sources(a, animated);
        assert(x + value_sources(b, animated) == x);
    }
}

/// Where an image is looked for: the data of an image are at hand; a file is looked for where a path
/// is given, and where an animated image is wanted only if its name says so; another host is asked
/// only for an animated image.
pub proof fn law_where_images_are_looked_for(src: Seq<char>)
    requires
        trimmed(src) == src,
    ensures
        "data:image/"@.is_prefix_of(src) ==> nearby_source(src) == Some(ImageSourceView::Data(src)),
        "data:image/gif"@.is_prefix_of(src) ==> animated_source(src) == Some(
            ImageSourceView::Data(src),
        ),
        nearby_source(src) matches Some(s) ==> s !is Remote,
        !"data:image/"@.is_prefix_of(src) ==> (local_path(src) matches Some(path)
            ==> nearby_source(src) == Some(ImageSourceView::File(path))),
        !"data:image/gif"@.is_prefix_of(src) && !names_gif(src) ==> animated_source(src) is None,
        !"data:image/gif"@.is_prefix_of(src) && names_gif(src) ==> (local_path(src) matches Some(
            path,
        ) ==> animated_source(src) == Some(ImageSourceView::File(path))),
        !"data:image/gif"@.is_prefix_of(src) && names_gif(src) && local_path(src) is None ==> (
        remote_url(src) matches Some(url) ==> animated_source(src) == Some(
            ImageSourceView::Remote(url),
        )),
{
}

/// Blank markup holds no image.
pub proof fn law_blank_markup_holds_no_image(
    html: Seq<char>,
    replies: Seq<ImageReply>,
    animated: bool,
)
    requires
        trimmed(html).len() == 0,
    ensures
        html_searched(html, replies, animated) == ImageSearchView::Done(None),
{
}

// ---------------------------------------------------------------------------
// Links

/// What an embedded link holds: the data address of the file that was read, with the type of its
/// extension; the data address of what a host answered, with the type that was found; and the
/// address that it had where nothing, or something else, came back.
pub proof fn law_embedded_link_holds_the_image(src: Seq<char>, reply: ImageReply)
    ensures
        wanted_source(src) is None ==> embedded_src(src, reply) == src,
        reply is Nothing ==> embedded_src(src, reply) == src,
        wanted_source(src) matches Some(ImageSourceView::File(_)) ==> match reply {
            ImageReply::File { bytes, extension } => embedded_src(src, reply) == "data:"@
                + file_mime(file_ext(extension)) + ";base64,"@ + base64_text(bytes@),
            _ => embedded_src(src, reply) == src,
        },
        wanted_source(src) matches Some(ImageSourceView::Remote(url)) ==> match reply {
            ImageReply::Remote(r) => match remote_ext(url, r) {
                Some(e) => embedded_src(src, reply) == "data:"@ + mime_of_ext(e) + ";base64,"@
                    + base64_text(r.body->0@),
                None => embedded_src(src, reply) == src,
            },
            _ => embedded_src(src, reply) == src,
        },
{
}

/// The type of an embedded file goes by its extension, and is that of a PNG where it is not known.
pub proof fn law_file_types_go_by_extension(ext: Seq<char>)
    ensures
        ext == "jpg"@ || ext == "jpeg"@ ==> file_mime(ext) == "image/jpeg"@,
        ext == "gif"@ ==> file_mime(ext) == "image/gif"@,
        ext == "webp"@ ==> file_mime(ext) == "image/webp"@,
        ext == "bmp"@ ==> file_mime(ext) == "image/bmp"@,
        ext == "svg"@ ==> file_mime(ext) == "image/svg+xml"@,
        ext != "jpg"@ && ext != "jpeg"@ && ext != "gif"@ && ext != "webp"@ && ext != "bmp"@ && ext
            != "svg"@ ==> file_mime(ext) == "image/png"@,
{
    reveal_strlit("jpg");
    reveal_strlit("jpeg");
    reveal_strlit("gif");
    reveal_strlit("webp");
    reveal_strlit("bmp");
    reveal_strlit("svg");
    assert("jpg"@[0] == 'j' && "gif"@[0] == 'g' && "bmp"@[0] == 'b' && "svg"@[0] == 's');
    assert("webp"@[0] == 'w' && "jpeg"@[0] == 'j');
}

/// An address that holds data asks for nothing.
pub proof fn law_data_addresses_ask_for_nothing(rest: Seq<char>)
    ensures
        wanted_source("data:"@ + rest) is None,
{
    reveal_strlit("data:");
    reveal_strlit("file://");
    reveal_strlit("http://");
    reveal_strlit("https://");
    reveal_strlit("//");
    let s = "data:"@ + rest;
    assert(s[0] == 'd' && s[1] == 'a');
    lemma_prefix_start("file://"@, s);
    let (v, w) = lemma_trimmed_parts(s);
    let t = trimmed(s);
    if v.len() > 0 {
        assert(s[0] == v[0]);
    }
    assert(v + t == t);
    if t.len() == 0 {
        assert(s[0] == w[0]);
    }
    assert(t[0] == s[0]);
    lemma_prefix_start("http://"@, t);
    lemma_prefix_start("https://"@, t);
    lemma_prefix_start("//"@, t);
}

/// In markup with one image link, only the address in the link changes: what stands around the
/// address stays as it is.
pub proof fn law_only_the_address_of_a_link_changes(
    before: Seq<char>,
    opening: Seq<char>,
    src: Seq<char>,
    closing: Seq<char>,
    behind: Seq<char>,
    replies: Seq<ImageReply>,
    inside: Seq<bool>,
    paths: Seq<Option<String>>,
)
    requires
        ({
            let html = before + opening + src + closing + behind;
            let a = byte_len(before) as usize;
            let b = byte_len(before + opening) as usize;
            let c = byte_len(before + opening + src) as usize;
            let d = byte_len(before + opening + src + closing) as usize;
            &&& byte_len(html) <= usize::MAX
            &&& pattern_groups(r#"(<img\s+[^>]*src=["'])([^"']+)(["'][^>]*>)"#@, html) == seq![
                seq![Some((a, d)), Some((a, b)), Some((b, c)), Some((c, d))],
            ]
        }),
    ensures
        images_embedded(before + opening + src + closing + behind, replies) == before + opening
            + embedded_src(src, reply_at(replies, 0)) + closing + behind,
        images_stored(before + opening + src + closing + behind, inside, paths) == before + opening
            + stored_src(
            src,
            inside_at(inside, 0),
            path_at(paths, 0),
        ) + closing + behind,
{
    let e = Seq::<char>::empty();
    let html = before + opening + src + closing + behind;
    let gs = pattern_groups(r#"(<img\s+[^>]*src=["'])([^"']+)(["'][^>]*>)"#@, html);
    let g = gs[0];
    lemma_slice_of_part(e, before, opening + src + closing + behind);
    assert(e + before == before);
    assert(before + (opening + src + closing + behind) == html);
    assert(byte_len(e) == 0);
    lemma_slice_of_part(before, opening, src + closing + behind);
    assert(before + opening + (src + closing + behind) == html);
    lemma_slice_of_part(before + opening, src, closing + behind);
    assert(before + opening + src + (closing + behind) == html);
    lemma_slice_of_part(before + opening + src, closing, behind);
    lemma_slice_of_part(before + opening + src + closing, behind, e);
    assert(html + e == html);
    let rs = whole_ranges(gs);
    assert(rs.len() == 1 && rs[0] == g[0]->0);
    assert(group_text(html, g, 1) == opening);
    assert(group_text(html, g, 2) == src);
    assert(group_text(html, g, 3) == closing);
    assert(gap_text(html, rs, 0) == before);
    assert(gap_text(html, rs, 1) == behind);
    let srcs = link_srcs(html, gs);
    assert(srcs[0] == src);
    assert forall|new: Seq<Seq<char>>| new.len() == 1 implies #[trigger] relinked(html, gs, new)
        == before + opening + new[0] + closing + behind by {
        assert(relinked_upto(html, gs, new, 0) == e);
        assert(relinked_upto(html, gs, new, 1) == e + before + opening + new[0] + closing);
    }
}

/// The text of image links up to the link `n`: before each link a gap, then what stands before its
/// address, the address and what stands behind it.
pub open spec fn links_text(
    gaps: Seq<Seq<char>>,
    openings: Seq<Seq<char>>,
    srcs: Seq<Seq<char>>,
    closings: Seq<Seq<char>>,
    n: int,
) -> Seq<char>
    decreases n,
{
    if n <= 0 {
        seq![]
    } else {
        links_text(gaps, openings, srcs, closings, n - 1) + gaps[n - 1] + openings[n - 1] + srcs[n
            - 1] + closings[n - 1]
    }
}

/// The text up to a link is the beginning of the text up to a later one.
proof fn lemma_links_begin(
    gaps: Seq<Seq<char>>,
    openings: Seq<Seq<char>>,
    srcs: Seq<Seq<char>>,
    closings: Seq<Seq<char>>,
    i: int,
    n: int,
) -> (rest: Seq<char>)
    requires
        0 <= i <= n,
    ensures
        links_text(gaps, openings, srcs, closings, n) == links_text(
            gaps,
            openings,
            srcs,
            closings,
            i,
        ) + rest,
    decreases n - i,
{
    let a = links_text(gaps, openings, srcs, closings, i);
    if i == n {
        assert(a + Seq::<char>::empty() == a);
        Seq::empty()
    } else {
        let r = lemma_links_begin(gaps, openings, srcs, closings, i, n - 1);
        let rest = r + gaps[n - 1] + openings[n - 1] + srcs[n - 1] + closings[n - 1];
        assert(a + rest == a + r + gaps[n - 1] + openings[n - 1] + srcs[n - 1] + closings[n - 1]);
        rest
    }
}

/// Where the parts of an image link stand: the whole link, and what stands before its address, the
/// address and what stands behind it.
pub open spec fn link_ranges(
    before: Seq<char>,
    opening: Seq<char>,
    src: Seq<char>,
    closing: Seq<char>,
) -> Seq<Option<(usize, usize)>> {
    let a = byte_len(before) as usize;
    let b = byte_len(before + opening) as usize;
    let c = byte_len(before + opening + src) as usize;
    let d = byte_len(before + opening + src + closing) as usize;
    seq![Some((a, d)), Some((a, b)), Some((b, c)), Some((c, d))]
}

/// The parts of one of many links are cut out of the markup.
proof fn lemma_link_parts(
    html: Seq<char>,
    gs: Seq<Seq<Option<(usize, usize)>>>,
    gaps: Seq<Seq<char>>,
    openings: Seq<Seq<char>>,
    srcs: Seq<Seq<char>>,
    closings: Seq<Seq<char>>,
    behind: Seq<char>,
    i: int,
)
    requires
        html == links_text(gaps, openings, srcs, closings, gs.len() as int) + behind,
        byte_len(html) <= usize::MAX,
        0 <= i < gs.len(),
        forall|j: int|
            0 <= j < gs.len() ==> #[trigger] gs[j] == link_ranges(
                links_text(gaps, openings, srcs, closings, j) + gaps[j],
                openings[j],
                srcs[j],
                closings[j],
            ),
    ensures
        gap_text(html, whole_ranges(gs), i) == gaps[i],
        group_text(html, gs[i], 1) == openings[i],
        group_text(html, gs[i], 2) == srcs[i],
        group_text(html, gs[i], 3) == closings[i],
{
    let more = lemma_links_begin(gaps, openings, srcs, closings, i + 1, gs.len() as int);
    let rest = more + behind;
    let a = links_text(gaps, openings, srcs, closings, i);
    let g = gaps[i];
    let o = openings[i];
    let s = srcs[i];
    let c = closings[i];
    assert(a + g + (o + s + c + rest) == html);
    assert(a + g + o + (s + c + rest) == html);
    assert(a + g + o + s + (c + rest) == html);
    assert(a + g + o + s + c + rest == html);
    lemma_slice_of_part(a, g, o + s + c + rest);
    lemma_slice_of_part(a + g, o, s + c + rest);
    lemma_slice_of_part(a + g + o, s, c + rest);
    lemma_slice_of_part(a + g + o + s, c, rest);
    let rs = whole_ranges(gs);
    assert(rs[i] == gs[i][0]->0);
    if i > 0 {
        assert(rs[i - 1] == gs[i - 1][0]->0);
    }
    assert(byte_len(Seq::<char>::empty()) == 0);
}

/// Up to a link, the markup with other addresses in its links is the same text with them.
proof fn lemma_relinked_upto(
    html: Seq<char>,
    gs: Seq<Seq<Option<(usize, usize)>>>,
    gaps: Seq<Seq<char>>,
    openings: Seq<Seq<char>>,
    srcs: Seq<Seq<char>>,
    closings: Seq<Seq<char>>,
    behind: Seq<char>,
    new: Seq<Seq<char>>,
    n: int,
)
    requires
        html == links_text(gaps, openings, srcs, closings, gs.len() as int) + behind,
        byte_len(html) <= usize::MAX,
        0 <= n <= gs.len(),
        forall|j: int|
            0 <= j < gs.len() ==> #[trigger] gs[j] == link_ranges(
                links_text(gaps, openings, srcs, closings, j) + gaps[j],
                openings[j],
                srcs[j],
                closings[j],
            ),
    ensures
        relinked_upto(html, gs, new, n) == links_text(gaps, openings, new, closings, n),
    decreases n,
{
    if n > 0 {
        lemma_relinked_upto(html, gs, gaps, openings, srcs, closings, behind, new, n - 1);
        lemma_link_parts(html, gs, gaps, openings, srcs, closings, behind, n - 1);
    }
}

/// In markup with any number of image links, only the addresses in the links change, each one by
/// the answer for it: what stands before, between and behind them stays as it is.
pub proof fn law_only_the_addresses_of_links_change(
    gaps: Seq<Seq<char>>,
    openings: Seq<Seq<char>>,
    srcs: Seq<Seq<char>>,
    closings: Seq<Seq<char>>,
    behind: Seq<char>,
    replies: Seq<ImageReply>,
    inside: Seq<bool>,
    paths: Seq<Option<String>>,
)
    requires
        gaps.len() == srcs.len(),
        openings.len() == srcs.len(),
        closings.len() == srcs.len(),
        ({
            let n = srcs.len() as int;
            let html = links_text(gaps, openings, srcs, closings, n) + behind;
            let gs = pattern_groups(r#"(<img\s+[^>]*src=["'])([^"']+)(["'][^>]*>)"#@, html);
            &&& byte_len(html) <= usize::MAX
            &&& gs.len() == n
            &&& forall|j: int|
                0 <= j < n ==> #[trigger] gs[j] == link_ranges(
                    links_text(gaps, openings, srcs, closings, j) + gaps[j],
                    openings[j],
                    srcs[j],
                    closings[j],
                )
        }),
    ensures
        ({
            let n = srcs.len() as int;
            let html = links_text(gaps, openings, srcs, closings, n) + behind;
            let embedded = Seq::new(
                srcs.len(),
                |i: int| embedded_src(srcs[i], reply_at(replies, i)),
            );
            let stored = Seq::new(
                srcs.len(),
                |i: int| stored_src(srcs[i], inside_at(inside, i), path_at(paths, i)),
            );
            &&& images_embedded(html, replies) == links_text(gaps, openings, embedded, closings, n)
                + behind
            &&& images_stored(html, inside, paths) == links_text(
                gaps,
                openings,
                stored,
                closings,
                n,
            ) + behind
        }),
{
    let n = srcs.len() as int;
    let all = links_text(gaps, openings, srcs, closings, n);
    let html = all + behind;
    let gs = pattern_groups(r#"(<img\s+[^>]*src=["'])([^"']+)(["'][^>]*>)"#@, html);
    let e = Seq::<char>::empty();
    let embedded = Seq::new(srcs.len(), |i: int| embedded_src(srcs[i], reply_at(replies, i)));
    let stored = Seq::new(
        srcs.len(),
        |i: int| stored_src(srcs[i], inside_at(inside, i), path_at(paths, i)),
    );
    let found = link_srcs(html, gs);
    assert forall|i: int| 0 <= i < n implies #[trigger] found[i] == srcs[i] by {
        lemma_link_parts(html, gs, gaps, openings, srcs, closings, behind, i);
    }
    assert(found == srcs);
    assert(Seq::new(gs.len(), |i: int| embedded_src(found[i], reply_at(replies, i))) == embedded);
    assert(stored_srcs(html, inside, paths) == stored);
    lemma_relinked_upto(html, gs, gaps, openings, srcs, closings, behind, embedded, n);
    lemma_relinked_upto(html, gs, gaps, openings, srcs, closings, behind, stored, n);
    lemma_slice_of_part(all, behind, e);
    assert(html + e == html);
    let rs = whole_ranges(gs);
    if n > 0 {
        assert(rs[n - 1] == gs[n - 1][0]->0);
    } else {
        assert(byte_len(e) == 0);
    }
    assert(gap_text(html, rs, n) == behind);
}

/// An answer of the wrong kind is no image. An image file that was read is embedded with its type,
/// and of animated images only a file that is one; an answer from the web is embedded only where it
/// is a picture that can be animated, by its type and by its bytes.
pub proof fn law_answers_that_count(
    path: Seq<char>,
    url: Seq<char>,
    reply: ImageReply,
    animated: bool,
)
    ensures
        answered(ImageSourceView::Data(url), reply, animated) is None,
        match reply {
            ImageReply::File { bytes, .. } => {
                &&& answered(ImageSourceView::File(path), reply, false) == image_data_url(bytes@)
                &&& seq![71u8, 73, 70, 56, 57, 97].is_prefix_of(bytes@) ==> answered(
                    ImageSourceView::File(path),
                    reply,
                    true,
                ) == Some("data:image/gif;base64,"@ + base64_text(bytes@))
                &&& seq![137u8, 80, 78, 71, 13, 10, 26, 10].is_prefix_of(bytes@) ==> answered(
                    ImageSourceView::File(path),
                    reply,
                    true,
                ) is None
                &&& answered(ImageSourceView::Remote(url), reply, animated) is None
            },
            ImageReply::Remote(r) => {
                &&& answered(ImageSourceView::File(path), reply, animated) is None
                &&& remote_ext(url, r) != Some("gif"@) ==> answered(
                    ImageSourceView::Remote(url),
                    reply,
                    animated,
                ) is None
                &&& remote_ext(url, r) == Some("gif"@) && seq![
                    71u8,
                    73,
                    70,
                    56,
                    57,
                    97,
                ].is_prefix_of(r.body->0@) ==> answered(
                    ImageSourceView::Remote(url),
                    reply,
                    animated,
                ) == Some("data:image/gif;base64,"@ + base64_text(r.body->0@))
            },
            ImageReply::Nothing => answered(ImageSourceView::File(path), reply, animated) is None
                && answered(ImageSourceView::Remote(url), reply, animated) is None,
        },
{
    let bytes = match reply {
        ImageReply::File { bytes, .. } => bytes@,
        ImageReply::Remote(r) => r.body->0@,
        ImageReply::Nothing => seq![],
    };
    reveal_strlit("data:image/gif;base64,");
    reveal_strlit("data:");
    reveal_strlit("image/gif");
    reveal_strlit(";base64,");
    reveal_strlit("png");
    reveal_strlit("gif");
    assert("data:image/gif;base64,"@ =~= "data:"@ + "image/gif"@ + ";base64,"@);
    assert("png"@[0] == 'p' && "gif"@[0] == 'g');
    law_images_are_known_by_their_first_bytes(bytes);
    lemma_kinds_by_first_bytes(bytes);
}

/// The kind of an image by its first bytes, of two kinds.
proof fn lemma_kinds_by_first_bytes(bytes: Seq<u8>)
    ensures
        seq![71u8, 73, 70, 56, 57, 97].is_prefix_of(bytes) ==> ext_of_bytes(bytes) == Some("gif"@),
        seq![137u8, 80, 78, 71, 13, 10, 26, 10].is_prefix_of(bytes) ==> ext_of_bytes(bytes) == Some(
            "png"@,
        ),
{
    let png = seq![137u8, 80, 78, 71, 13, 10, 26, 10];
    let gif = seq![71u8, 73, 70, 56, 57, 97];
    if png.is_prefix_of(bytes) {
        assert(bytes.subrange(0, 8)[0] == bytes[0]);
        assert(bytes.subrange(0, 8)[1] == bytes[1]);
        assert(bytes.subrange(0, 8)[2] == bytes[2]);
        assert(bytes.subrange(0, 8)[3] == bytes[3]);
    }
    if gif.is_prefix_of(bytes) {
        assert(bytes.subrange(0, 6)[0] == bytes[0]);
        assert(bytes.subrange(0, 6)[1] == bytes[1]);
        assert(bytes.subrange(0, 6)[2] == bytes[2]);
        assert(bytes.subrange(0, 6)[3] == bytes[3]);
    }
}

/// A media type that is none of five images decides nothing: the address does, and else the bytes.
pub proof fn law_other_media_types_decide_nothing(
    url: Seq<char>,
    reply: RemoteReply,
    media: Seq<char>,
    rest: Seq<char>,
)
    requires
        reply.success,
        reply.content_length matches Some(n) ==> n <= 8388608,
        reply.body matches Some(b) && 0 < b@.len() <= 8388608,
        answers_with_type(reply, media, rest),
        trimmed(media) == media,
        !media.contains(';'),
        media != "image/png"@ && media != "image/jpeg"@ && media != "image/gif"@ && media
            != "image/webp"@ && media != "image/bmp"@,
    ensures
        ext_of_url(url) is Some ==> remote_ext(url, reply) == ext_of_url(url),
        ext_of_url(url) is None ==> remote_ext(url, reply) == ext_of_bytes(reply.body->0@),
{
    let s = reply.content_type->0@;
    let n = media.len() as int;
    assert forall|i: int| 0 <= i < n implies #[trigger] s[i] != ';' by {
        assert(s[i] == media[i]);
        assert(media.contains(media[i]));
    }
    lemma_span_is(s, ';', n);
    assert(s.take(n) == media);
}

/// Nothing is looked for where an address leads neither to image data nor to a file; and animated
/// images are not where nothing leads to them.
pub proof fn law_where_no_image_is_looked_for(src: Seq<char>)
    requires
        trimmed(src) == src,
        local_path(src) is None,
    ensures
        !"data:image/"@.is_prefix_of(src) ==> nearby_source(src) is None,
        !"data:image/gif"@.is_prefix_of(src) && remote_url(src) is None ==> animated_source(src)
            is None,
{
}

/// A value of an attribute leads where its address leads, and nowhere where it holds none.
pub proof fn law_values_lead_where_their_addresses_lead(value: Seq<char>)
    ensures
        src_candidate(value) matches Some(c) ==> value_source(value, true) == animated_source(c)
            && value_source(value, false) == nearby_source(c),
        src_candidate(value) is None ==> value_source(value, true) is None && value_source(
            value,
            false,
        ) is None,
{
}

/// A text without white space and without a comma is one address.
proof fn lemma_one_word(s: Seq<char>)
    requires
        s.len() > 0,
        forall|i: int| 0 <= i < s.len() ==> !is_space(#[trigger] s[i]) && s[i] != ',',
    ensures
        trimmed(s) == s,
        before(s, ',') == s,
        first_word(s) == s,
{
    let e = Seq::<char>::empty();
    assert(!is_space(s[0]) && !is_space(s[s.len() - 1]));
    lemma_trimmed_around(e, s, e);
    assert(e + s + e == s);
    lemma_span(s, ',');
    assert(span(s, ',') == s.len());
    assert(s.take(s.len() as int) == s);
    assert(trimmed_start(s) == s);
    lemma_word_len(s, e);
    assert(s + e == s);
}

/// An address of a script, or of something that only the page holds, is no address of an image; and
/// in other addresses the ampersand is decoded.
pub proof fn law_addresses_are_decoded(a: Seq<char>, b: Seq<char>)
    requires
        a.len() > 0,
        b.len() > 0,
        forall|i: int| 0 <= i < a.len() ==> !is_space(#[trigger] a[i]) && a[i] != ',' && a[i] != '&',
        forall|i: int| 0 <= i < b.len() ==> !is_space(#[trigger] b[i]) && b[i] != ',' && b[i] != '&',
    ensures
        !"data:"@.is_prefix_of(a + "&amp;"@ + b) && !"blob:"@.is_prefix_of(a + seq!['&'] + b)
            && !"javascript:"@.is_prefix_of(a + seq!['&'] + b) ==> src_candidate(
            a + "&amp;"@ + b,
        ) == Some(a + seq!['&'] + b),
        src_candidate("blob:"@ + a) is None,
        src_candidate("javascript:"@ + a) is None,
{
    reveal_strlit("&amp;");
    reveal_strlit("&");
    reveal_strlit("blob:");
    reveal_strlit("javascript:");
    reveal_strlit("data:");
    let s = a + "&amp;"@ + b;
    let t = a + seq!['&'] + b;
    assert forall|i: int| 0 <= i < s.len() implies !is_space(#[trigger] s[i]) && s[i] != ',' by {
        if i < a.len() {
            assert(s[i] == a[i]);
        } else if i >= a.len() + 5 {
            assert(s[i] == b[i - a.len() - 5]);
        }
    }
    lemma_one_word(s);
    assert("&"@ =~= seq!['&']);
    lemma_once_replaced(a, "&amp;"@, b, "&"@);
    assert(t.len() > 0);
    let x = "blob:"@ + a;
    assert forall|i: int| 0 <= i < x.len() implies !is_space(#[trigger] x[i]) && x[i] != ',' && x[i]
        != '&' by {
        if i >= 5 {
            assert(x[i] == a[i - 5]);
        }
    }
    lemma_one_word(x);
    lemma_nothing_replaced(x, "&amp;"@, "&"@);
    assert(x.subrange(0, 5) =~= "blob:"@);
    if "data:"@.is_prefix_of(x) {
        assert(x.subrange(0, 5)[0] == x[0]);
    }
    let y = "javascript:"@ + a;
    assert forall|i: int| 0 <= i < y.len() implies !is_space(#[trigger] y[i]) && y[i] != ',' && y[i]
        != '&' by {
        if i >= 11 {
            assert(y[i] == a[i - 11]);
        }
    }
    lemma_one_word(y);
    lemma_nothing_replaced(y, "&amp;"@, "&"@);
    assert(y.subrange(0, 11) =~= "javascript:"@);
    if "data:"@.is_prefix_of(y) {
        assert(y.subrange(0, 5)[0] == y[0]);
    }
}

/// Every attribute with an address in every image tag gives its value, tag by tag and attribute by
/// attribute, and nothing else does.
pub proof fn law_every_image_tag_gives_its_addresses(html: Seq<char>, tag: int, attr: int)
    ensures
        ({
            let rs = pattern_ranges(r"(?is)<img\b[^>]*>"@, html);
            let text = match_text(html, rs, tag);
            let gs = pattern_groups(
                r#"(?is)(src|data-src|data-original|data-actualsrc|srcset)\s*=\s*["']([^"']+)["']"#@,
                text,
            );
            let before = tags_values(html, rs, tag).len();
            &&& 0 <= tag < rs.len() && 0 <= attr < gs.len() ==> before + attr < img_values(
                html,
            ).len() && img_values(html)[before + attr] == group_text(text, gs[attr], 2)
            &&& 0 <= tag < rs.len() ==> tags_values(html, rs, tag + 1).len() == before + gs.len()
            &&& rs.len() == 0 ==> img_values(html).len() == 0
            &&& tags_values(html, rs, 0).len() == 0
            &&& img_values(html).len() == tags_values(html, rs, rs.len() as int).len()
        }),
{
    let rs = pattern_ranges(r"(?is)<img\b[^>]*>"@, html);
    if 0 <= tag < rs.len() {
        lemma_values_begin(html, rs, tag + 1, rs.len() as int);
        let text = match_text(html, rs, tag);
        assert(tags_values(html, rs, tag + 1) == tags_values(html, rs, tag) + tag_values(text));
    }
}

/// The values up to a tag are the first ones.
proof fn lemma_values_begin(html: Seq<char>, rs: Seq<(usize, usize)>, i: int, n: int)
    requires
        0 <= i <= n,
    ensures
        tags_values(html, rs, i).len() <= tags_values(html, rs, n).len(),
        forall|k: int|
            0 <= k < tags_values(html, rs, i).len() ==> #[trigger] tags_values(html, rs, n)[k]
                == tags_values(html, rs, i)[k],
    decreases n - i,
{
    if i < n {
        lemma_values_begin(html, rs, i, n - 1);
        assert forall|k: int| 0 <= k < tags_values(html, rs, i).len() implies #[trigger] tags_values(
            html,
            rs,
            n,
        )[k] == tags_values(html, rs, i)[k] by {
            assert(tags_values(html, rs, n)[k] == tags_values(html, rs, n - 1)[k]);
        }
    }
}

/// The type of a file goes by its extension, whatever its case, and a file without one is taken for
/// a `png`.
pub proof fn law_extension_whatever_case(extension: Option<String>)
    ensures
        extension is None ==> file_ext(extension) == "png"@,
        extension matches Some(e) ==> is_ascii_chars(e@) ==> file_ext(extension) == lowered(e@),
{
}

/// A link is made the address of the stored image where it leads to the web, or to a file outside
/// of the directory of the stored images; it stays where nothing was stored, where it leads to
/// nothing, and where it leads to a file inside of that directory.
pub proof fn law_link_leads_to_the_stored_image(src: Seq<char>, inside: bool, path: Seq<char>)
    ensures
        stored_src(src, inside, None) == src,
        match wanted_source(src) {
            Some(ImageSourceView::Remote(_)) => stored_src(src, inside, Some(path)) == file_url(
                path,
            ),
            Some(ImageSourceView::File(_)) => stored_src(src, inside, Some(path)) == (if inside {
                src
            } else {
                file_url(path)
            }),
            _ => true,
        },
        wanted_source(src) is None ==> stored_src(src, inside, Some(path)) == src,
{
}

/// A name that only begins with a point has no extension, nor has one without a point; and a slash at
/// the end of a path makes no difference to its last segment.
pub proof fn law_names_without_extension(name: Seq<char>, path: Seq<char>)
    requires
        !name.contains('.'),
    ensures
        name_ext(name).len() == 0,
        name_ext(seq!['.'] + name).len() == 0,
        last_segment(path + seq!['/']) == last_segment(path),
{
    lemma_behind_none(name);
    lemma_behind_first(name);
    assert((path + seq!['/']).drop_last() == path);
}

/// Without the character, all of a text stands behind its last place.
proof fn lemma_behind_none(s: Seq<char>)
    requires
        !s.contains('.'),
    ensures
        behind_last(s, '.') == s,
    decreases s.len(),
{
    if s.len() > 0 {
        let t = s.drop_last();
        assert(s.contains(s.last()));
        assert forall|i: int| 0 <= i < t.len() implies t[i] != '.' by {
            assert(s.contains(s[i]));
        }
        lemma_behind_none(t);
        assert(t.push(s.last()) == s);
    }
}

/// What stands behind a point at the start is the rest.
proof fn lemma_behind_first(s: Seq<char>)
    requires
        !s.contains('.'),
    ensures
        behind_last(seq!['.'] + s, '.') == s,
    decreases s.len(),
{
    let a = seq!['.'] + s;
    if s.len() > 0 {
        let t = s.drop_last();
        assert(a.last() == s.last());
        assert(a.drop_last() == seq!['.'] + t);
        assert(s.contains(s.last()));
        assert forall|i: int| 0 <= i < t.len() implies t[i] != '.' by {
            assert(s.contains(s[i]));
        }
        lemma_behind_first(t);
        assert(t.push(s.last()) == s);
    } else {
        assert(a.last() == '.');
    }
}

/// White space around an address makes no difference to where it leads.
pub proof fn law_addresses_whatever_white_space(a: Seq<char>, b: Seq<char>)
    requires
        trimmed(a) == trimmed(b),
    ensures
        src_candidate(a) == src_candidate(b),
        remote_url(a) == remote_url(b),
        names_gif(a) == names_gif(b),
        nearby_source(a) == nearby_source(b),
        animated_source(a) == animated_source(b),
{
}

} // verus!
