//! Data that travels with markup in comments behind it: an image to fall back on, and the other
//! clipboard formats of an entry.
//!
//! The other formats are kept as JSON, in Base64. The JSON text itself is written and read outside
//! of this library; here it is a sequence of bytes.

use vstd::prelude::*;

use crate::codecs::{
    base64_bytes, base64_encode, base64_text, is_base64_char, law_base64_alphabet,
    law_base64_round_trip, read_base64,
};
use crate::text::{
    first_of, is_blank, join2, last_of, lemma_begins, lemma_first_from, lemma_first_is,
    lemma_last_is, lemma_last_upto, lemma_trimmed_around, lemma_trimmed_of_end,
    lemma_trimmed_padding, lemma_trimmed_parts, lemma_trimmed_start_cut, lemma_trimmed_twice,
    occurs, occurs_at, rsplit_once, split_once, starts_with, string_opt, trim, trim_end, trimmed,
    trimmed_end, trimmed_start,
};

verus! {

/// What begins the comment with the image.
pub const RICH_IMAGE_FALLBACK_PREFIX: &'static str = "<!--TIEZ_RICH_IMAGE:";

/// What ends the comment with the image.
pub const RICH_IMAGE_FALLBACK_SUFFIX: &'static str = "-->";

/// What begins the comment with the other formats.
pub const RICH_NAMED_FORMATS_PREFIX: &'static str = "<!--TIEZ_RICH_FORMATS:";

/// What ends the comment with the other formats.
pub const RICH_NAMED_FORMATS_SUFFIX: &'static str = "-->";

// ---------------------------------------------------------------------------
// Comments

/// `html` with the comment `prefix`, `payload`, `suffix` on a line of its own behind it.
pub open spec fn with_comment(
    html: Seq<char>,
    prefix: Seq<char>,
    payload: Seq<char>,
    suffix: Seq<char>,
) -> Seq<char> {
    trimmed_end(html) + "\n"@ + prefix + payload + suffix
}

/// What stands before, in and behind the last comment in `s` that begins with `prefix` and is ended
/// by `suffix`.
pub open spec fn last_comment(s: Seq<char>, prefix: Seq<char>, suffix: Seq<char>) -> Option<
    (Seq<char>, Seq<char>, Seq<char>),
> {
    match last_of(s, prefix) {
        Some(i) => {
            let rest = s.skip(i + prefix.len());
            match first_of(rest, suffix) {
                Some(j) => Some((s.take(i), rest.take(j), rest.skip(j + suffix.len()))),
                None => None,
            }
        },
        None => None,
    }
}

/// Puts a comment behind `html`.
fn attach_comment(html: &str, prefix: &str, payload: &str, suffix: &str) -> (r: String)
    ensures
        r@ == with_comment(html@, prefix@, payload@, suffix@),
{
    let mut out = trim_end(html);
    out.append("\n");
    out.append(prefix);
    out.append(payload);
    out.append(suffix);
    out
}

/// Cuts `text` around the payload of its last comment.
fn cut_comment(text: &str, prefix: &str, suffix: &str) -> (r: Option<(String, String, String)>)
    ensures
        match last_comment(text@, prefix@, suffix@) {
            Some((a, b, c)) => r matches Some((x, y, z)) && x@ == a && y@ == b && z@ == c,
            None => r is None,
        },
{
    match rsplit_once(text, prefix) {
        Some((before, rest)) => match split_once(&rest, suffix) {
            Some((payload, behind)) => Some((before, payload, behind)),
            None => None,
        },
        None => None,
    }
}

/// The shape of the marks: `prefix` holds its first character once and ends in one that `suffix`
/// does not hold, and `suffix` holds its last character once.
pub open spec fn are_marks(prefix: Seq<char>, suffix: Seq<char>) -> bool {
    &&& prefix.len() > 0
    &&& suffix.len() > 0
    &&& forall|k: int| 0 < k < prefix.len() ==> #[trigger] prefix[k] != prefix.first()
    &&& forall|k: int| 0 <= k < suffix.len() ==> #[trigger] suffix[k] != prefix.last()
    &&& forall|k: int| 0 <= k < suffix.len() - 1 ==> #[trigger] suffix[k] != suffix.last()
}

/// The comment that was put behind a text is the last one in it.
proof fn lemma_comment_found(t: Seq<char>, prefix: Seq<char>, payload: Seq<char>, suffix: Seq<char>)
    requires
        are_marks(prefix, suffix),
        !occurs(payload, prefix),
        !occurs(payload, suffix),
    ensures
        last_comment(t + prefix + payload + suffix, prefix, suffix) == Some(
            (t, payload, Seq::<char>::empty()),
        ),
{
    let s = t + prefix + payload + suffix;
    let rest = payload + suffix;
    let n = t.len() as int;
    let m = n + prefix.len();
    assert(s.subrange(n, m) == prefix);
    assert(occurs_at(s, prefix, n));
    assert forall|j: int| n < j implies !occurs_at(s, prefix, j) by {
        if occurs_at(s, prefix, j) {
            let q = s.subrange(j, j + prefix.len());
            assert(q[0] == s[j]);
            assert(q[prefix.len() - 1] == s[j + prefix.len() - 1]);
            if j < m {
                assert(s[j] == prefix[j - n]);
            } else if j + prefix.len() <= m + payload.len() {
                assert(payload.subrange(j - m, j - m + prefix.len()) == q);
                assert(occurs_at(payload, prefix, j - m));
            } else {
                let k = j + prefix.len() - 1 - m - payload.len();
                assert(s[j + prefix.len() - 1] == suffix[k]);
            }
        }
    }
    lemma_last_is(s, prefix, n);
    assert(s.skip(m) == rest);
    let p = payload.len() as int;
    assert(rest.subrange(p, p + suffix.len()) == suffix);
    assert(occurs_at(rest, suffix, p));
    assert forall|j: int| 0 <= j < p implies !occurs_at(rest, suffix, j) by {
        if occurs_at(rest, suffix, j) {
            let q = rest.subrange(j, j + suffix.len());
            assert(q[suffix.len() - 1] == rest[j + suffix.len() - 1]);
            if j + suffix.len() <= p {
                assert(payload.subrange(j, j + suffix.len()) == q);
                assert(occurs_at(payload, suffix, j));
            } else {
                assert(rest[j + suffix.len() - 1] == suffix[j + suffix.len() - 1 - p]);
            }
        }
    }
    lemma_first_is(rest, suffix, 0, p);
    assert(rest.take(p) == payload);
    assert(rest.skip(p + suffix.len()) == Seq::<char>::empty());
    assert(s.take(n) == t);
}

/// A comment that is the last one in a part of a text, and behind which none begins in the text, is
/// the last one in the text.
proof fn lemma_comment_around(
    a: Seq<char>,
    x: Seq<char>,
    b: Seq<char>,
    prefix: Seq<char>,
    suffix: Seq<char>,
)
    requires
        last_comment(x, prefix, suffix) matches Some((before, _, _)) && forall|k: int|
            a.len() + before.len() < k ==> !occurs_at(a + x + b, prefix, k),
    ensures
        last_comment(x, prefix, suffix) matches Some((before, payload, behind)) && last_comment(
            a + x + b,
            prefix,
            suffix,
        ) == Some((a + before, payload, behind + b)),
{
    let s = a + x + b;
    let (before, payload, behind) = last_comment(x, prefix, suffix)->0;
    lemma_last_upto(x, prefix, x.len() as int);
    let i = last_of(x, prefix)->0;
    let m = a.len() + i;
    let rest = x.skip(i + prefix.len());
    lemma_first_from(rest, suffix, 0);
    let j = first_of(rest, suffix)->0;
    assert(before.len() == i);
    assert(s.subrange(m, m + prefix.len()) == x.subrange(i, i + prefix.len()));
    lemma_last_is(s, prefix, m);
    let whole = s.skip(m + prefix.len());
    assert(whole == rest + b);
    assert(whole.subrange(j, j + suffix.len()) == rest.subrange(j, j + suffix.len()));
    assert forall|k: int| 0 <= k < j implies !occurs_at(whole, suffix, k) by {
        assert(whole.subrange(k, k + suffix.len()) == rest.subrange(k, k + suffix.len()));
        assert(!occurs_at(rest, suffix, k));
    }
    lemma_first_is(whole, suffix, 0, j);
    assert(s.take(m) == a + before);
    assert(whole.take(j) == payload);
    assert(whole.skip(j + suffix.len()) == behind + b);
}

/// The last comment in a text is the last one in every part that holds it.
proof fn lemma_comment_inside(
    a: Seq<char>,
    x: Seq<char>,
    b: Seq<char>,
    prefix: Seq<char>,
    suffix: Seq<char>,
)
    requires
        last_comment(a + x + b, prefix, suffix) matches Some((before, _, behind)) && a.len()
            <= before.len() && b.len() <= behind.len(),
    ensures
        last_comment(a + x + b, prefix, suffix) matches Some((before, payload, behind))
            && last_comment(x, prefix, suffix) == Some(
            (before.skip(a.len() as int), payload, behind.take(behind.len() - b.len())),
        ),
{
    let s = a + x + b;
    let (before, payload, behind) = last_comment(s, prefix, suffix)->0;
    lemma_last_upto(s, prefix, s.len() as int);
    let m = last_of(s, prefix)->0;
    let i = m - a.len();
    let whole = s.skip(m + prefix.len());
    lemma_first_from(whole, suffix, 0);
    let j = first_of(whole, suffix)->0;
    let rest = x.skip(i + prefix.len());
    assert(whole == rest + b);
    assert(s.subrange(m, m + prefix.len()) == x.subrange(i, i + prefix.len()));
    assert forall|k: int| i < k implies !occurs_at(x, prefix, k) by {
        if occurs_at(x, prefix, k) {
            let n = a.len() + k;
            assert(s.subrange(n, n + prefix.len()) == x.subrange(k, k + prefix.len()));
            assert(occurs_at(s, prefix, n));
        }
    }
    lemma_last_is(x, prefix, i);
    assert(whole.subrange(j, j + suffix.len()) == rest.subrange(j, j + suffix.len()));
    assert forall|k: int| 0 <= k < j implies !occurs_at(rest, suffix, k) by {
        assert(whole.subrange(k, k + suffix.len()) == rest.subrange(k, k + suffix.len()));
        assert(!occurs_at(whole, suffix, k));
    }
    lemma_first_is(rest, suffix, 0, j);
    assert(x.take(i) == before.skip(a.len() as int));
    assert(rest.take(j) == payload);
    assert(rest.skip(j + suffix.len()) == behind.take(behind.len() - b.len()));
}

/// The marks of both comments have the shape that keeps them apart from what they enclose.
proof fn lemma_marks()
    ensures
        are_marks(RICH_IMAGE_FALLBACK_PREFIX@, RICH_IMAGE_FALLBACK_SUFFIX@),
        are_marks(RICH_NAMED_FORMATS_PREFIX@, RICH_NAMED_FORMATS_SUFFIX@),
{
    reveal_strlit("<!--TIEZ_RICH_IMAGE:");
    reveal_strlit("<!--TIEZ_RICH_FORMATS:");
    reveal_strlit("-->");
}

/// A comment put behind `html` is found again, with `html` before it.
proof fn lemma_comment_round_trip(
    html: Seq<char>,
    prefix: Seq<char>,
    payload: Seq<char>,
    suffix: Seq<char>,
)
    requires
        are_marks(prefix, suffix),
        !occurs(payload, prefix),
        !occurs(payload, suffix),
    ensures
        last_comment(with_comment(html, prefix, payload, suffix), prefix, suffix) matches Some(
            (before, inner, behind),
        ) && inner == payload && trimmed(before + behind) == trimmed(html),
{
    reveal_strlit("\n");
    let t = trimmed_end(html) + "\n"@;
    lemma_comment_found(t, prefix, payload, suffix);
    lemma_trimmed_of_end(html, "\n"@);
    assert(t + Seq::<char>::empty() == t);
}

// ---------------------------------------------------------------------------
// The image

/// `html` with the image `payload` to fall back on.
pub open spec fn with_image(html: Seq<char>, payload: Seq<char>) -> Seq<char> {
    with_comment(html, RICH_IMAGE_FALLBACK_PREFIX@, payload, RICH_IMAGE_FALLBACK_SUFFIX@)
}

/// The markup without the comment with the image, and the image.
pub open spec fn image_split(html: Seq<char>) -> (Seq<char>, Option<Seq<char>>) {
    match last_comment(html, RICH_IMAGE_FALLBACK_PREFIX@, RICH_IMAGE_FALLBACK_SUFFIX@) {
        Some((before, payload, behind)) => (trimmed(before + behind), Some(trimmed(payload))),
        None => (html, None),
    }
}

/// Gives `html` the image `payload` to fall back on.
pub fn attach_rich_image_fallback(html: &str, payload: &str) -> (r: String)
    ensures
        r@ == with_image(html@, payload@),
{
    attach_comment(html, RICH_IMAGE_FALLBACK_PREFIX, payload, RICH_IMAGE_FALLBACK_SUFFIX)
}

/// Parts `html` and the image to fall back on.
pub fn split_rich_html_and_image_fallback(html: &str) -> (r: (String, Option<String>))
    ensures
        (r.0@, string_opt(r.1)) == image_split(html@),
{
    match cut_comment(html, RICH_IMAGE_FALLBACK_PREFIX, RICH_IMAGE_FALLBACK_SUFFIX) {
        Some((before, payload, behind)) => (
            trim(&join2(&before, &behind)),
            Some(trim(&payload)),
        ),
        None => (html.to_owned(), None),
    }
}

/// An image that was attached comes back, and so does the markup, both without white space at their
/// ends. The image must not hold the marks of its comment.
pub proof fn law_image_fallback_round_trip(html: Seq<char>, payload: Seq<char>)
    requires
        !occurs(payload, RICH_IMAGE_FALLBACK_PREFIX@),
        !occurs(payload, RICH_IMAGE_FALLBACK_SUFFIX@),
    ensures
        image_split(with_image(html, payload)) == (trimmed(html), Some(trimmed(payload))),
{
    lemma_marks();
    lemma_comment_round_trip(
        html,
        RICH_IMAGE_FALLBACK_PREFIX@,
        payload,
        RICH_IMAGE_FALLBACK_SUFFIX@,
    );
}

/// Markup with an image is, when trimmed, some text and then the comment with the image.
proof fn lemma_trimmed_with_image(html: Seq<char>, payload: Seq<char>) -> (t: Seq<char>)
    ensures
        trimmed(with_image(html, payload)) == t + RICH_IMAGE_FALLBACK_PREFIX@ + payload
            + RICH_IMAGE_FALLBACK_SUFFIX@,
        trimmed(t) == trimmed(html),
{
    reveal_strlit("<!--TIEZ_RICH_IMAGE:");
    reveal_strlit("-->");
    reveal_strlit("\n");
    let head = trimmed_end(html) + "\n"@;
    let t = trimmed_start(head);
    let tail = RICH_IMAGE_FALLBACK_PREFIX@ + payload + RICH_IMAGE_FALLBACK_SUFFIX@;
    let whole = with_image(html, payload);
    assert(whole == head + tail);
    lemma_trimmed_start_cut(head);
    let v = head.take(head.len() - t.len());
    let e = Seq::<char>::empty();
    assert(whole == v + (t + tail) + e);
    if t.len() > 0 {
        assert((t + tail)[0] == t[0]);
    } else {
        assert((t + tail)[0] == '<');
    }
    assert((t + tail).last() == '>');
    lemma_trimmed_around(v, t + tail, e);
    assert(t + tail == t + RICH_IMAGE_FALLBACK_PREFIX@ + payload + RICH_IMAGE_FALLBACK_SUFFIX@);
    lemma_trimmed_of_end(html, "\n"@);
    assert(head == v + t + e);
    lemma_trimmed_padding(v, t, e);
    t
}

/// The comment with the image stands on its own behind markup that was trimmed, as it is when the
/// comment with the other formats has been taken off: the image and the markup still come back.
pub proof fn law_image_fallback_beside_formats(html: Seq<char>, payload: Seq<char>)
    requires
        !occurs(payload, RICH_IMAGE_FALLBACK_PREFIX@),
        !occurs(payload, RICH_IMAGE_FALLBACK_SUFFIX@),
    ensures
        image_split(trimmed(with_image(html, payload))) == (
            trimmed(html),
            Some(trimmed(payload)),
        ),
{
    lemma_marks();
    let t = lemma_trimmed_with_image(html, payload);
    lemma_comment_found(t, RICH_IMAGE_FALLBACK_PREFIX@, payload, RICH_IMAGE_FALLBACK_SUFFIX@);
    assert(t + Seq::<char>::empty() == t);
}

/// Where the comment with the image begins and ends.
proof fn lemma_image_comment(html: Seq<char>)
    ensures
        last_comment(html, RICH_IMAGE_FALLBACK_PREFIX@, RICH_IMAGE_FALLBACK_SUFFIX@) matches Some(
            (before, payload, behind),
        ) ==> {
            &&& html == before + RICH_IMAGE_FALLBACK_PREFIX@ + payload
                + RICH_IMAGE_FALLBACK_SUFFIX@ + behind
            &&& html[before.len() as int] == '<'
            &&& html[before.len() as int + 14] == 'I'
            &&& html[html.len() - behind.len() - 1] == '>'
        },
{
    let prefix = RICH_IMAGE_FALLBACK_PREFIX@;
    let suffix = RICH_IMAGE_FALLBACK_SUFFIX@;
    if let Some((before, payload, behind)) = last_comment(html, prefix, suffix) {
        reveal_strlit("<!--TIEZ_RICH_IMAGE:");
        reveal_strlit("-->");
        lemma_last_upto(html, prefix, html.len() as int);
        let i = last_of(html, prefix)->0;
        let rest = html.skip(i + prefix.len());
        lemma_first_from(rest, suffix, 0);
        let j = first_of(rest, suffix)->0;
        assert(html == before + html.subrange(i, i + prefix.len()) + rest);
        assert(rest == payload + rest.subrange(j, j + suffix.len()) + behind);
        let whole = before + prefix + payload + suffix + behind;
        assert(html == whole);
        assert(whole[before.len() as int] == prefix[0]);
        assert(whole[before.len() as int + 14] == prefix[14]);
        assert(whole[whole.len() - behind.len() - 1] == suffix[2]);
    }
}

/// White space around markup makes no difference to the image and to the markup without it.
pub proof fn law_image_whatever_white_space(html: Seq<char>)
    requires
        image_split(html).1 is Some,
    ensures
        image_split(trimmed(html)) == image_split(html),
{
    let (v, w) = lemma_trimmed_parts(html);
    let t = trimmed(html);
    let prefix = RICH_IMAGE_FALLBACK_PREFIX@;
    let suffix = RICH_IMAGE_FALLBACK_SUFFIX@;
    let (before, payload, behind) = last_comment(html, prefix, suffix)->0;
    lemma_image_comment(html);
    if before.len() < v.len() {
        assert(html[before.len() as int] == v[before.len() as int]);
    }
    if behind.len() < w.len() {
        let k = w.len() - behind.len() - 1;
        assert(html[html.len() - behind.len() - 1] == w[k]);
    }
    lemma_comment_inside(v, t, w, prefix, suffix);
    let x = before.skip(v.len() as int);
    let y = behind.take(behind.len() - w.len());
    assert(before + behind == v + (x + y) + w) by {
        assert forall|i: int| 0 <= i < v.len() implies before[i] == v[i] by {
            assert(html[i] == v[i]);
        }
        let k = behind.len() - w.len();
        assert forall|i: int| k <= i < behind.len() implies behind[i] == w[i - k] by {
            assert(html[html.len() - behind.len() + i] == behind[i]);
        }
    }
    lemma_trimmed_padding(v, x + y, w);
}

/// An opening bracket before markup makes no difference to the image, and stands before the markup
/// without it.
pub proof fn law_image_behind_bracket(html: Seq<char>) -> (rest: Seq<char>)
    requires
        image_split(html).1 is Some,
    ensures
        image_split("<"@ + html) == (trimmed("<"@ + rest), image_split(html).1),
        trimmed(rest) == image_split(html).0,
{
    let prefix = RICH_IMAGE_FALLBACK_PREFIX@;
    let suffix = RICH_IMAGE_FALLBACK_SUFFIX@;
    let (before, payload, behind) = last_comment(html, prefix, suffix)->0;
    reveal_strlit("<");
    let e = Seq::<char>::empty();
    let s = "<"@ + html + e;
    assert(s == "<"@ + html);
    lemma_last_upto(html, prefix, html.len() as int);
    assert forall|k: int| 1 + before.len() < k implies !occurs_at(s, prefix, k) by {
        if occurs_at(s, prefix, k) {
            assert(html.subrange(k - 1, k - 1 + prefix.len()) == s.subrange(k, k + prefix.len()));
            assert(occurs_at(html, prefix, k - 1));
        }
    }
    lemma_comment_around("<"@, html, e, prefix, suffix);
    assert("<"@ + before + (behind + e) == "<"@ + (before + behind));
    before + behind
}

/// An image that was found holds no mark of its comment and no white space at its ends, so it can
/// be attached again.
pub proof fn law_found_image_can_be_attached(html: Seq<char>)
    ensures
        image_split(html).1 matches Some(p) ==> !occurs(p, RICH_IMAGE_FALLBACK_PREFIX@) && !occurs(
            p,
            RICH_IMAGE_FALLBACK_SUFFIX@,
        ) && trimmed(p) == p,
{
    let prefix = RICH_IMAGE_FALLBACK_PREFIX@;
    let suffix = RICH_IMAGE_FALLBACK_SUFFIX@;
    if let Some((_, payload, _)) = last_comment(html, prefix, suffix) {
        lemma_marks();
        lemma_last_upto(html, prefix, html.len() as int);
        let i = last_of(html, prefix)->0;
        let rest = html.skip(i + prefix.len());
        lemma_first_from(rest, suffix, 0);
        let j = first_of(rest, suffix)->0;
        let (v, w) = lemma_trimmed_parts(payload);
        let p = trimmed(payload);
        lemma_trimmed_twice(payload);
        assert(payload == rest.take(j));
        assert forall|y: int| 0 <= y < p.len() implies #[trigger] p[y] == rest[v.len() + y] && p[y]
            == html[i + prefix.len() + v.len() + y] by {
            assert((v + p + w)[v.len() + y] == p[y]);
            assert(payload[v.len() + y] == rest[v.len() + y]);
        }
        assert((v + p + w).len() == v.len() + p.len() + w.len());
        if occurs(p, prefix) {
            let k = choose|k: int| occurs_at(p, prefix, k);
            let at = i + prefix.len() + v.len() + k;
            assert(html.subrange(at, at + prefix.len()) == p.subrange(k, k + prefix.len()));
            assert(occurs_at(html, prefix, at));
        }
        if occurs(p, suffix) {
            let k = choose|k: int| occurs_at(p, suffix, k);
            assert(rest.subrange(v.len() + k, v.len() + k + suffix.len()) == p.subrange(
                k,
                k + suffix.len(),
            ));
            assert(occurs_at(rest, suffix, v.len() + k));
        }
    }
}

/// What is stored of the image: the address of a saved copy where the image was data and could be
/// saved, and else what was stored before.
pub open spec fn image_externalized(html: Seq<char>, saved: Option<Seq<char>>) -> Seq<char> {
    match image_to_save(html) {
        Some(_) => match saved {
            Some(path) => {
                let clean = image_split(html).0;
                with_image(
                    if trimmed(clean).len() == 0 {
                        html
                    } else {
                        clean
                    },
                    path,
                )
            },
            None => html,
        },
        None => html,
    }
}

/// The image that `html` falls back on, where it is an image in a data address.
pub open spec fn image_to_save(html: Seq<char>) -> Option<Seq<char>> {
    match image_split(html).1 {
        Some(payload) => if "data:image/"@.is_prefix_of(payload) {
            Some(payload)
        } else {
            None
        },
        None => None,
    }
}

/// Finds the image to save, where `html` falls back on an image in a data address.
pub fn rich_image_fallback_to_save(html: &str) -> (r: Option<String>)
    ensures
        string_opt(r) == image_to_save(html@),
{
    let (_, payload) = split_rich_html_and_image_fallback(html);
    match payload {
        Some(p) => if starts_with(&p, "data:image/") {
            Some(p)
        } else {
            None
        },
        None => None,
    }
}

/// Replaces an image in a data address by the address `saved_path` of the copy that was saved of
/// it. Where none was saved, `html` stays as it is.
pub fn externalize_rich_image_fallback(html: &str, saved_path: Option<String>) -> (r: String)
    ensures
        r@ == image_externalized(html@, string_opt(saved_path)),
{
    if rich_image_fallback_to_save(html).is_none() {
        return html.to_owned();
    }
    match saved_path {
        Some(path) => {
            let (clean, _) = split_rich_html_and_image_fallback(html);
            if is_blank(&clean) {
                attach_rich_image_fallback(html, &path)
            } else {
                attach_rich_image_fallback(&clean, &path)
            }
        },
        None => html.to_owned(),
    }
}

// ---------------------------------------------------------------------------
// The other formats

/// A clipboard format by name, with its data.
#[derive(Debug, PartialEq, Eq)]
pub struct NamedClipboardFormat {
    /// The name of the format.
    pub name: String,
    /// The data in it.
    pub data: Vec<u8>,
}

/// A clipboard format as it is stored: its data are in Base64.
#[derive(Debug, PartialEq, Eq)]
pub struct StoredNamedClipboardFormat {
    /// The name of the format.
    pub name: String,
    /// The data in it, in Base64.
    pub data_base64: String,
}

impl View for NamedClipboardFormat {
    type V = (Seq<char>, Seq<u8>);

    open spec fn view(&self) -> (Seq<char>, Seq<u8>) {
        (self.name@, self.data@)
    }
}

impl View for StoredNamedClipboardFormat {
    type V = (Seq<char>, Seq<char>);

    open spec fn view(&self) -> (Seq<char>, Seq<char>) {
        (self.name@, self.data_base64@)
    }
}

/// The contents of a list of formats.
pub open spec fn format_views(fs: Seq<NamedClipboardFormat>) -> Seq<(Seq<char>, Seq<u8>)> {
    Seq::new(fs.len(), |i: int| fs[i]@)
}

/// The contents of a list of stored formats.
pub open spec fn stored_views(fs: Seq<StoredNamedClipboardFormat>) -> Seq<(Seq<char>, Seq<char>)> {
    Seq::new(fs.len(), |i: int| fs[i]@)
}

/// The format is worth storing: it has a name and data.
pub open spec fn is_storable(f: (Seq<char>, Seq<u8>)) -> bool {
    trimmed(f.0).len() > 0 && f.1.len() > 0
}

/// The formats that are worth storing, in their order.
pub open spec fn storable(fs: Seq<(Seq<char>, Seq<u8>)>) -> Seq<(Seq<char>, Seq<u8>)>
    decreases fs.len(),
{
    if fs.len() == 0 {
        seq![]
    } else if is_storable(fs.last()) {
        storable(fs.drop_last()).push(fs.last())
    } else {
        storable(fs.drop_last())
    }
}

/// The formats as they are stored.
pub open spec fn stored(fs: Seq<(Seq<char>, Seq<u8>)>) -> Seq<(Seq<char>, Seq<char>)> {
    Seq::new(storable(fs).len(), |i: int| (storable(fs)[i].0, base64_text(storable(fs)[i].1)))
}

/// The formats that stored ones stand for: those whose data can be read and that are worth storing.
pub open spec fn restored(items: Seq<(Seq<char>, Seq<char>)>) -> Seq<(Seq<char>, Seq<u8>)>
    decreases items.len(),
{
    if items.len() == 0 {
        seq![]
    } else {
        let before = restored(items.drop_last());
        match base64_bytes(items.last().1) {
            Some(data) => if is_storable((items.last().0, data)) {
                before.push((items.last().0, data))
            } else {
                before
            },
            None => before,
        }
    }
}

/// Restored formats are worth storing, every one of them, so they can be attached again.
pub proof fn law_restored_formats_can_be_stored(items: Seq<(Seq<char>, Seq<char>)>)
    ensures
        storable(restored(items)) == restored(items),
    decreases items.len(),
{
    if items.len() > 0 {
        law_restored_formats_can_be_stored(items.drop_last());
        let rest = restored(items.drop_last());
        if let Some(data) = base64_bytes(items.last().1) {
            let f = (items.last().0, data);
            if is_storable(f) {
                assert(rest.push(f).drop_last() == rest);
            }
        }
    }
}

/// What was stored of formats is restored: all of them that have a name and data, in their order.
pub proof fn law_stored_formats_are_restored(fs: Seq<(Seq<char>, Seq<u8>)>)
    ensures
        restored(stored(fs)) == storable(fs),
    decreases fs.len(),
{
    if fs.len() > 0 {
        let before = fs.drop_last();
        law_stored_formats_are_restored(before);
        if is_storable(fs.last()) {
            law_base64_round_trip(fs.last().1);
            assert(stored(fs).drop_last() == stored(before));
            assert(stored(fs).last() == (fs.last().0, base64_text(fs.last().1)));
        } else {
            assert(stored(fs) == stored(before));
        }
    } else {
        assert(stored(fs) == Seq::<(Seq<char>, Seq<char>)>::empty());
    }
}

/// Puts the formats that have a name and data in the form in which they are stored.
pub fn stored_named_formats(formats: &[NamedClipboardFormat]) -> (r: Vec<
    StoredNamedClipboardFormat,
>)
    ensures
        stored_views(r@) == stored(format_views(formats@)),
{
    let mut r: Vec<StoredNamedClipboardFormat> = Vec::new();
    let ghost all = format_views(formats@);
    for i in 0..formats.len()
        invariant
            all == format_views(formats@),
            stored_views(r@) == stored(all.take(i as int)),
    {
        assert(all[i as int] == formats@[i as int]@);
        assert(all.take(i + 1).drop_last() == all.take(i as int));
        let ghost before = stored_views(r@);
        let format = &formats[i];
        if !is_blank(&format.name) && format.data.len() > 0 {
            let item = StoredNamedClipboardFormat {
                name: format.name.clone(),
                data_base64: base64_encode(&format.data),
            };
            r.push(item);
            assert(stored_views(r@) == before.push(item@));
            assert(stored_views(r@) == stored(all.take(i + 1)));
        }
    }
    assert(all.take(formats@.len() as int) == all);
    r
}

/// `html` with the JSON text `json` of its other formats.
pub open spec fn with_formats(html: Seq<char>, json: Seq<u8>) -> Seq<char> {
    with_comment(html, RICH_NAMED_FORMATS_PREFIX@, base64_text(json), RICH_NAMED_FORMATS_SUFFIX@)
}

/// `html` with `formats`, whose stored form reads `json` in JSON. Where there is nothing to store,
/// or no JSON text of it, `html` stays as it is.
pub open spec fn formats_attached(
    html: Seq<char>,
    formats: Seq<(Seq<char>, Seq<u8>)>,
    json: Option<Seq<u8>>,
) -> Seq<char> {
    match json {
        Some(j) => if storable(formats).len() > 0 {
            with_formats(html, j)
        } else {
            html
        },
        None => html,
    }
}

/// The content of optional bytes.
pub open spec fn bytes_opt(b: Option<Vec<u8>>) -> Option<Seq<u8>> {
    match b {
        Some(v) => Some(v@),
        None => None,
    }
}

/// The JSON text of the other formats in `html`.
pub open spec fn formats_json(html: Seq<char>) -> Option<Seq<u8>> {
    match last_comment(html, RICH_NAMED_FORMATS_PREFIX@, RICH_NAMED_FORMATS_SUFFIX@) {
        Some((_, payload, _)) => base64_bytes(trimmed(payload)),
        None => None,
    }
}

/// The markup without the comment with the other formats, and the formats, where the JSON text in
/// the comment lists the stored formats `parsed`.
pub open spec fn formats_split(
    html: Seq<char>,
    parsed: Option<Seq<(Seq<char>, Seq<char>)>>,
) -> (Seq<char>, Seq<(Seq<char>, Seq<u8>)>) {
    match (last_comment(html, RICH_NAMED_FORMATS_PREFIX@, RICH_NAMED_FORMATS_SUFFIX@), parsed) {
        (Some((before, _, behind)), Some(items)) => if formats_json(html) is Some {
            (trimmed(before + behind), restored(items))
        } else {
            (html, seq![])
        },
        _ => (html, seq![]),
    }
}

/// The content of an optional list of stored formats.
pub open spec fn stored_opt(s: Option<Vec<StoredNamedClipboardFormat>>) -> Option<
    Seq<(Seq<char>, Seq<char>)>,
> {
    match s {
        Some(v) => Some(stored_views(v@)),
        None => None,
    }
}

/// A text in Base64 holds no mark of the comment around it, and no white space.
proof fn lemma_base64_plain(t: Seq<char>)
    requires
        forall|i: int| 0 <= i < t.len() ==> is_base64_char(#[trigger] t[i]),
    ensures
        !occurs(t, RICH_NAMED_FORMATS_PREFIX@),
        !occurs(t, RICH_NAMED_FORMATS_SUFFIX@),
        trimmed(t) == t,
{
    reveal_strlit("<!--TIEZ_RICH_FORMATS:");
    reveal_strlit("-->");
    let prefix = RICH_NAMED_FORMATS_PREFIX@;
    let suffix = RICH_NAMED_FORMATS_SUFFIX@;
    if occurs(t, prefix) {
        let i = choose|i: int| occurs_at(t, prefix, i);
        assert(t.subrange(i, i + prefix.len())[0] == t[i]);
        assert(is_base64_char(t[i]));
    }
    if occurs(t, suffix) {
        let i = choose|i: int| occurs_at(t, suffix, i);
        assert(t.subrange(i, i + suffix.len())[0] == t[i]);
        assert(is_base64_char(t[i]));
    }
    if t.len() > 0 {
        assert(is_base64_char(t[0]));
        assert(is_base64_char(t[t.len() - 1]));
    }
}

/// What was attached can be read back: the JSON text is found again, and when it is read, the
/// formats that it lists and the markup, without the white space around it, come back.
pub proof fn law_named_formats_round_trip(
    html: Seq<char>,
    json: Seq<u8>,
    items: Seq<(Seq<char>, Seq<char>)>,
)
    ensures
        formats_json(with_formats(html, json)) == Some(json),
        formats_split(with_formats(html, json), Some(items)) == (trimmed(html), restored(items)),
{
    let payload = base64_text(json);
    law_base64_alphabet(json);
    law_base64_round_trip(json);
    lemma_marks();
    lemma_base64_plain(payload);
    lemma_comment_round_trip(
        html,
        RICH_NAMED_FORMATS_PREFIX@,
        payload,
        RICH_NAMED_FORMATS_SUFFIX@,
    );
}

/// The image comes back from markup that carries the other formats as well.
pub proof fn law_image_fallback_before_formats(
    html: Seq<char>,
    payload: Seq<char>,
    json: Seq<u8>,
)
    requires
        !occurs(payload, RICH_IMAGE_FALLBACK_PREFIX@),
        !occurs(payload, RICH_IMAGE_FALLBACK_SUFFIX@),
    ensures
        image_split(with_formats(with_image(html, payload), json)).1 == Some(trimmed(payload)),
{
    reveal_strlit("<!--TIEZ_RICH_IMAGE:");
    reveal_strlit("<!--TIEZ_RICH_FORMATS:");
    reveal_strlit("-->");
    reveal_strlit("\n");
    let prefix = RICH_IMAGE_FALLBACK_PREFIX@;
    let suffix = RICH_IMAGE_FALLBACK_SUFFIX@;
    let other = RICH_NAMED_FORMATS_PREFIX@;
    let data = base64_text(json);
    law_base64_alphabet(json);
    lemma_marks();
    let t = trimmed_end(html) + "\n"@;
    let x = with_image(html, payload);
    let b = "\n"@ + other + data + suffix;
    let none = Seq::<char>::empty();
    lemma_comment_found(t, prefix, payload, suffix);
    assert(x == t + prefix + payload + suffix);
    assert(x.last() == '>');
    assert(trimmed_end(x) == x);
    let s = none + x + b;
    assert(with_formats(x, json) == s);
    let n = t.len() as int;
    let m = n + prefix.len();
    let e = x.len() - 1;
    assert(s[e] == '>');
    assert forall|k: int| n < k implies !occurs_at(s, prefix, k) by {
        if occurs_at(s, prefix, k) {
            let q = s.subrange(k, k + prefix.len());
            assert(q[0] == s[k]);
            assert(q[14] == s[k + 14]);
            assert(q[prefix.len() - 1] == s[k + prefix.len() - 1]);
            if k < m {
                assert(s[k] == prefix[k - n]);
            } else if k + prefix.len() <= m + payload.len() {
                assert(payload.subrange(k - m, k - m + prefix.len()) == q);
                assert(occurs_at(payload, prefix, k - m));
            } else if k + prefix.len() <= e {
                let y = k + prefix.len() - 1 - m - payload.len();
                assert(s[k + prefix.len() - 1] == suffix[y]);
            } else if k <= e {
                assert(q[e - k] == s[e]);
            } else {
                let y = k - e - 1;
                assert(s[k] == b[y]);
                if y == 0 {
                } else if y < 1 + other.len() {
                    assert(b[y] == other[y - 1]);
                    assert(y == 1);
                    assert(s[k + 14] == b[15]);
                    assert(b[15] == other[14]);
                } else if y < 1 + other.len() + data.len() {
                    assert(b[y] == data[y - 1 - other.len()]);
                    assert(is_base64_char(data[y - 1 - other.len()]));
                } else {
                    assert(b[y] == suffix[y - 1 - other.len() - data.len()]);
                }
            }
        }
    }
    lemma_comment_around(none, x, b, prefix, suffix);
}

/// An opening bracket that begins the comment with an image stands behind a comment with readable
/// formats at the start of the markup.
proof fn lemma_bracket_behind_leading_formats(html: Seq<char>, data: Seq<char>, i: int)
    requires
        0 <= i,
        i + 14 < html.len(),
        html[i] == '<',
        html[i + 14] == 'I',
        base64_bytes(trimmed(data)) is Some,
        (RICH_NAMED_FORMATS_PREFIX@ + data + RICH_NAMED_FORMATS_SUFFIX@).is_prefix_of(html),
    ensures
        i >= (RICH_NAMED_FORMATS_PREFIX@ + data + RICH_NAMED_FORMATS_SUFFIX@).len(),
{
    reveal_strlit("<!--TIEZ_RICH_FORMATS:");
    reveal_strlit("-->");
    let other = RICH_NAMED_FORMATS_PREFIX@;
    let suffix = RICH_NAMED_FORMATS_SUFFIX@;
    let head = other + data + suffix;
    lemma_begins(head, html);
    if i < head.len() {
        assert(html[i] == head[i]);
        if i < other.len() {
            assert(head[i] == other[i]);
            assert(i == 0);
            assert(html[14] == head[14]);
            assert(head[14] == other[14]);
        } else if i < other.len() + data.len() {
            let k = i - other.len();
            assert(head[i] == data[k]);
            let (v, w) = lemma_trimmed_parts(data);
            let t = trimmed(data);
            let bytes = choose|b: Seq<u8>| #[trigger] base64_text(b) == t;
            law_base64_alphabet(bytes);
            if k < v.len() {
                assert(data[k] == v[k]);
            } else if k < v.len() + t.len() {
                assert(data[k] == t[k - v.len()]);
                assert(is_base64_char(t[k - v.len()]));
            } else {
                assert(data[k] == w[k - v.len() - t.len()]);
            }
        } else {
            assert(head[i] == suffix[i - other.len() - data.len()]);
        }
    }
}

/// Where markup that begins with the comment with the other formats carries an image, the image is
/// found as well when that comment is taken off; what is then left of the markup is the end of what
/// the markup is without the image.
#[verifier::spinoff_prover]
#[verifier::rlimit(80)]
pub proof fn law_image_behind_leading_formats(
    html: Seq<char>,
    items: Seq<(Seq<char>, Seq<char>)>,
) -> (r: (Seq<char>, Seq<char>))
    requires
        image_split(html).1 is Some,
        formats_json(html) is Some,
        last_of(html, RICH_NAMED_FORMATS_PREFIX@) == Some(0int),
    ensures
        image_split(formats_split(html, Some(items)).0) == (trimmed(r.1), image_split(html).1),
        image_split(html).0 == trimmed(r.0 + r.1),
{
    let prefix = RICH_IMAGE_FALLBACK_PREFIX@;
    let suffix = RICH_IMAGE_FALLBACK_SUFFIX@;
    let other = RICH_NAMED_FORMATS_PREFIX@;
    let none = Seq::<char>::empty();
    let (_, data, tail) = last_comment(html, other, suffix)->0;
    let (before, payload, behind) = last_comment(html, prefix, suffix)->0;
    lemma_last_upto(html, other, html.len() as int);
    let rest = html.skip(other.len() as int);
    lemma_first_from(rest, suffix, 0);
    let j = first_of(rest, suffix)->0;
    let a = other + data + suffix;
    let n = a.len() as int;
    assert(html == a + tail) by {
        assert(html == html.subrange(0, other.len() as int) + rest);
        assert(rest == data + rest.subrange(j, j + suffix.len()) + tail);
    }
    assert(a =~= html.subrange(0, n));
    lemma_image_comment(html);
    assert(before.len() + 14 < html.len()) by {
        reveal_strlit("<!--TIEZ_RICH_IMAGE:");
    }
    lemma_bracket_behind_leading_formats(html, data, before.len() as int);
    assert(a + tail + none == html);
    lemma_comment_inside(a, tail, none, prefix, suffix);
    let x = before.skip(n);
    assert(behind.take(behind.len() as int) == behind);
    assert(none + tail == tail);
    assert(html.take(0) == none);
    law_image_whatever_white_space(tail);
    assert(before.take(n) + (x + behind) == before + behind);
    (before.take(n), x + behind)
}

/// Gives `html` the other formats of its entry. `payload_json` is the JSON text of their stored
/// form, `None` where it could not be written.
pub fn attach_rich_named_formats(
    html: &str,
    formats: &[NamedClipboardFormat],
    payload_json: &Option<Vec<u8>>,
) -> (r: String)
    ensures
        r@ == formats_attached(html@, format_views(formats@), bytes_opt(*payload_json)),
{
    let list = stored_named_formats(formats);
    assert(stored_views(list@).len() == storable(format_views(formats@)).len());
    if list.len() == 0 {
        return html.to_owned();
    }
    match payload_json {
        Some(json) => attach_comment(
            html,
            RICH_NAMED_FORMATS_PREFIX,
            &base64_encode(json),
            RICH_NAMED_FORMATS_SUFFIX,
        ),
        None => html.to_owned(),
    }
}

/// Finds the JSON text of the other formats in `html`.
pub fn rich_named_formats_json(html: &str) -> (r: Option<Vec<u8>>)
    ensures
        bytes_opt(r) == formats_json(html@),
{
    match cut_comment(html, RICH_NAMED_FORMATS_PREFIX, RICH_NAMED_FORMATS_SUFFIX) {
        Some((_, payload, _)) => read_base64(&trim(&payload)),
        None => None,
    }
}

/// Restores stored formats.
fn restore_named_formats(items: &Vec<StoredNamedClipboardFormat>) -> (r: Vec<NamedClipboardFormat>)
    ensures
        format_views(r@) == restored(stored_views(items@)),
{
    let mut r: Vec<NamedClipboardFormat> = Vec::new();
    let ghost all = stored_views(items@);
    for i in 0..items.len()
        invariant
            all == stored_views(items@),
            format_views(r@) == restored(all.take(i as int)),
    {
        assert(all[i as int] == items@[i as int]@);
        assert(all.take(i + 1).drop_last() == all.take(i as int));
        let ghost before = format_views(r@);
        let item = &items[i];
        if let Some(data) = read_base64(&item.data_base64) {
            if !is_blank(&item.name) && data.len() > 0 {
                let format = NamedClipboardFormat { name: item.name.clone(), data };
                r.push(format);
                assert(format_views(r@) == before.push(format@));
            }
        }
    }
    assert(all.take(items@.len() as int) == all);
    r
}

/// Parts `html` and the other formats of its entry. `parsed` is what the JSON text in `html` lists,
/// `None` where it lists no stored formats.
pub fn split_rich_html_and_named_formats(
    html: &str,
    parsed: &Option<Vec<StoredNamedClipboardFormat>>,
) -> (r: (String, Vec<NamedClipboardFormat>))
    ensures
        (r.0@, format_views(r.1@)) == formats_split(html@, stored_opt(*parsed)),
{
    if let Some((before, payload, behind)) = cut_comment(
        html,
        RICH_NAMED_FORMATS_PREFIX,
        RICH_NAMED_FORMATS_SUFFIX,
    ) {
        if read_base64(&trim(&payload)).is_some() {
            if let Some(items) = parsed {
                return (trim(&join2(&before, &behind)), restore_named_formats(items));
            }
        }
    }
    let none: Vec<NamedClipboardFormat> = Vec::new();
    assert(format_views(none@) == Seq::<(Seq<char>, Seq<u8>)>::empty());
    (html.to_owned(), none)
}

/// An image in a data address gives way to the address of the copy that was saved of it, and the
/// markup beside it stays; an image that is no data address, and one that could not be saved, stay.
pub proof fn law_saved_image_gives_way_to_its_address(html: Seq<char>, path: Seq<char>)
    requires
        !occurs(path, RICH_IMAGE_FALLBACK_PREFIX@),
        !occurs(path, RICH_IMAGE_FALLBACK_SUFFIX@),
    ensures
        image_externalized(html, None) == html,
        image_split(html).1 is None ==> image_externalized(html, Some(path)) == html,
        image_split(html).1 matches Some(p) ==> !"data:image/"@.is_prefix_of(p)
            ==> image_externalized(html, Some(path)) == html,
        image_split(html).1 matches Some(p) && "data:image/"@.is_prefix_of(p) && trimmed(
            image_split(html).0,
        ).len() > 0 ==> image_split(image_externalized(html, Some(path))) == (
            trimmed(image_split(html).0),
            Some(trimmed(path)),
        ),
{
    law_image_fallback_round_trip(image_split(html).0, path);
}

/// Markup without a comment for an image has none, and markup without a comment for other formats
/// has none of these; both are left as they are.
pub proof fn law_markup_without_comments_is_left_alone(
    html: Seq<char>,
    parsed: Option<Seq<(Seq<char>, Seq<char>)>>,
)
    ensures
        !occurs(html, "<!--TIEZ_RICH_IMAGE:"@) ==> image_split(html) == (
            html,
            None::<Seq<char>>,
        ),
        !occurs(html, "<!--TIEZ_RICH_FORMATS:"@) ==> formats_split(html, parsed) == (
            html,
            Seq::<(Seq<char>, Seq<u8>)>::empty(),
        ) && formats_json(html) is None,
{
    lemma_last_upto(html, RICH_IMAGE_FALLBACK_PREFIX@, html.len() as int);
    lemma_last_upto(html, RICH_NAMED_FORMATS_PREFIX@, html.len() as int);
}

/// A format is stored where it has a name and data, and only there.
pub proof fn law_formats_with_name_and_data_are_stored(name: Seq<char>, data: Seq<u8>)
    ensures
        trimmed(name).len() > 0 && data.len() > 0 ==> stored(seq![(name, data)]) == seq![
            (name, base64_text(data)),
        ],
        trimmed(name).len() == 0 || data.len() == 0 ==> stored(seq![(name, data)]).len() == 0,
{
    let f = seq![(name, data)];
    let none = Seq::<(Seq<char>, Seq<u8>)>::empty();
    assert(f.drop_last() == none);
    assert(storable(none) == none);
    if is_storable((name, data)) {
        assert(storable(f) == none.push((name, data)));
        assert(stored(f)[0] == (name, base64_text(data)));
    }
}

/// The address of an image and the other formats stand behind markup in comments of their own, each
/// on a line of its own, with the names that they are found by.
pub proof fn law_comments_stand_behind_the_markup(
    html: Seq<char>,
    payload: Seq<char>,
    json: Seq<u8>,
)
    ensures
        with_image(html, payload) == trimmed_end(html) + "\n<!--TIEZ_RICH_IMAGE:"@ + payload
            + "-->"@,
        with_formats(html, json) == trimmed_end(html) + "\n<!--TIEZ_RICH_FORMATS:"@ + base64_text(
            json,
        ) + "-->"@,
{
    reveal_strlit("\n");
    reveal_strlit("<!--TIEZ_RICH_IMAGE:");
    reveal_strlit("\n<!--TIEZ_RICH_IMAGE:");
    reveal_strlit("<!--TIEZ_RICH_FORMATS:");
    reveal_strlit("\n<!--TIEZ_RICH_FORMATS:");
    reveal_strlit("-->");
    assert("\n<!--TIEZ_RICH_IMAGE:"@ =~= "\n"@ + "<!--TIEZ_RICH_IMAGE:"@);
    assert("\n<!--TIEZ_RICH_FORMATS:"@ =~= "\n"@ + "<!--TIEZ_RICH_FORMATS:"@);
    let t = trimmed_end(html);
    assert(with_image(html, payload) =~= t + ("\n"@ + "<!--TIEZ_RICH_IMAGE:"@) + payload
        + "-->"@);
    assert(with_formats(html, json) =~= t + ("\n"@ + "<!--TIEZ_RICH_FORMATS:"@) + base64_text(json)
        + "-->"@);
}

/// Formats are restored one by one, whatever stands beside them: one whose data can be read and that
/// has a name and data is restored, and any other is left out.
pub proof fn law_formats_are_restored_one_by_one(
    a: Seq<(Seq<char>, Seq<char>)>,
    name: Seq<char>,
    text: Seq<char>,
    b: Seq<(Seq<char>, Seq<char>)>,
)
    ensures
        base64_bytes(text) matches Some(data) && trimmed(name).len() > 0 && data.len() > 0
            ==> restored(a + seq![(name, text)] + b) == restored(a) + seq![
            (name, base64_bytes(text)->0),
        ] + restored(b),
        base64_bytes(text) is None || trimmed(name).len() == 0 || base64_bytes(text)->0.len() == 0
            ==> restored(a + seq![(name, text)] + b) == restored(a) + restored(b),
    decreases b.len(),
{
    let item = (name, text);
    let all = a + seq![item] + b;
    let none = Seq::<(Seq<char>, Seq<u8>)>::empty();
    if b.len() == 0 {
        assert(all == a.push(item));
        assert(all.drop_last() == a);
        assert(restored(b) == none);
        assert(restored(a) + none == restored(a));
        if let Some(data) = base64_bytes(text) {
            assert(restored(a).push((name, data)) == restored(a) + seq![(name, data)] + none);
        }
    } else {
        let t = b.drop_last();
        assert(all.drop_last() == a + seq![item] + t);
        assert(all.last() == b.last());
        law_formats_are_restored_one_by_one(a, name, text, t);
        if let Some(data) = base64_bytes(b.last().1) {
            let one = (b.last().0, data);
            let x = restored(a);
            let y = restored(t);
            assert((x + y).push(one) == x + y.push(one));
            if let Some(own) = base64_bytes(text) {
                let m = seq![(name, own)];
                assert((x + m + y).push(one) == x + m + y.push(one));
            }
        }
    }
}

} // verus!
