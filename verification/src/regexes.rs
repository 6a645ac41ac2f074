//! The searches that the `regex` crate makes for this library.
//!
//! A pattern is given as text. Each item here compiles it with `regex::Regex::new` and answers
//! `None` where that fails. What a search finds is left to the crate: the results carry names, and
//! beside them stand only the facts that their users rely on.

use vstd::prelude::*;

use crate::chars::is_space;
use crate::text::{byte_len, byte_slice, bytes_in, lemma_ends_on_boundary, on_boundary, slice_bytes};

verus! {

/// A run of white space.
pub const WHITE_SPACE_RUN: &'static str = r"\s+";

/// A run of white space inside one line.
pub const INLINE_SPACE_RUN: &'static str = r"[^\S\r\n]+";

/// One space.
pub const ONE_SPACE: &'static str = " ";

/// The tag of an image: what stands before its address, the address, and what stands behind it.
pub const IMG_LINK: &'static str = r#"(<img\s+[^>]*src=["'])([^"']+)(["'][^>]*>)"#;

/// The `regex` crate takes `pattern` as a regular expression.
pub uninterp spec fn regex_compiles(pattern: Seq<char>) -> bool;

/// The regular expression `pattern` matches somewhere in `text`.
pub uninterp spec fn regex_is_match(pattern: Seq<char>, text: Seq<char>) -> bool;

/// Where the successive matches of `pattern` in `text` begin and end, in bytes.
pub uninterp spec fn regex_find_iter(pattern: Seq<char>, text: Seq<char>) -> Seq<(usize, usize)>;

/// For each of the successive matches of `pattern` in `text`, where its groups begin and end, in
/// bytes. Group zero is the whole match; a group that took no part has no place.
pub uninterp spec fn regex_captures_iter(pattern: Seq<char>, text: Seq<char>) -> Seq<
    Seq<Option<(usize, usize)>>,
>;

/// `text` with every match of `pattern` replaced by `replacement`, in which `$` refers to groups.
pub uninterp spec fn regex_replace_all(
    pattern: Seq<char>,
    text: Seq<char>,
    replacement: Seq<char>,
) -> Seq<char>;

/// `s` with every run of white space made one space. Where `in_run` holds, a run has begun already.
pub open spec fn spaces_collapsed(s: Seq<char>, in_run: bool) -> Seq<char>
    decreases s.len(),
{
    if s.len() == 0 {
        seq![]
    } else if !is_space(s[0]) {
        seq![s[0]] + spaces_collapsed(s.drop_first(), false)
    } else if in_run {
        spaces_collapsed(s.drop_first(), true)
    } else {
        seq![' '] + spaces_collapsed(s.drop_first(), true)
    }
}

/// White space that ends no line.
pub open spec fn is_gap(c: char) -> bool {
    is_space(c) && c != '\r' && c != '\n'
}

/// `s` with every run of white space inside a line made one space. Where `in_run` holds, a run has
/// begun already.
pub open spec fn gaps_collapsed(s: Seq<char>, in_run: bool) -> Seq<char>
    decreases s.len(),
{
    if s.len() == 0 {
        seq![]
    } else if !is_gap(s[0]) {
        seq![s[0]] + gaps_collapsed(s.drop_first(), false)
    } else if in_run {
        gaps_collapsed(s.drop_first(), true)
    } else {
        seq![' '] + gaps_collapsed(s.drop_first(), true)
    }
}

/// The range lies in `text`, between characters.
pub open spec fn range_fits(text: Seq<char>, r: (usize, usize)) -> bool {
    r.0 <= r.1 && on_boundary(text, r.0 as int) && on_boundary(text, r.1 as int)
}

/// The ranges lie in `text`, between characters, one behind the other.
pub open spec fn ranges_fit(text: Seq<char>, rs: Seq<(usize, usize)>) -> bool {
    &&& forall|i: int| 0 <= i < rs.len() ==> range_fits(text, #[trigger] rs[i])
    &&& forall|i: int, j: int| 0 <= i < j < rs.len() ==> (#[trigger] rs[i]).1 <= (#[trigger] rs[j]).0
}

/// The range of the whole match.
pub open spec fn whole_match(groups: Seq<Option<(usize, usize)>>) -> (usize, usize) {
    groups[0]->0
}

/// Every group lies in `text`, between characters, and the whole matches one behind the other.
pub open spec fn groups_fit(text: Seq<char>, cs: Seq<Seq<Option<(usize, usize)>>>) -> bool {
    &&& forall|i: int, k: int|
        0 <= i < cs.len() && 0 <= k < cs[i].len() && cs[i][k] is Some ==> range_fits(
            text,
            (#[trigger] cs[i][k])->0,
        )
    &&& forall|i: int| 0 <= i < cs.len() ==> (#[trigger] cs[i]).len() > 0 && cs[i][0] is Some
    &&& forall|i: int, j: int|
        0 <= i < j < cs.len() ==> whole_match(#[trigger] cs[i]).1 <= whole_match(#[trigger] cs[j]).0
}

/// Three groups take part in each match and make it up, one behind the other.
pub open spec fn parts_cover(cs: Seq<Seq<Option<(usize, usize)>>>) -> bool {
    forall|i: int|
        0 <= i < cs.len() ==> {
            let g = #[trigger] cs[i];
            &&& g.len() == 4
            &&& g[1] is Some && g[2] is Some && g[3] is Some
            &&& (g[1]->0).0 == whole_match(g).0
            &&& (g[1]->0).1 == (g[2]->0).0
            &&& (g[2]->0).1 == (g[3]->0).0
            &&& (g[3]->0).1 == whole_match(g).1
        }
}

/// Asks `regex::Regex::new` whether it takes the pattern.
#[verifier::external_body]
pub(crate) fn compiles(pattern: &str) -> (r: bool)
    ensures
        r == regex_compiles(pattern@),
{
    regex::Regex::new(pattern).is_ok()
}

/// Calls `regex::Regex::is_match`: the answer depends on the pattern and on the text alone.
#[verifier::external_body]
pub(crate) fn is_match(pattern: &str, text: &str) -> (r: Option<bool>)
    ensures
        r is Some == regex_compiles(pattern@),
        r matches Some(b) ==> b == regex_is_match(pattern@, text@),
{
    match regex::Regex::new(pattern) {
        Ok(re) => Some(re.is_match(text)),
        Err(_) => None,
    }
}

/// Calls `regex::Regex::find_iter` and gives the byte range of each match. The ranges lie between
/// characters, and none begins before the one before it has ended.
#[verifier::external_body]
pub(crate) fn find_iter(pattern: &str, text: &str) -> (r: Option<Vec<(usize, usize)>>)
    ensures
        r is Some == regex_compiles(pattern@),
        r matches Some(v) ==> v@ == regex_find_iter(pattern@, text@) && ranges_fit(text@, v@),
{
    match regex::Regex::new(pattern) {
        Ok(re) => Some(re.find_iter(text).map(|m| (m.start(), m.end())).collect()),
        Err(_) => None,
    }
}

/// Calls `regex::Regex::captures_iter` and gives the byte ranges of the groups of each match. The
/// ranges lie between characters, group zero always takes part, and no match begins before the one
/// before it has ended. The pattern of image links is three groups in a row, so they make up each
/// of its matches.
#[verifier::external_body]
pub(crate) fn captures_iter(pattern: &str, text: &str) -> (r: Option<
    Vec<Vec<Option<(usize, usize)>>>,
>)
    ensures
        r is Some == regex_compiles(pattern@),
        r matches Some(v) ==> v@.map_values(|g: Vec<Option<(usize, usize)>>| g@)
            == regex_captures_iter(pattern@, text@) && groups_fit(
            text@,
            v@.map_values(|g: Vec<Option<(usize, usize)>>| g@),
        ),
        r matches Some(v) ==> (pattern@ == IMG_LINK@ ==> parts_cover(
            v@.map_values(|g: Vec<Option<(usize, usize)>>| g@),
        )),
{
    match regex::Regex::new(pattern) {
        Ok(re) => Some(
            re.captures_iter(text)
                .map(|c| c.iter().map(|g| g.map(|m| (m.start(), m.end()))).collect())
                .collect(),
        ),
        Err(_) => None,
    }
}

/// Calls `regex::Regex::replace_all` with a text as the replacement. With one space as the
/// replacement, a run of white space becomes that space.
#[verifier::external_body]
pub(crate) fn replace_all(pattern: &str, text: &str, replacement: &str) -> (r: Option<String>)
    ensures
        r is Some == regex_compiles(pattern@),
        r matches Some(s) ==> s@ == regex_replace_all(pattern@, text@, replacement@),
        pattern@ == WHITE_SPACE_RUN@ && replacement@ == ONE_SPACE@ ==> r is Some && r->0@
            == spaces_collapsed(text@, false),
        pattern@ == INLINE_SPACE_RUN@ && replacement@ == ONE_SPACE@ ==> r is Some && r->0@
            == gaps_collapsed(text@, false),
{
    match regex::Regex::new(pattern) {
        Ok(re) => Some(re.replace_all(text, replacement).into_owned()),
        Err(_) => None,
    }
}

// ---------------------------------------------------------------------------
// Searching with a pattern that may not compile

/// `pattern` matches somewhere in `text`.
pub open spec fn pattern_found(pattern: Seq<char>, text: Seq<char>) -> bool {
    regex_compiles(pattern) && regex_is_match(pattern, text)
}

/// Where `pattern` matches in `text`: always between characters, one match behind the other.
pub open spec fn pattern_ranges(pattern: Seq<char>, text: Seq<char>) -> Seq<(usize, usize)> {
    let rs = regex_find_iter(pattern, text);
    if regex_compiles(pattern) && ranges_fit(text, rs) {
        rs
    } else {
        seq![]
    }
}

/// Where `pattern` and its groups match in `text`: always between characters, one match behind the
/// other, and in image links one group behind the other.
pub open spec fn pattern_groups(pattern: Seq<char>, text: Seq<char>) -> Seq<
    Seq<Option<(usize, usize)>>,
> {
    let gs = regex_captures_iter(pattern, text);
    if regex_compiles(pattern) && groups_fit(text, gs) && (pattern == IMG_LINK@ ==> parts_cover(
        gs,
    )) {
        gs
    } else {
        seq![]
    }
}

/// `text` with the matches of `pattern` replaced.
pub open spec fn pattern_replaced(
    pattern: Seq<char>,
    text: Seq<char>,
    replacement: Seq<char>,
) -> Seq<char> {
    if regex_compiles(pattern) {
        regex_replace_all(pattern, text, replacement)
    } else {
        text
    }
}

/// Tells whether `pattern` matches somewhere in `text`.
pub fn found(pattern: &str, text: &str) -> (r: bool)
    ensures
        r == pattern_found(pattern@, text@),
{
    match is_match(pattern, text) {
        Some(b) => b,
        None => false,
    }
}

/// Finds the matches of `pattern` in `text`.
pub fn ranges(pattern: &str, text: &str) -> (r: Vec<(usize, usize)>)
    ensures
        r@ == pattern_ranges(pattern@, text@),
        ranges_fit(text@, r@),
{
    match find_iter(pattern, text) {
        Some(v) => v,
        None => Vec::new(),
    }
}

/// The contents of a list of groups.
pub open spec fn group_views(v: Seq<Vec<Option<(usize, usize)>>>) -> Seq<
    Seq<Option<(usize, usize)>>,
> {
    v.map_values(|g: Vec<Option<(usize, usize)>>| g@)
}

/// Finds the matches of `pattern` in `text`, with their groups.
pub fn groups(pattern: &str, text: &str) -> (r: Vec<Vec<Option<(usize, usize)>>>)
    ensures
        group_views(r@) == pattern_groups(pattern@, text@),
        groups_fit(text@, group_views(r@)),
{
    match captures_iter(pattern, text) {
        Some(v) => v,
        None => {
            let v: Vec<Vec<Option<(usize, usize)>>> = Vec::new();
            assert(group_views(v@) == Seq::<Seq<Option<(usize, usize)>>>::empty());
            v
        },
    }
}

/// Replaces the matches of `pattern` in `text`.
pub fn replace_matches(pattern: &str, text: &str, replacement: &str) -> (r: String)
    ensures
        r@ == pattern_replaced(pattern@, text@, replacement@),
{
    match replace_all(pattern, text, replacement) {
        Some(s) => s,
        None => text.to_owned(),
    }
}

/// Makes every run of white space in `text` one space.
pub fn collapse_spaces(text: &str) -> (r: String)
    ensures
        r@ == spaces_collapsed(text@, false),
{
    match replace_all(WHITE_SPACE_RUN, text, ONE_SPACE) {
        Some(s) => s,
        None => text.to_owned(),
    }
}

/// Makes every run of white space inside a line of `text` one space.
pub fn collapse_gaps(text: &str) -> (r: String)
    ensures
        r@ == gaps_collapsed(text@, false),
{
    match replace_all(INLINE_SPACE_RUN, text, ONE_SPACE) {
        Some(s) => s,
        None => text.to_owned(),
    }
}

/// The text of the group `k` of a match, or nothing where it took no part.
pub open spec fn group_text(text: Seq<char>, g: Seq<Option<(usize, usize)>>, k: int) -> Seq<char> {
    if 0 <= k < g.len() {
        match g[k] {
            Some(r) => byte_slice(text, r.0 as int, r.1 as int),
            None => seq![],
        }
    } else {
        seq![]
    }
}

/// Cuts the text of the group `k` of a match out of `text`.
fn cut_group(text: &str, g: &Vec<Option<(usize, usize)>>, k: usize) -> (r: String)
    requires
        forall|j: int|
            0 <= j < g@.len() && g@[j] is Some ==> range_fits(text@, (#[trigger] g@[j])->0),
    ensures
        r@ == group_text(text@, g@, k as int),
{
    if k < g.len() {
        match g[k] {
            Some((a, b)) => {
                assert(range_fits(text@, g@[k as int]->0));
                slice_bytes(text, a, b).to_owned()
            },
            None => String::new(),
        }
    } else {
        String::new()
    }
}

/// Cuts the text of the group `k` of the match `i` out of `text`.
pub fn cut_match_group(
    text: &str,
    gs: &Vec<Vec<Option<(usize, usize)>>>,
    i: usize,
    k: usize,
) -> (r: String)
    requires
        groups_fit(text@, group_views(gs@)),
        i < gs@.len(),
    ensures
        r@ == group_text(text@, group_views(gs@)[i as int], k as int),
{
    let g = &gs[i];
    let ghost views = group_views(gs@);
    assert(views[i as int] == g@);
    assert forall|j: int| 0 <= j < g@.len() && g@[j] is Some implies range_fits(
        text@,
        (#[trigger] g@[j])->0,
    ) by {
        assert(views[i as int][j] is Some);
    }
    cut_group(text, g, k)
}

/// What stands in `text` before the match `i`, behind the match before it.
pub open spec fn gap_text(text: Seq<char>, rs: Seq<(usize, usize)>, i: int) -> Seq<char> {
    let a = if i == 0 {
        0
    } else {
        rs[i - 1].1 as int
    };
    let b = if i < rs.len() {
        rs[i].0 as int
    } else {
        byte_len(text) as int
    };
    byte_slice(text, a, b)
}

/// The text of the match `i`.
pub open spec fn match_text(text: Seq<char>, rs: Seq<(usize, usize)>, i: int) -> Seq<char> {
    byte_slice(text, rs[i].0 as int, rs[i].1 as int)
}

/// Cuts out what stands before the match `i`, or behind the last match.
pub fn cut_gap<'a>(text: &'a str, rs: &Vec<(usize, usize)>, i: usize) -> (r: &'a str)
    requires
        ranges_fit(text@, rs@),
        i <= rs@.len(),
    ensures
        r@ == gap_text(text@, rs@, i as int),
{
    proof {
        lemma_ends_on_boundary(text@);
    }
    let n = rs.len();
    let a: usize = if i == 0 {
        0
    } else {
        assert(range_fits(text@, rs@[i - 1]));
        rs[i - 1].1
    };
    let b: usize = if i < n {
        assert(range_fits(text@, rs@[i as int]));
        rs[i].0
    } else {
        bytes_in(text)
    };
    slice_bytes(text, a, b)
}

/// Cuts out the match `i`.
pub fn cut_match<'a>(text: &'a str, rs: &Vec<(usize, usize)>, i: usize) -> (r: &'a str)
    requires
        ranges_fit(text@, rs@),
        i < rs@.len(),
    ensures
        r@ == match_text(text@, rs@, i as int),
{
    assert(range_fits(text@, rs@[i as int]));
    slice_bytes(text, rs[i].0, rs[i].1)
}

} // verus!
