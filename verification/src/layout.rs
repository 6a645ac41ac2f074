//! White space, line and entity normalization of plain text.

use vstd::prelude::*;

use crate::chars::{is_space, lower_char};
use crate::regexes::{collapse_gaps, collapse_spaces, gaps_collapsed, spaces_collapsed};
use crate::text::{
    all_space, join, joined, lemma_begins, lemma_nothing_replaced, lemma_span, lemma_span_is,
    lemma_trimmed_around, lemma_trimmed_parts, line_list, lines, lowered, occurs, occurs_at,
    replace, replaced, span, strings, trim, trimmed, without_return,
};

verus! {

// ---------------------------------------------------------------------------
// Line endings

/// `s` with every line ending made a line feed.
pub open spec fn newlines_unified(s: Seq<char>) -> Seq<char> {
    replaced(replaced(s, "\r\n"@, "\n"@), "\r"@, "\n"@)
}

/// Makes every line ending a line feed.
pub fn unify_newlines(text: &str) -> (r: String)
    ensures
        r@ == newlines_unified(text@),
{
    proof {
        reveal_strlit("\r\n");
        reveal_strlit("\r");
    }
    replace(&replace(text, "\r\n", "\n"), "\r", "\n")
}

/// No carriage return is left when each is replaced.
proof fn lemma_returns_replaced(s: Seq<char>)
    ensures
        !replaced(s, "\r"@, "\n"@).contains('\r'),
    decreases s.len(),
{
    reveal_strlit("\r");
    reveal_strlit("\n");
    if s.len() > 0 {
        if "\r"@.is_prefix_of(s) {
            lemma_returns_replaced(s.skip(1));
            let t = replaced(s.skip(1), "\r"@, "\n"@);
            assert forall|i: int| 0 <= i < ("\n"@ + t).len() implies #[trigger] ("\n"@ + t)[i]
                != '\r' by {
                if i > 0 {
                    assert(("\n"@ + t)[i] == t[i - 1]);
                }
            }
        } else {
            assert(s[0] != '\r') by {
                if s[0] == '\r' {
                    assert("\r"@ =~= s.subrange(0, 1));
                }
            }
            lemma_returns_replaced(s.drop_first());
            let t = replaced(s.drop_first(), "\r"@, "\n"@);
            assert forall|i: int| 0 <= i < (seq![s[0]] + t).len() implies #[trigger] (seq![s[0]]
                + t)[i] != '\r' by {
                if i > 0 {
                    assert((seq![s[0]] + t)[i] == t[i - 1]);
                }
            }
        }
    }
}

/// No carriage return is left when line endings are unified.
pub proof fn law_no_return_is_left(s: Seq<char>)
    ensures
        !newlines_unified(s).contains('\r'),
{
    lemma_returns_replaced(replaced(s, "\r\n"@, "\n"@));
}

/// A text without a carriage return is left as it is when line endings are unified.
pub proof fn law_unified_stays(s: Seq<char>)
    requires
        !s.contains('\r'),
    ensures
        newlines_unified(s) == s,
{
    reveal_strlit("\r\n");
    reveal_strlit("\r");
    lemma_nothing_replaced(s, "\r\n"@, "\n"@);
    lemma_nothing_replaced(s, "\r"@, "\n"@);
}

/// To unify line endings twice is to do it once.
pub proof fn law_unified_twice(s: Seq<char>)
    ensures
        newlines_unified(newlines_unified(s)) == newlines_unified(s),
{
    law_no_return_is_left(s);
    law_unified_stays(newlines_unified(s));
}

/// What stands in a text whose white space was replaced by white space, and holds none, stood in it
/// before; what stood at its start, at its start.
proof fn lemma_stood_before(s: Seq<char>, from: Seq<char>, to: Seq<char>, j: int, k: int) -> (i:
    int)
    requires
        from.len() > 0,
        to.len() > 0,
        all_space(to),
        0 <= j,
        0 < k,
        j + k <= replaced(s, from, to).len(),
        forall|x: int| j <= x < j + k ==> !is_space(#[trigger] replaced(s, from, to)[x]),
    ensures
        0 <= i,
        i + k <= s.len(),
        s.subrange(i, i + k) == replaced(s, from, to).subrange(j, j + k),
        j == 0 ==> i == 0,
    decreases s.len(),
{
    let r = replaced(s, from, to);
    if s.len() < from.len() {
        j
    } else if from.is_prefix_of(s) {
        let n = from.len() as int;
        let m = to.len() as int;
        let after = replaced(s.skip(n), from, to);
        assert(r == to + after);
        if j < m {
            assert(r[j] == to[j]);
        }
        assert forall|x: int| j - m <= x < j - m + k implies !is_space(#[trigger] after[x]) by {
            assert(after[x] == r[x + m]);
        }
        let i = lemma_stood_before(s.skip(n), from, to, j - m, k);
        assert(s.subrange(n + i, n + i + k) == s.skip(n).subrange(i, i + k));
        assert(r.subrange(j, j + k) == after.subrange(j - m, j - m + k));
        n + i
    } else {
        let rest = s.drop_first();
        let after = replaced(rest, from, to);
        assert(r == seq![s[0]] + after);
        if j > 0 {
            assert forall|x: int| j - 1 <= x < j - 1 + k implies !is_space(#[trigger] after[x]) by {
                assert(after[x] == r[x + 1]);
            }
            let i = lemma_stood_before(rest, from, to, j - 1, k);
            assert(s.subrange(1 + i, 1 + i + k) == rest.subrange(i, i + k));
            assert(r.subrange(j, j + k) == after.subrange(j - 1, j - 1 + k));
            1 + i
        } else if k == 1 {
            assert(s.subrange(0, 1) == r.subrange(0, 1));
            0
        } else {
            assert forall|x: int| 0 <= x < k - 1 implies !is_space(#[trigger] after[x]) by {
                assert(after[x] == r[x + 1]);
            }
            let i = lemma_stood_before(rest, from, to, 0, k - 1);
            assert(i == 0);
            assert(s.subrange(0, k) == r.subrange(0, k)) by {
                assert forall|x: int| 0 <= x < k implies s[x] == r[x] by {
                    if x > 0 {
                        assert(rest.subrange(0, k - 1)[x - 1] == after.subrange(0, k - 1)[x - 1]);
                    }
                }
            }
            0
        }
    }
}

/// What stands in a text with unified line endings, whatever the case of its letters, and holds no
/// white space, stands in the text as well.
pub proof fn law_unified_brings_in_nothing(s: Seq<char>, p: Seq<char>)
    requires
        occurs(lowered(newlines_unified(s)), p),
        forall|i: int| 0 <= i < p.len() ==> !is_space(#[trigger] p[i]),
    ensures
        occurs(lowered(s), p),
{
    reveal_strlit("\r\n");
    reveal_strlit("\r");
    reveal_strlit("\n");
    let u = replaced(s, "\r\n"@, "\n"@);
    let r = newlines_unified(s);
    let k = p.len() as int;
    let j = choose|j: int| occurs_at(lowered(r), p, j);
    if k == 0 {
        assert(lowered(s).subrange(0, 0) == p);
        assert(occurs_at(lowered(s), p, 0));
    } else {
        assert forall|x: int| j <= x < j + k implies !is_space(#[trigger] r[x]) by {
            assert(lowered(r).subrange(j, j + k)[x - j] == lower_char(r[x]));
            assert(!is_space(p[x - j]));
        }
        let m = lemma_stood_before(u, "\r"@, "\n"@, j, k);
        assert forall|x: int| m <= x < m + k implies !is_space(#[trigger] u[x]) by {
            assert(u.subrange(m, m + k)[x - m] == r.subrange(j, j + k)[x - m]);
        }
        let i = lemma_stood_before(s, "\r\n"@, "\n"@, m, k);
        assert(s.subrange(i, i + k) == r.subrange(j, j + k));
        assert(lowered(s).subrange(i, i + k) =~= p) by {
            assert forall|x: int| 0 <= x < k implies lowered(s).subrange(i, i + k)[x] == p[x] by {
                assert(s.subrange(i, i + k)[x] == r.subrange(j, j + k)[x]);
                assert(lowered(r).subrange(j, j + k)[x] == p[x]);
            }
        }
        assert(occurs_at(lowered(s), p, i));
    }
}

// ---------------------------------------------------------------------------
// White space

/// `s` on one line: every run of white space is one space, and none stands at either end.
pub open spec fn one_line(s: Seq<char>) -> Seq<char> {
    trimmed(spaces_collapsed(s, false))
}

/// To replace white space by white space changes nothing once runs are collapsed.
proof fn lemma_replacing_spaces(s: Seq<char>, from: Seq<char>, to: Seq<char>, in_run: bool)
    requires
        from.len() > 0,
        to.len() > 0,
        forall|i: int| 0 <= i < from.len() ==> is_space(#[trigger] from[i]),
        forall|i: int| 0 <= i < to.len() ==> is_space(#[trigger] to[i]),
    ensures
        spaces_collapsed(replaced(s, from, to), in_run) == spaces_collapsed(s, in_run),
    decreases s.len(),
{
    if s.len() < from.len() {
    } else if from.is_prefix_of(s) {
        let rest = s.skip(from.len() as int);
        lemma_replacing_spaces(rest, from, to, true);
        lemma_leading_spaces(to, replaced(rest, from, to), in_run);
        assert forall|i: int| 0 <= i < from.len() implies s[i] == from[i] by {
            assert(s.subrange(0, from.len() as int)[i] == s[i]);
        }
        assert(s == from + rest);
        lemma_leading_spaces(from, rest, in_run);
    } else {
        let rest = s.drop_first();
        let after = replaced(rest, from, to);
        lemma_replacing_spaces(rest, from, to, is_space(s[0]));
        assert((seq![s[0]] + after).drop_first() == after);
        assert((seq![s[0]] + after)[0] == s[0]);
    }
}

/// White space at the start of a text is one space, or none inside a run.
proof fn lemma_leading_spaces(w: Seq<char>, s: Seq<char>, in_run: bool)
    requires
        w.len() > 0,
        forall|i: int| 0 <= i < w.len() ==> is_space(#[trigger] w[i]),
    ensures
        spaces_collapsed(w + s, in_run) == (if in_run {
            spaces_collapsed(s, true)
        } else {
            seq![' '] + spaces_collapsed(s, true)
        }),
    decreases w.len(),
{
    let t = w.drop_first();
    assert((w + s)[0] == w[0]);
    assert((w + s).drop_first() == t + s);
    if t.len() > 0 {
        assert forall|i: int| 0 <= i < t.len() implies is_space(#[trigger] t[i]) by {
            assert(t[i] == w[i + 1]);
        }
        lemma_leading_spaces(t, s, true);
    } else {
        assert(t + s == s);
    }
}

/// Unified line endings collapse as the endings that they stand for.
proof fn lemma_unified_collapse(s: Seq<char>, in_run: bool)
    ensures
        spaces_collapsed(newlines_unified(s), in_run) == spaces_collapsed(s, in_run),
{
    reveal_strlit("\r\n");
    reveal_strlit("\r");
    reveal_strlit("\n");
    lemma_replacing_spaces(s, "\r\n"@, "\n"@, in_run);
    lemma_replacing_spaces(replaced(s, "\r\n"@, "\n"@), "\r"@, "\n"@, in_run);
}

/// Puts `text` on one line, with every run of white space made one space.
pub fn collapse_preview_whitespace(text: &str) -> (r: String)
    ensures
        r@ == one_line(text@),
{
    let unified = unify_newlines(text);
    proof {
        reveal_strlit("\n");
        reveal_strlit(" ");
        lemma_unified_collapse(text@, false);
        lemma_replacing_spaces(unified@, "\n"@, " "@, false);
    }
    let normalized = replace(&unified, "\n", " ");
    trim(&collapse_spaces(&normalized))
}

/// One line with every run of white space inside it made one space, and none at either end.
pub open spec fn line_collapsed(s: Seq<char>) -> Seq<char> {
    trimmed(gaps_collapsed(trimmed(s), false))
}

/// Makes every run of white space inside `text` one space and cuts it off both ends.
pub fn collapse_line_whitespace(text: &str) -> (r: String)
    ensures
        r@ == line_collapsed(text@),
{
    trim(&collapse_gaps(&trim(text)))
}

/// Every white space character in `s` is a space, and no two stand next to each other. Where
/// `in_run` holds, `s` does not begin with one either.
pub open spec fn is_spaced(s: Seq<char>, in_run: bool) -> bool {
    &&& forall|i: int| 0 <= i < s.len() && is_space(#[trigger] s[i]) ==> s[i] == ' '
    &&& forall|i: int| 0 <= i < s.len() - 1 && is_space(#[trigger] s[i]) ==> !is_space(s[i + 1])
    &&& in_run && s.len() > 0 ==> !is_space(s[0])
}

/// `s` is spaced, and white space stands at neither end.
pub open spec fn is_tight(s: Seq<char>) -> bool {
    &&& is_spaced(s, false)
    &&& s.len() > 0 ==> !is_space(s[0]) && !is_space(s.last())
}

/// A character put before a spaced text leaves it spaced.
proof fn lemma_spaced_behind(c: char, s: Seq<char>)
    requires
        is_spaced(s, is_space(c)),
        is_space(c) ==> c == ' ',
    ensures
        is_spaced(seq![c] + s, false),
        !is_space(c) ==> is_spaced(seq![c] + s, true),
{
    let t = seq![c] + s;
    assert forall|i: int| 0 <= i < t.len() && is_space(#[trigger] t[i]) implies t[i] == ' ' by {
        if i > 0 {
            assert(t[i] == s[i - 1]);
        }
    }
    assert forall|i: int| 0 <= i < t.len() - 1 && is_space(#[trigger] t[i]) implies !is_space(
        t[i + 1],
    ) by {
        if i > 0 {
            assert(t[i] == s[i - 1]);
            assert(t[i + 1] == s[i]);
        } else {
            assert(t[1] == s[0]);
        }
    }
}

/// Collapsed text is spaced.
pub proof fn lemma_collapsed_is_spaced(s: Seq<char>, in_run: bool)
    ensures
        is_spaced(spaces_collapsed(s, in_run), in_run),
    decreases s.len(),
{
    if s.len() > 0 {
        lemma_collapsed_is_spaced(s.drop_first(), is_space(s[0]));
        let rest = spaces_collapsed(s.drop_first(), is_space(s[0]));
        if !is_space(s[0]) {
            lemma_spaced_behind(s[0], rest);
        } else if !in_run {
            lemma_spaced_behind(' ', rest);
        }
    }
}

/// Spaced text is left as it is when it is collapsed.
pub proof fn lemma_spaced_stays(s: Seq<char>, in_run: bool)
    requires
        is_spaced(s, in_run),
    ensures
        spaces_collapsed(s, in_run) == s,
    decreases s.len(),
{
    if s.len() > 0 {
        let t = s.drop_first();
        assert forall|i: int| 0 <= i < t.len() && is_space(#[trigger] t[i]) implies t[i] == ' ' by {
            assert(t[i] == s[i + 1]);
        }
        assert forall|i: int| 0 <= i < t.len() - 1 && is_space(#[trigger] t[i]) implies !is_space(
            t[i + 1],
        ) by {
            assert(t[i] == s[i + 1]);
            assert(t[i + 1] == s[i + 2]);
        }
        if t.len() > 0 {
            assert(t[0] == s[1]);
        }
        lemma_spaced_stays(t, is_space(s[0]));
        assert(seq![s[0]] + t == s);
    }
}

/// Spaced text is tight once it is trimmed.
proof fn lemma_spaced_trimmed(s: Seq<char>)
    requires
        is_spaced(s, false),
    ensures
        is_tight(trimmed(s)),
{
    let (v, w) = lemma_trimmed_parts(s);
    let t = trimmed(s);
    assert forall|i: int| 0 <= i < t.len() implies #[trigger] t[i] == s[v.len() + i] by {
        assert((v + t + w)[v.len() + i] == t[i]);
    }
    assert(s.len() == v.len() + t.len() + w.len());
    assert forall|i: int| 0 <= i < t.len() - 1 && is_space(#[trigger] t[i]) implies !is_space(
        t[i + 1],
    ) by {
        assert(t[i] == s[v.len() + i]);
        assert(t[i + 1] == s[v.len() + i + 1]);
    }
}

/// Tight text is left as it is when it is trimmed.
proof fn lemma_tight_stays(s: Seq<char>)
    requires
        is_tight(s),
    ensures
        trimmed(s) == s,
{
    let e = Seq::<char>::empty();
    assert(e + s + e == s);
    lemma_trimmed_around(e, s, e);
}

/// On one line, white space is single spaces between words.
pub proof fn law_one_line_is_tight(s: Seq<char>)
    ensures
        is_tight(one_line(s)),
{
    lemma_collapsed_is_spaced(s, false);
    lemma_spaced_trimmed(spaces_collapsed(s, false));
}

/// What is tight is on one line already; so to put a text on one line twice is to do it once.
pub proof fn law_tight_is_on_one_line(s: Seq<char>)
    requires
        is_tight(s),
    ensures
        one_line(s) == s,
{
    lemma_spaced_stays(s, false);
    lemma_tight_stays(s);
}

/// To put a text on one line twice is to do it once.
pub proof fn law_one_line_twice(s: Seq<char>)
    ensures
        one_line(one_line(s)) == one_line(s),
{
    law_one_line_is_tight(s);
    law_tight_is_on_one_line(one_line(s));
}

/// How the lines of a text end makes no difference when it is put on one line.
pub proof fn law_one_line_whatever_line_endings(s: Seq<char>)
    ensures
        one_line(newlines_unified(s)) == one_line(s),
{
    lemma_unified_collapse(s, false);
}

// ---------------------------------------------------------------------------
// Layout

/// The lines `ls` with their white space collapsed.
pub open spec fn lines_collapsed(ls: Seq<Seq<char>>) -> Seq<Seq<char>> {
    Seq::new(ls.len(), |i: int| line_collapsed(ls[i]))
}

/// `ls` with every run of empty lines made one empty line.
pub open spec fn blanks_merged(ls: Seq<Seq<char>>) -> Seq<Seq<char>>
    decreases ls.len(),
{
    if ls.len() == 0 {
        seq![]
    } else {
        let m = blanks_merged(ls.drop_last());
        if ls.last().len() == 0 && m.len() > 0 && m.last().len() == 0 {
            m
        } else {
            m.push(ls.last())
        }
    }
}

/// `ls` without the empty lines at its start.
pub open spec fn without_blank_start(ls: Seq<Seq<char>>) -> Seq<Seq<char>>
    decreases ls.len(),
{
    if ls.len() > 0 && ls[0].len() == 0 {
        without_blank_start(ls.drop_first())
    } else {
        ls
    }
}

/// `ls` without the empty lines at its end.
pub open spec fn without_blank_end(ls: Seq<Seq<char>>) -> Seq<Seq<char>>
    decreases ls.len(),
{
    if ls.len() > 0 && ls.last().len() == 0 {
        without_blank_end(ls.drop_last())
    } else {
        ls
    }
}

/// The lines of a tidy layout of `s`.
pub open spec fn layout_lines(s: Seq<char>) -> Seq<Seq<char>> {
    without_blank_end(
        without_blank_start(blanks_merged(lines_collapsed(line_list(newlines_unified(s))))),
    )
}

/// `s` in a tidy layout: white space is collapsed in each line, runs of empty lines are one empty
/// line, and no empty line stands at either end.
pub open spec fn tidy_layout(s: Seq<char>) -> Seq<char> {
    joined(layout_lines(s), "\n"@)
}

/// Puts `text` in a tidy layout.
pub fn normalize_plain_text_layout(text: &str) -> (r: String)
    ensures
        r@ == tidy_layout(text@),
{
    let raw = lines(&unify_newlines(text));
    let ghost model = lines_collapsed(line_list(newlines_unified(text@)));
    let mut list: Vec<String> = Vec::new();
    for i in 0..raw.len()
        invariant
            strings(raw@) == line_list(newlines_unified(text@)),
            model == lines_collapsed(line_list(newlines_unified(text@))),
            strings(list@) == blanks_merged(model.take(i as int)),
    {
        assert(raw@[i as int]@ == strings(raw@)[i as int]);
        let line = collapse_line_whitespace(&raw[i]);
        assert(model.take(i + 1).drop_last() == model.take(i as int));
        assert(model.take(i + 1).last() == line@);
        let ghost before = strings(list@);
        let n = list.len();
        let repeated = line.as_str().is_empty() && n > 0 && list[n - 1].as_str().is_empty();
        assert(n > 0 ==> before.last() == list@[n - 1]@);
        if !repeated {
            list.push(line);
            assert(strings(list@) == before.push(line@));
        }
    }
    assert(model.take(raw@.len() as int) == model);
    let ghost all = strings(list@);
    let n = list.len();
    let mut start: usize = 0;
    assert(all.skip(0) == all);
    while start < n && list[start].as_str().is_empty()
        invariant
            n == list@.len(),
            all == strings(list@),
            start <= n,
            without_blank_start(all) == without_blank_start(all.skip(start as int)),
        decreases n - start,
    {
        assert(all[start as int] == list@[start as int]@);
        assert(all.skip(start as int).drop_first() == all.skip(start + 1));
        start = start + 1;
    }
    if start < n {
        assert(all[start as int] == list@[start as int]@);
    }
    assert(without_blank_start(all) == all.skip(start as int));
    let mut end: usize = n;
    assert(all.skip(start as int) == all.subrange(start as int, end as int));
    while end > start && list[end - 1].as_str().is_empty()
        invariant
            n == list@.len(),
            all == strings(list@),
            start <= end <= n,
            without_blank_end(all.skip(start as int)) == without_blank_end(
                all.subrange(start as int, end as int),
            ),
        decreases end,
    {
        assert(all[end - 1] == list@[end - 1]@);
        assert(all.subrange(start as int, end as int).drop_last() == all.subrange(
            start as int,
            end - 1,
        ));
        end = end - 1;
    }
    if end > start {
        assert(all[end - 1] == list@[end - 1]@);
    }
    let part = vstd::slice::slice_subrange(list.as_slice(), start, end);
    assert(strings(part@) == all.subrange(start as int, end as int));
    join(part, "\n")
}

/// `s` holds no line ending.
pub open spec fn is_single_line(s: Seq<char>) -> bool {
    forall|i: int| 0 <= i < s.len() ==> #[trigger] s[i] != '\n' && s[i] != '\r'
}

/// The lines are tight, no two empty ones stand next to each other, and none at either end.
pub open spec fn is_tidy(ls: Seq<Seq<char>>) -> bool {
    &&& forall|i: int| 0 <= i < ls.len() ==> is_tight(#[trigger] ls[i])
    &&& forall|i: int| 0 <= i < ls.len() - 1 && (#[trigger] ls[i]).len() == 0 ==> ls[i + 1].len() > 0
    &&& ls.len() > 0 ==> ls[0].len() > 0 && ls.last().len() > 0
}

/// Without carriage returns, the lines of a text hold no line ending.
pub proof fn lemma_lines_single(s: Seq<char>)
    requires
        !s.contains('\r'),
    ensures
        forall|i: int| 0 <= i < line_list(s).len() ==> is_single_line(#[trigger] line_list(s)[i]),
    decreases s.len(),
{
    if s.len() > 0 {
        lemma_span(s, '\n');
        let k = span(s, '\n') as int;
        if k < s.len() {
            let rest = s.skip(k + 1);
            assert forall|i: int| 0 <= i < rest.len() implies #[trigger] rest[i] != '\r' by {
                assert(rest[i] == s[i + k + 1]);
            }
            lemma_lines_single(rest);
            let first = without_return(s.take(k));
            assert forall|i: int| 0 <= i < line_list(s).len() implies is_single_line(
                #[trigger] line_list(s)[i],
            ) by {
                if i > 0 {
                    assert(line_list(s)[i] == line_list(rest)[i - 1]);
                }
            }
        }
    }
}

/// In a single line, the white space inside the line is all its white space.
proof fn lemma_gaps_are_spaces(s: Seq<char>, in_run: bool)
    requires
        is_single_line(s),
    ensures
        gaps_collapsed(s, in_run) == spaces_collapsed(s, in_run),
    decreases s.len(),
{
    if s.len() > 0 {
        let t = s.drop_first();
        assert forall|i: int| 0 <= i < t.len() implies #[trigger] t[i] != '\n' && t[i] != '\r' by {
            assert(t[i] == s[i + 1]);
        }
        assert(s[0] != '\n' && s[0] != '\r');
        lemma_gaps_are_spaces(t, is_space(s[0]));
    }
}

/// A single line that is trimmed is a single line.
proof fn lemma_single_line_trimmed(s: Seq<char>)
    requires
        is_single_line(s),
    ensures
        is_single_line(trimmed(s)),
{
    let t = trimmed(s);
    let (v, w) = lemma_trimmed_parts(s);
    assert forall|i: int| 0 <= i < t.len() implies #[trigger] t[i] != '\n' && t[i] != '\r' by {
        assert((v + t + w)[v.len() + i] == t[i]);
        assert(s[v.len() + i] != '\n');
    }
}

/// A collapsed line is tight.
proof fn lemma_line_is_tight(s: Seq<char>)
    requires
        is_single_line(s),
    ensures
        is_tight(line_collapsed(s)),
{
    let t = trimmed(s);
    lemma_single_line_trimmed(s);
    lemma_gaps_are_spaces(t, false);
    lemma_collapsed_is_spaced(t, false);
    lemma_spaced_trimmed(spaces_collapsed(t, false));
}

/// A tight line stays as it is, and holds no line ending.
proof fn lemma_tight_line_stays(s: Seq<char>)
    requires
        is_tight(s),
    ensures
        is_single_line(s),
        line_collapsed(s) == s,
{
    assert forall|i: int| 0 <= i < s.len() implies #[trigger] s[i] != '\n' && s[i] != '\r' by {
        if s[i] == '\n' || s[i] == '\r' {
            assert(is_space(s[i]));
        }
    }
    lemma_tight_stays(s);
    lemma_gaps_are_spaces(s, false);
    lemma_spaced_stays(s, false);
}

/// Merging leaves tight lines, no two empty ones next to each other.
proof fn lemma_merged(ls: Seq<Seq<char>>)
    requires
        forall|i: int| 0 <= i < ls.len() ==> is_tight(#[trigger] ls[i]),
    ensures
        forall|i: int| 0 <= i < blanks_merged(ls).len() ==> is_tight(#[trigger] blanks_merged(ls)[i]),
        forall|i: int|
            0 <= i < blanks_merged(ls).len() - 1 && (#[trigger] blanks_merged(ls)[i]).len() == 0
                ==> blanks_merged(ls)[i + 1].len() > 0,
    decreases ls.len(),
{
    if ls.len() > 0 {
        lemma_merged(ls.drop_last());
        let m = blanks_merged(ls.drop_last());
        let all = blanks_merged(ls);
        assert(is_tight(ls[ls.len() - 1]));
        assert forall|i: int| 0 <= i < all.len() implies is_tight(#[trigger] all[i]) by {
            if i < m.len() {
                assert(all[i] == m[i]);
            }
        }
        assert forall|i: int| 0 <= i < all.len() - 1 && (#[trigger] all[i]).len() == 0 implies all[i
            + 1].len() > 0 by {
            assert(all[i] == m[i]);
            if i + 1 < m.len() {
                assert(all[i + 1] == m[i + 1]);
            }
        }
    }
}

/// Lines of which no two empty ones stand next to each other are left as they are.
proof fn lemma_merged_stays(ls: Seq<Seq<char>>)
    requires
        forall|i: int|
            0 <= i < ls.len() - 1 && (#[trigger] ls[i]).len() == 0 ==> ls[i + 1].len() > 0,
    ensures
        blanks_merged(ls) == ls,
    decreases ls.len(),
{
    if ls.len() > 0 {
        let t = ls.drop_last();
        assert forall|i: int| 0 <= i < t.len() - 1 && (#[trigger] t[i]).len() == 0 implies t[i
            + 1].len() > 0 by {
            assert(t[i] == ls[i]);
        }
        lemma_merged_stays(t);
        if t.len() > 0 {
            assert(t.last() == ls[ls.len() - 2]);
        }
        assert(t.push(ls.last()) == ls);
    }
}

/// What is left without the empty lines at the start is a part of the lines that does not begin
/// with an empty one.
proof fn lemma_blank_start(ls: Seq<Seq<char>>) -> (k: int)
    ensures
        0 <= k <= ls.len(),
        without_blank_start(ls) == ls.skip(k),
        k < ls.len() ==> ls[k].len() > 0,
    decreases ls.len(),
{
    if ls.len() > 0 && ls[0].len() == 0 {
        let k = lemma_blank_start(ls.drop_first());
        assert(ls.drop_first().skip(k) == ls.skip(k + 1));
        k + 1
    } else {
        assert(ls.skip(0) == ls);
        0
    }
}

/// What is left without the empty lines at the end is a part of the lines that does not end in an
/// empty one.
proof fn lemma_blank_end(ls: Seq<Seq<char>>) -> (k: int)
    ensures
        0 <= k <= ls.len(),
        without_blank_end(ls) == ls.take(k),
        k > 0 ==> ls[k - 1].len() > 0,
    decreases ls.len(),
{
    if ls.len() > 0 && ls.last().len() == 0 {
        let k = lemma_blank_end(ls.drop_last());
        assert(ls.drop_last().take(k) == ls.take(k));
        k
    } else {
        assert(ls.take(ls.len() as int) == ls);
        ls.len() as int
    }
}

/// The lines of a tidy layout are tight, with one empty line at most between two others.
pub proof fn law_layout_lines_are_tidy(s: Seq<char>)
    ensures
        is_tidy(layout_lines(s)),
{
    let u = newlines_unified(s);
    law_no_return_is_left(s);
    lemma_lines_single(u);
    let c = lines_collapsed(line_list(u));
    assert forall|i: int| 0 <= i < c.len() implies is_tight(#[trigger] c[i]) by {
        assert(is_single_line(line_list(u)[i]));
        lemma_line_is_tight(line_list(u)[i]);
    }
    lemma_merged(c);
    let m = blanks_merged(c);
    let a = lemma_blank_start(m);
    let t = m.skip(a);
    let b = lemma_blank_end(t);
    let ls = layout_lines(s);
    assert(ls == t.take(b));
    assert forall|i: int| 0 <= i < ls.len() implies #[trigger] ls[i] == m[a + i] by {}
    assert forall|i: int| 0 <= i < ls.len() - 1 && (#[trigger] ls[i]).len() == 0 implies ls[i
        + 1].len() > 0 by {
        assert(ls[i] == m[a + i]);
        assert(ls[i + 1] == m[a + i + 1]);
    }
    if ls.len() > 0 {
        assert(ls[0] == m[a]);
        assert(ls.last() == t[b - 1]);
    }
}

/// The first of several joined members stands before the others.
proof fn lemma_joined_front(ls: Seq<Seq<char>>, sep: Seq<char>)
    requires
        ls.len() > 1,
    ensures
        joined(ls, sep) == ls[0] + sep + joined(ls.drop_first(), sep),
    decreases ls.len(),
{
    if ls.len() == 2 {
        assert(joined(ls.drop_last(), sep) == ls[0]);
        assert(joined(ls.drop_first(), sep) == ls.last());
    } else {
        let inner = ls.drop_first().drop_last();
        lemma_joined_front(ls.drop_last(), sep);
        assert(ls.drop_last().drop_first() == inner);
        assert(joined(ls.drop_first(), sep) == joined(inner, sep) + sep + ls.last());
        assert(joined(ls, sep) == ls[0] + sep + joined(inner, sep) + sep + ls.last());
    }
}

/// Lines that are joined are the lines of the text that they make up.
proof fn lemma_lines_of_joined(ls: Seq<Seq<char>>)
    requires
        forall|i: int| 0 <= i < ls.len() ==> is_single_line(#[trigger] ls[i]),
        ls.len() > 0 ==> ls.last().len() > 0,
    ensures
        line_list(joined(ls, "\n"@)) == ls,
        !joined(ls, "\n"@).contains('\r'),
    decreases ls.len(),
{
    reveal_strlit("\n");
    let j = joined(ls, "\n"@);
    if ls.len() == 1 {
        assert(is_single_line(ls[0]));
        lemma_span_is(j, '\n', j.len() as int);
        assert(line_list(j) == ls);
    } else if ls.len() > 1 {
        let rest = ls.drop_first();
        assert forall|i: int| 0 <= i < rest.len() implies is_single_line(#[trigger] rest[i]) by {
            assert(rest[i] == ls[i + 1]);
        }
        assert(rest.last() == ls.last());
        lemma_lines_of_joined(rest);
        lemma_joined_front(ls, "\n"@);
        let a = ls[0];
        let tail = joined(rest, "\n"@);
        let n = a.len() as int;
        assert(is_single_line(a));
        assert(j == a + "\n"@ + tail);
        assert forall|i: int| 0 <= i < n implies #[trigger] j[i] != '\n' by {
            assert(j[i] == a[i]);
        }
        assert(j[n] == '\n');
        lemma_span_is(j, '\n', n);
        assert(j.take(n) == a);
        assert(j.skip(n + 1) == tail);
        if n > 0 {
            assert(a[n - 1] != '\r');
        }
        assert(without_return(a) == a);
        assert(line_list(j) == seq![a] + rest);
        assert(seq![a] + rest == ls);
        assert forall|i: int| 0 <= i < j.len() implies #[trigger] j[i] != '\r' by {
            if i < n {
                assert(j[i] == a[i]);
            } else if i > n {
                assert(j[i] == tail[i - n - 1]);
            }
        }
    }
}

/// Tidy lines are left as they are: a text made up of them is in a tidy layout.
pub proof fn law_tidy_lines_stay(ls: Seq<Seq<char>>)
    requires
        is_tidy(ls),
    ensures
        line_list(joined(ls, "\n"@)) == ls,
        tidy_layout(joined(ls, "\n"@)) == joined(ls, "\n"@),
        !joined(ls, "\n"@).contains('\r'),
{
    assert forall|i: int| 0 <= i < ls.len() implies is_single_line(#[trigger] ls[i])
        && line_collapsed(ls[i]) == ls[i] by {
        assert(is_tight(ls[i]));
        lemma_tight_line_stays(ls[i]);
    }
    lemma_lines_of_joined(ls);
    law_unified_stays(joined(ls, "\n"@));
    assert(lines_collapsed(ls) == ls);
    lemma_merged_stays(ls);
}

/// The lines of a text in a tidy layout are those of the layout, and to tidy it again changes
/// nothing.
pub proof fn law_tidy_layout_twice(s: Seq<char>)
    ensures
        line_list(tidy_layout(s)) == layout_lines(s),
        tidy_layout(tidy_layout(s)) == tidy_layout(s),
{
    law_layout_lines_are_tidy(s);
    law_tidy_lines_stay(layout_lines(s));
}

// ---------------------------------------------------------------------------
// Words

/// The word `w`, where it is one.
pub open spec fn whole_word(w: Seq<char>) -> Seq<Seq<char>> {
    if w.len() == 0 {
        seq![]
    } else {
        seq![w]
    }
}

/// The words of `s`, of which the first one goes on from `begun`.
pub open spec fn words_from(begun: Seq<char>, s: Seq<char>) -> Seq<Seq<char>>
    decreases s.len(),
{
    if s.len() == 0 {
        whole_word(begun)
    } else if is_space(s[0]) {
        whole_word(begun) + words_from(seq![], s.drop_first())
    } else {
        words_from(begun.push(s[0]), s.drop_first())
    }
}

/// The words of `s`: what stands between white space.
pub open spec fn words(s: Seq<char>) -> Seq<Seq<char>> {
    words_from(seq![], s)
}

/// The words of the lines, one line after the other.
spec fn lines_words(ls: Seq<Seq<char>>) -> Seq<Seq<char>>
    decreases ls.len(),
{
    if ls.len() == 0 {
        seq![]
    } else {
        lines_words(ls.drop_last()) + words(ls.last())
    }
}

/// White space ends a word.
pub proof fn lemma_words_behind_space(begun: Seq<char>, w: Seq<char>, s: Seq<char>)
    requires
        w.len() > 0,
        all_space(w),
    ensures
        words_from(begun, w + s) == whole_word(begun) + words(s),
    decreases w.len(),
{
    let t = w.drop_first();
    assert((w + s)[0] == w[0]);
    assert((w + s).drop_first() == t + s);
    assert(is_space(w[0]));
    if t.len() > 0 {
        assert forall|i: int| 0 <= i < t.len() implies is_space(#[trigger] t[i]) by {
            assert(t[i] == w[i + 1]);
        }
        lemma_words_behind_space(seq![], t, s);
        assert(whole_word(seq![]) + words(s) == words(s));
    } else {
        assert(t + s == s);
    }
}

/// White space parts the words before it from those behind it.
pub proof fn lemma_words_apart(begun: Seq<char>, a: Seq<char>, w: Seq<char>, b: Seq<char>)
    requires
        w.len() > 0,
        all_space(w),
    ensures
        words_from(begun, a + w + b) == words_from(begun, a) + words(b),
    decreases a.len(),
{
    let whole = a + w + b;
    if a.len() == 0 {
        assert(whole == w + b);
        lemma_words_behind_space(begun, w, b);
    } else {
        let t = a.drop_first();
        assert(whole[0] == a[0]);
        assert(whole.drop_first() == t + w + b);
        if is_space(a[0]) {
            lemma_words_apart(seq![], t, w, b);
            assert(whole_word(begun) + (words(t) + words(b)) == whole_word(begun) + words(t)
                + words(b));
        } else {
            lemma_words_apart(begun.push(a[0]), t, w, b);
        }
    }
}

/// White space behind a text adds no word.
proof fn lemma_words_before_space(s: Seq<char>, w: Seq<char>)
    requires
        all_space(w),
    ensures
        words(s + w) == words(s),
{
    let e = Seq::<char>::empty();
    if w.len() > 0 {
        lemma_words_apart(e, s, w, e);
        assert(s + w + e == s + w);
        assert(words(s) + words(e) == words(s));
    } else {
        assert(s + w == s);
    }
}

/// Trimming leaves the words.
pub proof fn lemma_words_of_trimmed(s: Seq<char>)
    ensures
        words(trimmed(s)) == words(s),
{
    let (v, w) = lemma_trimmed_parts(s);
    let t = trimmed(s);
    lemma_words_before_space(v + t, w);
    if v.len() > 0 {
        lemma_words_behind_space(seq![], v, t);
        assert(whole_word(seq![]) + words(t) == words(t));
    } else {
        assert(v + t == t);
    }
}

/// Collapsing leaves the words.
pub proof fn lemma_words_of_collapsed(begun: Seq<char>, s: Seq<char>, in_run: bool)
    requires
        in_run ==> begun.len() == 0,
    ensures
        words_from(begun, spaces_collapsed(s, in_run)) == words_from(begun, s),
    decreases s.len(),
{
    if s.len() > 0 {
        let t = s.drop_first();
        if !is_space(s[0]) {
            lemma_words_of_collapsed(begun.push(s[0]), t, false);
            let c = spaces_collapsed(t, false);
            assert((seq![s[0]] + c).drop_first() == c);
        } else {
            lemma_words_of_collapsed(seq![], t, true);
            let c = spaces_collapsed(t, true);
            assert((seq![' '] + c).drop_first() == c);
            if in_run {
                assert(begun == Seq::<char>::empty());
                assert(whole_word(begun) + words(t) == words(t));
            }
        }
    }
}

/// To replace white space by white space leaves the words.
proof fn lemma_words_of_replaced(begun: Seq<char>, s: Seq<char>, from: Seq<char>, to: Seq<char>)
    requires
        from.len() > 0,
        to.len() > 0,
        all_space(from),
        all_space(to),
    ensures
        words_from(begun, replaced(s, from, to)) == words_from(begun, s),
    decreases s.len(),
{
    if s.len() < from.len() {
    } else if from.is_prefix_of(s) {
        let rest = s.skip(from.len() as int);
        lemma_words_of_replaced(seq![], rest, from, to);
        lemma_begins(from, s);
        assert(s == from + rest);
        lemma_words_behind_space(begun, from, rest);
        lemma_words_behind_space(begun, to, replaced(rest, from, to));
    } else {
        let rest = s.drop_first();
        let r = replaced(rest, from, to);
        assert((seq![s[0]] + r).drop_first() == r);
        if is_space(s[0]) {
            lemma_words_of_replaced(seq![], rest, from, to);
        } else {
            lemma_words_of_replaced(begun.push(s[0]), rest, from, to);
        }
    }
}

/// Unifying line endings leaves the words.
pub proof fn law_unified_keeps_the_words(s: Seq<char>)
    ensures
        words(newlines_unified(s)) == words(s),
{
    reveal_strlit("\r\n");
    reveal_strlit("\r");
    reveal_strlit("\n");
    lemma_words_of_replaced(seq![], s, "\r\n"@, "\n"@);
    lemma_words_of_replaced(seq![], replaced(s, "\r\n"@, "\n"@), "\r"@, "\n"@);
}

/// The words of a single line.
proof fn lemma_words_of_one_line(a: Seq<char>)
    ensures
        lines_words(seq![a]) == words(a),
{
    let none = Seq::<Seq<char>>::empty();
    assert(seq![a].drop_last() == none);
    assert(lines_words(none) == none);
    assert(none + words(a) == words(a));
}

/// The words of a first line and of others.
proof fn lemma_lines_words_front(a: Seq<char>, ls: Seq<Seq<char>>)
    ensures
        lines_words(seq![a] + ls) == words(a) + lines_words(ls),
    decreases ls.len(),
{
    let all = seq![a] + ls;
    if ls.len() > 0 {
        lemma_lines_words_front(a, ls.drop_last());
        assert(all.drop_last() == seq![a] + ls.drop_last());
        assert(all.last() == ls.last());
        assert(words(a) + lines_words(ls.drop_last()) + words(ls.last()) == words(a) + (lines_words(
            ls.drop_last(),
        ) + words(ls.last())));
    } else {
        lemma_words_of_one_line(a);
        assert(all == seq![a]);
        assert(words(a) + lines_words(ls) == words(a));
    }
}

/// The lines of a text have its words.
proof fn lemma_words_of_lines(s: Seq<char>)
    ensures
        lines_words(line_list(s)) == words(s),
    decreases s.len(),
{
    if s.len() > 0 {
        lemma_span(s, '\n');
        let k = span(s, '\n') as int;
        if k >= s.len() {
            lemma_words_of_one_line(s);
        } else {
            let head = s.take(k);
            let rest = s.skip(k + 1);
            let first = without_return(head);
            lemma_words_of_lines(rest);
            lemma_lines_words_front(first, line_list(rest));
            let end = s.subrange(first.len() as int, k + 1);
            assert forall|i: int| 0 <= i < end.len() implies is_space(#[trigger] end[i]) by {
                assert(end[i] == s[first.len() + i]);
                if first.len() + i < k {
                    assert(s[first.len() + i] == head.last());
                }
            }
            assert(s == first + end + rest);
            lemma_words_apart(seq![], first, end, rest);
        }
    }
}

/// Lines with the same words have the same words together.
proof fn lemma_words_line_by_line(a: Seq<Seq<char>>, b: Seq<Seq<char>>)
    requires
        a.len() == b.len(),
        forall|i: int| 0 <= i < a.len() ==> words(#[trigger] a[i]) == words(b[i]),
    ensures
        lines_words(a) == lines_words(b),
    decreases a.len(),
{
    if a.len() > 0 {
        let x = a.drop_last();
        let y = b.drop_last();
        assert forall|i: int| 0 <= i < x.len() implies words(#[trigger] x[i]) == words(y[i]) by {
            assert(x[i] == a[i]);
        }
        lemma_words_line_by_line(x, y);
        assert(words(a[a.len() - 1]) == words(b[a.len() - 1]));
    }
}

/// An empty line adds no word.
proof fn lemma_words_of_empty(ws: Seq<Seq<char>>, s: Seq<char>)
    requires
        s.len() == 0,
    ensures
        ws + words(s) == ws,
        words(s) + ws == ws,
{
    assert(words(s) == Seq::<Seq<char>>::empty());
}

/// Merging empty lines leaves the words.
proof fn lemma_words_of_merged(ls: Seq<Seq<char>>)
    ensures
        lines_words(blanks_merged(ls)) == lines_words(ls),
    decreases ls.len(),
{
    if ls.len() > 0 {
        lemma_words_of_merged(ls.drop_last());
        let m = blanks_merged(ls.drop_last());
        if ls.last().len() == 0 && m.len() > 0 && m.last().len() == 0 {
            lemma_words_of_empty(lines_words(m), ls.last());
        } else {
            assert(m.push(ls.last()).drop_last() == m);
        }
    }
}

/// Cutting off empty lines leaves the words.
proof fn lemma_words_of_cut(ls: Seq<Seq<char>>)
    ensures
        lines_words(without_blank_start(ls)) == lines_words(ls),
        lines_words(without_blank_end(ls)) == lines_words(ls),
    decreases ls.len(),
{
    if ls.len() > 0 && ls[0].len() == 0 {
        lemma_words_of_cut(ls.drop_first());
        lemma_lines_words_front(ls[0], ls.drop_first());
        assert(seq![ls[0]] + ls.drop_first() == ls);
        lemma_words_of_empty(lines_words(ls.drop_first()), ls[0]);
    }
    if ls.len() > 0 && ls.last().len() == 0 {
        lemma_words_of_cut(ls.drop_last());
        lemma_words_of_empty(lines_words(ls.drop_last()), ls.last());
    }
}

/// Joining lines with line feeds leaves the words.
proof fn lemma_words_of_joined(ls: Seq<Seq<char>>)
    ensures
        words(joined(ls, "\n"@)) == lines_words(ls),
    decreases ls.len(),
{
    reveal_strlit("\n");
    if ls.len() == 1 {
        lemma_words_of_one_line(ls[0]);
        assert(ls == seq![ls[0]]);
    } else if ls.len() > 1 {
        lemma_words_of_joined(ls.drop_last());
        lemma_words_apart(seq![], joined(ls.drop_last(), "\n"@), "\n"@, ls.last());
    }
}

/// On one line a text keeps its words.
pub proof fn law_one_line_keeps_the_words(s: Seq<char>)
    ensures
        words(one_line(s)) == words(s),
{
    lemma_words_of_collapsed(seq![], s, false);
    lemma_words_of_trimmed(spaces_collapsed(s, false));
}

/// In a tidy layout a text keeps its words, and so every character that is not white space. The
/// marks that stand for breaks and spaces are such characters.
pub proof fn law_tidy_layout_keeps_the_words(s: Seq<char>)
    ensures
        words(tidy_layout(s)) == words(s),
{
    let u = newlines_unified(s);
    let ls = line_list(u);
    let c = lines_collapsed(ls);
    law_unified_keeps_the_words(s);
    law_no_return_is_left(s);
    lemma_lines_single(u);
    lemma_words_of_lines(u);
    assert forall|i: int| 0 <= i < c.len() implies words(#[trigger] c[i]) == words(ls[i]) by {
        let t = trimmed(ls[i]);
        assert(is_single_line(ls[i]));
        lemma_single_line_trimmed(ls[i]);
        lemma_gaps_are_spaces(t, false);
        lemma_words_of_trimmed(ls[i]);
        lemma_words_of_collapsed(seq![], t, false);
        lemma_words_of_trimmed(gaps_collapsed(t, false));
    }
    lemma_words_line_by_line(c, ls);
    let m = blanks_merged(c);
    lemma_words_of_merged(c);
    lemma_words_of_cut(m);
    lemma_words_of_cut(without_blank_start(m));
    lemma_words_of_joined(layout_lines(s));
}

/// Spaced text that goes on from a word and ends in none is its words with one space between them.
proof fn lemma_spaced_words(begun: Seq<char>, s: Seq<char>)
    requires
        is_spaced(s, begun.len() == 0),
        s.len() > 0 ==> !is_space(s.last()),
        begun.len() + s.len() > 0,
    ensures
        joined(words_from(begun, s), " "@) == begun + s,
        words_from(begun, s).len() > 0,
    decreases s.len(),
{
    reveal_strlit(" ");
    if s.len() == 0 {
        assert(begun + s == begun);
    } else {
        let t = s.drop_first();
        assert forall|i: int| 0 <= i < t.len() && is_space(#[trigger] t[i]) implies t[i] == ' ' by {
            assert(t[i] == s[i + 1]);
        }
        assert forall|i: int| 0 <= i < t.len() - 1 && is_space(#[trigger] t[i]) implies !is_space(
            t[i + 1],
        ) by {
            assert(t[i] == s[i + 1]);
            assert(t[i + 1] == s[i + 2]);
        }
        if t.len() > 0 {
            assert(t.last() == s.last());
        }
        if is_space(s[0]) {
            assert(t.len() > 0);
            assert(t[0] == s[1]);
            lemma_spaced_words(seq![], t);
            let rest = words_from(seq![], t);
            let all = seq![begun] + rest;
            assert(words_from(begun, s) == all);
            lemma_joined_front(all, " "@);
            assert(all.drop_first() == rest);
            assert(begun + " "@ + t == begun + s);
        } else {
            lemma_spaced_words(begun.push(s[0]), t);
            assert(begun.push(s[0]) + t == begun + s);
        }
    }
}

/// A tight line is its words with one space between them.
pub proof fn law_tight_line_is_its_words(s: Seq<char>)
    requires
        is_tight(s),
    ensures
        joined(words(s), " "@) == s,
{
    if s.len() > 0 {
        lemma_spaced_words(seq![], s);
        assert(Seq::<char>::empty() + s == s);
    }
}

/// A text without words is blank, and a blank text has none.
pub proof fn law_blank_text_has_no_words(s: Seq<char>)
    ensures
        words(s).len() == 0 <==> trimmed(s).len() == 0,
{
    lemma_words_of_trimmed(s);
    let (_, _) = lemma_trimmed_parts(s);
    let t = trimmed(s);
    if t.len() > 0 {
        lemma_begun_is_word(seq![t[0]], t.drop_first());
        assert(Seq::<char>::empty().push(t[0]) == seq![t[0]]);
    }
}

/// A word that has begun is one.
proof fn lemma_begun_is_word(begun: Seq<char>, s: Seq<char>)
    requires
        begun.len() > 0,
    ensures
        words_from(begun, s).len() > 0,
    decreases s.len(),
{
    if s.len() > 0 && !is_space(s[0]) {
        lemma_begun_is_word(begun.push(s[0]), s.drop_first());
    }
}

// ---------------------------------------------------------------------------
// Entities

/// `s` with the basic HTML entities replaced by what they stand for, one kind after the other.
pub open spec fn entities_decoded(s: Seq<char>) -> Seq<char> {
    let s1 = replaced(s, "&nbsp;"@, " "@);
    let s2 = replaced(s1, "&#160;"@, " "@);
    let s3 = replaced(s2, "&amp;"@, "&"@);
    let s4 = replaced(s3, "&lt;"@, "<"@);
    let s5 = replaced(s4, "&gt;"@, ">"@);
    let s6 = replaced(s5, "&quot;"@, "\""@);
    let s7 = replaced(s6, "&#34;"@, "\""@);
    let s8 = replaced(s7, "&#39;"@, "'"@);
    replaced(s8, "&apos;"@, "'"@)
}

/// A text without an ampersand holds no entity, and stays as it is.
pub proof fn law_text_without_entities_stays(s: Seq<char>)
    requires
        !s.contains('&'),
    ensures
        entities_decoded(s) == s,
{
    reveal_strlit("&nbsp;");
    reveal_strlit("&#160;");
    reveal_strlit("&amp;");
    reveal_strlit("&lt;");
    reveal_strlit("&gt;");
    reveal_strlit("&quot;");
    reveal_strlit("&#34;");
    reveal_strlit("&#39;");
    reveal_strlit("&apos;");
    lemma_nothing_replaced(s, "&nbsp;"@, " "@);
    lemma_nothing_replaced(s, "&#160;"@, " "@);
    lemma_nothing_replaced(s, "&amp;"@, "&"@);
    lemma_nothing_replaced(s, "&lt;"@, "<"@);
    lemma_nothing_replaced(s, "&gt;"@, ">"@);
    lemma_nothing_replaced(s, "&quot;"@, "\""@);
    lemma_nothing_replaced(s, "&#34;"@, "\""@);
    lemma_nothing_replaced(s, "&#39;"@, "'"@);
    lemma_nothing_replaced(s, "&apos;"@, "'"@);
}

/// Replaces the basic HTML entities by what they stand for.
pub fn decode_basic_html_entities(text: &str) -> (r: String)
    ensures
        r@ == entities_decoded(text@),
{
    proof {
        reveal_strlit("&nbsp;");
        reveal_strlit("&#160;");
        reveal_strlit("&amp;");
        reveal_strlit("&lt;");
        reveal_strlit("&gt;");
        reveal_strlit("&quot;");
        reveal_strlit("&#34;");
        reveal_strlit("&#39;");
        reveal_strlit("&apos;");
    }
    let s1 = replace(text, "&nbsp;", " ");
    let s2 = replace(&s1, "&#160;", " ");
    let s3 = replace(&s2, "&amp;", "&");
    let s4 = replace(&s3, "&lt;", "<");
    let s5 = replace(&s4, "&gt;", ">");
    let s6 = replace(&s5, "&quot;", "\"");
    let s7 = replace(&s6, "&#34;", "\"");
    let s8 = replace(&s7, "&#39;", "'");
    replace(&s8, "&apos;", "'")
}

/// Where what is looked for begins only at one place of a text, and differs from what stands there,
/// nothing is replaced.
pub proof fn lemma_other_stays(a: Seq<char>, m: Seq<char>, b: Seq<char>, other: Seq<char>, k: int)
    requires
        0 < k < other.len(),
        k < m.len(),
        m[k] != other[k],
        !a.contains(other[0]),
        !b.contains(other[0]),
        forall|i: int| 0 < i < m.len() ==> #[trigger] m[i] != other[0],
    ensures
        forall|to: Seq<char>| #[trigger] replaced(a + m + b, other, to) == a + m + b,
    decreases a.len(),
{
    let s = a + m + b;
    assert forall|to: Seq<char>| #[trigger] replaced(s, other, to) == s by {
        if a.len() > 0 {
            let t = a.drop_first();
            assert(s.drop_first() == t + m + b);
            assert forall|i: int| 0 <= i < t.len() implies t[i] != other[0] by {
                assert(t[i] == a[i + 1]);
            }
            lemma_other_stays(t, m, b, other, k);
            if other.is_prefix_of(s) {
                lemma_begins(other, s);
                assert(s[0] == a[0]);
                assert(a.contains(a[0]));
            }
            assert(replaced(t + m + b, other, to) == t + m + b);
            assert(seq![s[0]] + s.drop_first() == s);
        } else {
            let rest = m.drop_first() + b;
            assert(s.drop_first() == rest);
            assert forall|i: int| 0 <= i < rest.len() implies rest[i] != other[0] by {
                if i + 1 < m.len() {
                    assert(rest[i] == m[i + 1]);
                } else {
                    assert(rest[i] == b[i + 1 - m.len()]);
                    assert(b.contains(b[i + 1 - m.len()]));
                }
            }
            lemma_nothing_replaced(rest, other, to);
            if other.is_prefix_of(s) {
                lemma_begins(other, s);
                assert(s[k] == m[k]);
            }
            assert(seq![s[0]] + rest == s);
        }
    }
}

/// What stands once in a text is replaced there.
pub proof fn lemma_once_replaced(a: Seq<char>, from: Seq<char>, b: Seq<char>, to: Seq<char>)
    requires
        from.len() > 0,
        !a.contains(from[0]),
        !b.contains(from[0]),
    ensures
        replaced(a + from + b, from, to) == a + to + b,
    decreases a.len(),
{
    let s = a + from + b;
    if a.len() > 0 {
        let t = a.drop_first();
        assert(s.drop_first() == t + from + b);
        assert forall|i: int| 0 <= i < t.len() implies t[i] != from[0] by {
            assert(t[i] == a[i + 1]);
        }
        lemma_once_replaced(t, from, b, to);
        if from.is_prefix_of(s) {
            lemma_begins(from, s);
            assert(s[0] == a[0]);
            assert(a.contains(a[0]));
        }
        assert(seq![s[0]] + (t + to + b) == a + to + b);
    } else {
        assert(s.subrange(0, from.len() as int) == from);
        assert(s.skip(from.len() as int) == b);
        lemma_nothing_replaced(b, from, to);
    }
}

/// An entity in a text without other entities is replaced by the character that it stands for, and
/// the rest of the text stays.
pub proof fn law_entity_stands_for_its_character(a: Seq<char>, b: Seq<char>)
    requires
        !a.contains('&'),
        !b.contains('&'),
    ensures
        entities_decoded(a + "&nbsp;"@ + b) == a + seq![' '] + b,
        entities_decoded(a + "&#160;"@ + b) == a + seq![' '] + b,
        !b.contains(';') ==> entities_decoded(a + "&amp;"@ + b) == a + seq!['&'] + b,
        entities_decoded(a + "&lt;"@ + b) == a + seq!['<'] + b,
        entities_decoded(a + "&gt;"@ + b) == a + seq!['>'] + b,
        entities_decoded(a + "&quot;"@ + b) == a + seq!['"'] + b,
        entities_decoded(a + "&#34;"@ + b) == a + seq!['"'] + b,
        entities_decoded(a + "&#39;"@ + b) == a + seq!['\''] + b,
        entities_decoded(a + "&apos;"@ + b) == a + seq!['\''] + b,
{
    lemma_nbsp_decoded(a, b);
    lemma_hard_space_decoded(a, b);
    lemma_amp_decoded(a, b);
    lemma_lt_decoded(a, b);
    lemma_gt_decoded(a, b);
    lemma_quot_decoded(a, b);
    lemma_quot_number_decoded(a, b);
    lemma_apos_number_decoded(a, b);
    lemma_apos_decoded(a, b);
}

/// The entity `&nbsp;` is decoded.
proof fn lemma_nbsp_decoded(a: Seq<char>, b: Seq<char>)
    requires
        !a.contains('&'),
        !b.contains('&'),
    ensures
        entities_decoded(a + "&nbsp;"@ + b) == a + seq![' '] + b,
{
    reveal_strlit("&nbsp;");
    reveal_strlit("&#160;");
    reveal_strlit("&amp;");
    reveal_strlit("&lt;");
    reveal_strlit("&gt;");
    reveal_strlit("&quot;");
    reveal_strlit("&#34;");
    reveal_strlit("&#39;");
    reveal_strlit("&apos;");
    reveal_strlit(" ");
    reveal_strlit("\"");
    reveal_strlit("&");
    reveal_strlit("'");
    reveal_strlit("<");
    reveal_strlit(">");
    let m = "&nbsp;"@;
    lemma_once_replaced(a, m, b, " "@);
    let r = a + " "@ + b;
    assert(" "@ == seq![' ']);
    assert(!r.contains('&')) by {
        assert forall|i: int| 0 <= i < r.len() implies r[i] != '&' by {
            if i < a.len() {
                assert(r[i] == a[i]);
            } else if i > a.len() {
                assert(r[i] == b[i - a.len() - 1]);
            }
        }
    }
    lemma_nothing_replaced(r, "&#160;"@, " "@);
    lemma_nothing_replaced(r, "&amp;"@, "&"@);
    lemma_nothing_replaced(r, "&lt;"@, "<"@);
    lemma_nothing_replaced(r, "&gt;"@, ">"@);
    lemma_nothing_replaced(r, "&quot;"@, "\""@);
    lemma_nothing_replaced(r, "&#34;"@, "\""@);
    lemma_nothing_replaced(r, "&#39;"@, "'"@);
    lemma_nothing_replaced(r, "&apos;"@, "'"@);
}

/// The entity `&#160;` is decoded.
proof fn lemma_hard_space_decoded(a: Seq<char>, b: Seq<char>)
    requires
        !a.contains('&'),
        !b.contains('&'),
    ensures
        entities_decoded(a + "&#160;"@ + b) == a + seq![' '] + b,
{
    reveal_strlit("&nbsp;");
    reveal_strlit("&#160;");
    reveal_strlit("&amp;");
    reveal_strlit("&lt;");
    reveal_strlit("&gt;");
    reveal_strlit("&quot;");
    reveal_strlit("&#34;");
    reveal_strlit("&#39;");
    reveal_strlit("&apos;");
    reveal_strlit(" ");
    reveal_strlit("\"");
    reveal_strlit("&");
    reveal_strlit("'");
    reveal_strlit("<");
    reveal_strlit(">");
    let m = "&#160;"@;
    lemma_other_stays(a, m, b, "&nbsp;"@, 1);
    lemma_once_replaced(a, m, b, " "@);
    let r = a + " "@ + b;
    assert(" "@ == seq![' ']);
    assert(!r.contains('&')) by {
        assert forall|i: int| 0 <= i < r.len() implies r[i] != '&' by {
            if i < a.len() {
                assert(r[i] == a[i]);
            } else if i > a.len() {
                assert(r[i] == b[i - a.len() - 1]);
            }
        }
    }
    lemma_nothing_replaced(r, "&amp;"@, "&"@);
    lemma_nothing_replaced(r, "&lt;"@, "<"@);
    lemma_nothing_replaced(r, "&gt;"@, ">"@);
    lemma_nothing_replaced(r, "&quot;"@, "\""@);
    lemma_nothing_replaced(r, "&#34;"@, "\""@);
    lemma_nothing_replaced(r, "&#39;"@, "'"@);
    lemma_nothing_replaced(r, "&apos;"@, "'"@);
}

/// The entity `&amp;` is decoded.
proof fn lemma_amp_decoded(a: Seq<char>, b: Seq<char>)
    requires
        !a.contains('&'),
        !b.contains('&'),
    ensures
        !b.contains(';') ==> entities_decoded(a + "&amp;"@ + b) == a + seq!['&'] + b,
{
    reveal_strlit("&nbsp;");
    reveal_strlit("&#160;");
    reveal_strlit("&amp;");
    reveal_strlit("&lt;");
    reveal_strlit("&gt;");
    reveal_strlit("&quot;");
    reveal_strlit("&#34;");
    reveal_strlit("&#39;");
    reveal_strlit("&apos;");
    reveal_strlit(" ");
    reveal_strlit("\"");
    reveal_strlit("&");
    reveal_strlit("'");
    reveal_strlit("<");
    reveal_strlit(">");
    let m = "&amp;"@;
    lemma_other_stays(a, m, b, "&nbsp;"@, 1);
    lemma_other_stays(a, m, b, "&#160;"@, 1);
    lemma_once_replaced(a, m, b, "&"@);
    assert("&"@ == seq!['&']);
    if !b.contains(';') {
        lemma_without_last_char_stays(a + "&"@, b, "&lt;"@, "<"@);
        lemma_without_last_char_stays(a + "&"@, b, "&gt;"@, ">"@);
        lemma_without_last_char_stays(a + "&"@, b, "&quot;"@, "\""@);
        lemma_without_last_char_stays(a + "&"@, b, "&#34;"@, "\""@);
        lemma_without_last_char_stays(a + "&"@, b, "&#39;"@, "'"@);
        lemma_without_last_char_stays(a + "&"@, b, "&apos;"@, "'"@);
    }
}

/// The entity `&lt;` is decoded.
proof fn lemma_lt_decoded(a: Seq<char>, b: Seq<char>)
    requires
        !a.contains('&'),
        !b.contains('&'),
    ensures
        entities_decoded(a + "&lt;"@ + b) == a + seq!['<'] + b,
{
    reveal_strlit("&nbsp;");
    reveal_strlit("&#160;");
    reveal_strlit("&amp;");
    reveal_strlit("&lt;");
    reveal_strlit("&gt;");
    reveal_strlit("&quot;");
    reveal_strlit("&#34;");
    reveal_strlit("&#39;");
    reveal_strlit("&apos;");
    reveal_strlit(" ");
    reveal_strlit("\"");
    reveal_strlit("&");
    reveal_strlit("'");
    reveal_strlit("<");
    reveal_strlit(">");
    let m = "&lt;"@;
    lemma_other_stays(a, m, b, "&nbsp;"@, 1);
    lemma_other_stays(a, m, b, "&#160;"@, 1);
    lemma_other_stays(a, m, b, "&amp;"@, 1);
    lemma_once_replaced(a, m, b, "<"@);
    let r = a + "<"@ + b;
    assert("<"@ == seq!['<']);
    assert(!r.contains('&')) by {
        assert forall|i: int| 0 <= i < r.len() implies r[i] != '&' by {
            if i < a.len() {
                assert(r[i] == a[i]);
            } else if i > a.len() {
                assert(r[i] == b[i - a.len() - 1]);
            }
        }
    }
    lemma_nothing_replaced(r, "&gt;"@, ">"@);
    lemma_nothing_replaced(r, "&quot;"@, "\""@);
    lemma_nothing_replaced(r, "&#34;"@, "\""@);
    lemma_nothing_replaced(r, "&#39;"@, "'"@);
    lemma_nothing_replaced(r, "&apos;"@, "'"@);
}

/// The entity `&gt;` is decoded.
proof fn lemma_gt_decoded(a: Seq<char>, b: Seq<char>)
    requires
        !a.contains('&'),
        !b.contains('&'),
    ensures
        entities_decoded(a + "&gt;"@ + b) == a + seq!['>'] + b,
{
    reveal_strlit("&nbsp;");
    reveal_strlit("&#160;");
    reveal_strlit("&amp;");
    reveal_strlit("&lt;");
    reveal_strlit("&gt;");
    reveal_strlit("&quot;");
    reveal_strlit("&#34;");
    reveal_strlit("&#39;");
    reveal_strlit("&apos;");
    reveal_strlit(" ");
    reveal_strlit("\"");
    reveal_strlit("&");
    reveal_strlit("'");
    reveal_strlit("<");
    reveal_strlit(">");
    let m = "&gt;"@;
    lemma_other_stays(a, m, b, "&nbsp;"@, 1);
    lemma_other_stays(a, m, b, "&#160;"@, 1);
    lemma_other_stays(a, m, b, "&amp;"@, 1);
    lemma_other_stays(a, m, b, "&lt;"@, 1);
    lemma_once_replaced(a, m, b, ">"@);
    let r = a + ">"@ + b;
    assert(">"@ == seq!['>']);
    assert(!r.contains('&')) by {
        assert forall|i: int| 0 <= i < r.len() implies r[i] != '&' by {
            if i < a.len() {
                assert(r[i] == a[i]);
            } else if i > a.len() {
                assert(r[i] == b[i - a.len() - 1]);
            }
        }
    }
    lemma_nothing_replaced(r, "&quot;"@, "\""@);
    lemma_nothing_replaced(r, "&#34;"@, "\""@);
    lemma_nothing_replaced(r, "&#39;"@, "'"@);
    lemma_nothing_replaced(r, "&apos;"@, "'"@);
}

/// The entity `&quot;` is decoded.
proof fn lemma_quot_decoded(a: Seq<char>, b: Seq<char>)
    requires
        !a.contains('&'),
        !b.contains('&'),
    ensures
        entities_decoded(a + "&quot;"@ + b) == a + seq!['"'] + b,
{
    reveal_strlit("&nbsp;");
    reveal_strlit("&#160;");
    reveal_strlit("&amp;");
    reveal_strlit("&lt;");
    reveal_strlit("&gt;");
    reveal_strlit("&quot;");
    reveal_strlit("&#34;");
    reveal_strlit("&#39;");
    reveal_strlit("&apos;");
    reveal_strlit(" ");
    reveal_strlit("\"");
    reveal_strlit("&");
    reveal_strlit("'");
    reveal_strlit("<");
    reveal_strlit(">");
    let m = "&quot;"@;
    lemma_other_stays(a, m, b, "&nbsp;"@, 1);
    lemma_other_stays(a, m, b, "&#160;"@, 1);
    lemma_other_stays(a, m, b, "&amp;"@, 1);
    lemma_other_stays(a, m, b, "&lt;"@, 1);
    lemma_other_stays(a, m, b, "&gt;"@, 1);
    lemma_once_replaced(a, m, b, "\""@);
    let r = a + "\""@ + b;
    assert("\""@ == seq!['"']);
    assert(!r.contains('&')) by {
        assert forall|i: int| 0 <= i < r.len() implies r[i] != '&' by {
            if i < a.len() {
                assert(r[i] == a[i]);
            } else if i > a.len() {
                assert(r[i] == b[i - a.len() - 1]);
            }
        }
    }
    lemma_nothing_replaced(r, "&#34;"@, "\""@);
    lemma_nothing_replaced(r, "&#39;"@, "'"@);
    lemma_nothing_replaced(r, "&apos;"@, "'"@);
}

/// The entity `&#34;` is decoded.
proof fn lemma_quot_number_decoded(a: Seq<char>, b: Seq<char>)
    requires
        !a.contains('&'),
        !b.contains('&'),
    ensures
        entities_decoded(a + "&#34;"@ + b) == a + seq!['"'] + b,
{
    reveal_strlit("&nbsp;");
    reveal_strlit("&#160;");
    reveal_strlit("&amp;");
    reveal_strlit("&lt;");
    reveal_strlit("&gt;");
    reveal_strlit("&quot;");
    reveal_strlit("&#34;");
    reveal_strlit("&#39;");
    reveal_strlit("&apos;");
    reveal_strlit(" ");
    reveal_strlit("\"");
    reveal_strlit("&");
    reveal_strlit("'");
    reveal_strlit("<");
    reveal_strlit(">");
    let m = "&#34;"@;
    lemma_other_stays(a, m, b, "&nbsp;"@, 1);
    lemma_other_stays(a, m, b, "&#160;"@, 2);
    lemma_other_stays(a, m, b, "&amp;"@, 1);
    lemma_other_stays(a, m, b, "&lt;"@, 1);
    lemma_other_stays(a, m, b, "&gt;"@, 1);
    lemma_other_stays(a, m, b, "&quot;"@, 1);
    lemma_once_replaced(a, m, b, "\""@);
    let r = a + "\""@ + b;
    assert("\""@ == seq!['"']);
    assert(!r.contains('&')) by {
        assert forall|i: int| 0 <= i < r.len() implies r[i] != '&' by {
            if i < a.len() {
                assert(r[i] == a[i]);
            } else if i > a.len() {
                assert(r[i] == b[i - a.len() - 1]);
            }
        }
    }
    lemma_nothing_replaced(r, "&#39;"@, "'"@);
    lemma_nothing_replaced(r, "&apos;"@, "'"@);
}

/// The entity `&#39;` is decoded.
proof fn lemma_apos_number_decoded(a: Seq<char>, b: Seq<char>)
    requires
        !a.contains('&'),
        !b.contains('&'),
    ensures
        entities_decoded(a + "&#39;"@ + b) == a + seq!['\''] + b,
{
    reveal_strlit("&nbsp;");
    reveal_strlit("&#160;");
    reveal_strlit("&amp;");
    reveal_strlit("&lt;");
    reveal_strlit("&gt;");
    reveal_strlit("&quot;");
    reveal_strlit("&#34;");
    reveal_strlit("&#39;");
    reveal_strlit("&apos;");
    reveal_strlit(" ");
    reveal_strlit("\"");
    reveal_strlit("&");
    reveal_strlit("'");
    reveal_strlit("<");
    reveal_strlit(">");
    let m = "&#39;"@;
    lemma_other_stays(a, m, b, "&nbsp;"@, 1);
    lemma_other_stays(a, m, b, "&#160;"@, 2);
    lemma_other_stays(a, m, b, "&amp;"@, 1);
    lemma_other_stays(a, m, b, "&lt;"@, 1);
    lemma_other_stays(a, m, b, "&gt;"@, 1);
    lemma_other_stays(a, m, b, "&quot;"@, 1);
    lemma_other_stays(a, m, b, "&#34;"@, 3);
    lemma_once_replaced(a, m, b, "'"@);
    let r = a + "'"@ + b;
    assert("'"@ == seq!['\'']);
    assert(!r.contains('&')) by {
        assert forall|i: int| 0 <= i < r.len() implies r[i] != '&' by {
            if i < a.len() {
                assert(r[i] == a[i]);
            } else if i > a.len() {
                assert(r[i] == b[i - a.len() - 1]);
            }
        }
    }
    lemma_nothing_replaced(r, "&apos;"@, "'"@);
}

/// The entity `&apos;` is decoded.
proof fn lemma_apos_decoded(a: Seq<char>, b: Seq<char>)
    requires
        !a.contains('&'),
        !b.contains('&'),
    ensures
        entities_decoded(a + "&apos;"@ + b) == a + seq!['\''] + b,
{
    reveal_strlit("&nbsp;");
    reveal_strlit("&#160;");
    reveal_strlit("&amp;");
    reveal_strlit("&lt;");
    reveal_strlit("&gt;");
    reveal_strlit("&quot;");
    reveal_strlit("&#34;");
    reveal_strlit("&#39;");
    reveal_strlit("&apos;");
    reveal_strlit(" ");
    reveal_strlit("\"");
    reveal_strlit("&");
    reveal_strlit("'");
    reveal_strlit("<");
    reveal_strlit(">");
    let m = "&apos;"@;
    lemma_other_stays(a, m, b, "&nbsp;"@, 1);
    lemma_other_stays(a, m, b, "&#160;"@, 1);
    lemma_other_stays(a, m, b, "&amp;"@, 2);
    lemma_other_stays(a, m, b, "&lt;"@, 1);
    lemma_other_stays(a, m, b, "&gt;"@, 1);
    lemma_other_stays(a, m, b, "&quot;"@, 1);
    lemma_other_stays(a, m, b, "&#34;"@, 1);
    lemma_other_stays(a, m, b, "&#39;"@, 1);
    lemma_once_replaced(a, m, b, "'"@);
    let r = a + "'"@ + b;
    assert("'"@ == seq!['\'']);
    assert(!r.contains('&')) by {
        assert forall|i: int| 0 <= i < r.len() implies r[i] != '&' by {
            if i < a.len() {
                assert(r[i] == a[i]);
            } else if i > a.len() {
                assert(r[i] == b[i - a.len() - 1]);
            }
        }
    }
}

/// What ends in a semicolon and begins with an ampersand does not stand in a text that has no
/// ampersand but at the end of its first part, and no semicolon behind that.
proof fn lemma_without_last_char_stays(
    a: Seq<char>,
    b: Seq<char>,
    from: Seq<char>,
    to: Seq<char>,
)
    requires
        from.len() > 1,
        from[0] == '&',
        from.last() == ';',
        !b.contains('&'),
        !b.contains(';'),
        forall|i: int| 0 <= i < a.len() - 1 ==> #[trigger] a[i] != '&',
        a.len() > 0 ==> a.last() != ';',
    ensures
        replaced(a + b, from, to) == a + b,
    decreases a.len(),
{
    let s = a + b;
    if a.len() > 0 {
        let t = a.drop_first();
        assert(s.drop_first() == t + b);
        assert forall|i: int| 0 <= i < t.len() - 1 implies #[trigger] t[i] != '&' by {
            assert(t[i] == a[i + 1]);
        }
        if t.len() > 0 {
            assert(t.last() == a.last());
        }
        lemma_without_last_char_stays(t, b, from, to);
        if from.is_prefix_of(s) {
            lemma_begins(from, s);
            assert(s[0] == a[0]);
            let k = from.len() - 1;
            assert(s[k] == from[k]);
            assert(a.len() == 1);
            assert(s[k] == b[k - 1]);
            assert(b.contains(b[k - 1]));
        }
        assert(seq![s[0]] + (t + b) == s);
    } else {
        assert(s == b);
        lemma_nothing_replaced(b, from, to);
    }
}

/// On one line, a text is its words with one space between them.
pub proof fn law_one_line_is_the_words(s: Seq<char>)
    ensures
        one_line(s) == joined(words(s), " "@),
{
    law_one_line_is_tight(s);
    law_one_line_keeps_the_words(s);
    law_tight_line_is_its_words(one_line(s));
}

// ---------------------------------------------------------------------------
// Lines

/// The lines of a text up to a line feed, and those behind it.
proof fn lemma_lines_apart(a: Seq<char>, b: Seq<char>)
    ensures
        line_list(a + seq!['\n'] + b) == line_list(a + seq!['\n']) + line_list(b),
    decreases a.len(),
{
    let feed = seq!['\n'];
    let s = a + feed + b;
    let h = a + feed;
    lemma_span(a, '\n');
    let k = span(a, '\n') as int;
    if k >= a.len() {
        assert(s[a.len() as int] == '\n');
        assert forall|i: int| 0 <= i < a.len() implies #[trigger] s[i] != '\n' by {
            assert(s[i] == a[i]);
        }
        assert forall|i: int| 0 <= i < a.len() implies #[trigger] h[i] != '\n' by {
            assert(h[i] == a[i]);
        }
        lemma_span_is(s, '\n', a.len() as int);
        lemma_span_is(h, '\n', a.len() as int);
        assert(s.take(a.len() as int) == a);
        assert(h.take(a.len() as int) == a);
        assert(s.skip(a.len() as int + 1) == b);
        assert(h.skip(a.len() as int + 1) == Seq::<char>::empty());
        assert(line_list(Seq::<char>::empty()) == Seq::<Seq<char>>::empty());
        assert(line_list(h) == seq![without_return(a)]);
    } else {
        let rest = a.skip(k + 1);
        assert forall|i: int| 0 <= i < k implies #[trigger] s[i] != '\n' by {
            assert(s[i] == a[i]);
        }
        assert forall|i: int| 0 <= i < k implies #[trigger] h[i] != '\n' by {
            assert(h[i] == a[i]);
        }
        assert(s[k] == '\n' && h[k] == '\n');
        lemma_span_is(s, '\n', k);
        lemma_span_is(h, '\n', k);
        assert(s.take(k) == a.take(k));
        assert(h.take(k) == a.take(k));
        assert(s.skip(k + 1) == rest + feed + b);
        assert(h.skip(k + 1) == rest + feed);
        lemma_lines_apart(rest, b);
        let one = seq![without_return(a.take(k))];
        assert(one + (line_list(rest + feed) + line_list(b)) == one + line_list(rest + feed)
            + line_list(b));
    }
}

/// Of two empty lines that follow each other one is kept, whatever follows.
proof fn lemma_merged_pair(a: Seq<Seq<char>>, b: Seq<Seq<char>>, e: Seq<char>)
    requires
        e.len() == 0,
    ensures
        blanks_merged(a + seq![e, e] + b) == blanks_merged(a + seq![e] + b),
    decreases b.len(),
{
    let two = a + seq![e, e] + b;
    let one = a + seq![e] + b;
    if b.len() > 0 {
        let t = b.drop_last();
        assert(two.drop_last() == a + seq![e, e] + t);
        assert(one.drop_last() == a + seq![e] + t);
        assert(two.last() == b.last() && one.last() == b.last());
        lemma_merged_pair(a, t, e);
    } else {
        assert(two == a + seq![e, e]);
        assert(one == a + seq![e]);
        assert(two.drop_last() == one);
        assert(two.last() == e);
        assert(one.drop_last() == a);
        let m = blanks_merged(one);
        assert(m.len() > 0 && m.last().len() == 0);
    }
}

/// Three line feeds in a row are as good as two: of several empty lines one is kept.
pub proof fn law_empty_lines_are_merged(a: Seq<char>, b: Seq<char>)
    requires
        !a.contains('\r'),
        !b.contains('\r'),
    ensures
        tidy_layout(a + seq!['\n', '\n', '\n'] + b) == tidy_layout(a + seq!['\n', '\n'] + b),
{
    let feed = seq!['\n'];
    let e = Seq::<char>::empty();
    let three = a + seq!['\n', '\n', '\n'] + b;
    let two = a + seq!['\n', '\n'] + b;
    lemma_no_return(a, seq!['\n', '\n', '\n'], b);
    lemma_no_return(a, seq!['\n', '\n'], b);
    law_unified_stays(three);
    law_unified_stays(two);
    lemma_lines_apart(a, feed + feed + b);
    lemma_lines_apart(a, feed + b);
    lemma_lines_apart(e, feed + b);
    lemma_lines_apart(e, b);
    assert(three == a + feed + (feed + feed + b));
    assert(two == a + feed + (feed + b));
    assert(e + feed + (feed + b) == feed + feed + b);
    assert(e + feed + b == feed + b);
    let head = line_list(a + feed);
    let one = line_list(e + feed);
    let rest = line_list(b);
    lemma_span_is(e + feed, '\n', 0);
    assert((e + feed).take(0) == e);
    assert((e + feed).skip(1) == e);
    assert(line_list(e) == Seq::<Seq<char>>::empty());
    assert(one == seq![e]);
    let ls3 = line_list(three);
    let ls2 = line_list(two);
    assert(ls3 == head + seq![e, e] + rest);
    assert(ls2 == head + seq![e] + rest);
    let ch = lines_collapsed(head);
    let cr = lines_collapsed(rest);
    assert(line_collapsed(e) == e) by {
        assert(is_tight(e));
        lemma_tight_line_stays(e);
    }
    assert(lines_collapsed(ls3) == ch + seq![e, e] + cr);
    assert(lines_collapsed(ls2) == ch + seq![e] + cr);
    lemma_merged_pair(ch, cr, e);
}

/// Texts without a carriage return have none together.
proof fn lemma_no_return(a: Seq<char>, m: Seq<char>, b: Seq<char>)
    requires
        !a.contains('\r'),
        !m.contains('\r'),
        !b.contains('\r'),
    ensures
        !(a + m + b).contains('\r'),
{
    let s = a + m + b;
    assert forall|i: int| 0 <= i < s.len() implies s[i] != '\r' by {
        if i < a.len() {
            assert(s[i] == a[i]);
            assert(a.contains(a[i]));
        } else if i < a.len() + m.len() {
            assert(s[i] == m[i - a.len()]);
            assert(m.contains(m[i - a.len()]));
        } else {
            assert(s[i] == b[i - a.len() - m.len()]);
            assert(b.contains(b[i - a.len() - m.len()]));
        }
    }
}

/// Collapsed, a line is its words with one space between them.
proof fn lemma_line_is_its_words(l: Seq<char>)
    requires
        is_single_line(l),
    ensures
        line_collapsed(l) == joined(words(l), " "@),
{
    let t = trimmed(l);
    lemma_line_is_tight(l);
    lemma_single_line_trimmed(l);
    lemma_gaps_are_spaces(t, false);
    lemma_words_of_trimmed(l);
    lemma_words_of_collapsed(seq![], t, false);
    lemma_words_of_trimmed(gaps_collapsed(t, false));
    law_tight_line_is_its_words(line_collapsed(l));
}

/// The layout of a text goes by the words on its lines: texts with as many lines and the same words
/// on each of them have the same tidy layout.
pub proof fn law_layout_goes_by_the_words_on_each_line(a: Seq<char>, b: Seq<char>)
    requires
        !a.contains('\r'),
        !b.contains('\r'),
        line_list(a).len() == line_list(b).len(),
        forall|i: int|
            0 <= i < line_list(a).len() ==> words(#[trigger] line_list(a)[i]) == words(
                line_list(b)[i],
            ),
    ensures
        tidy_layout(a) == tidy_layout(b),
{
    law_unified_stays(a);
    law_unified_stays(b);
    lemma_lines_single(a);
    lemma_lines_single(b);
    let x = lines_collapsed(line_list(a));
    let y = lines_collapsed(line_list(b));
    assert forall|i: int| 0 <= i < x.len() implies #[trigger] x[i] == y[i] by {
        assert(is_single_line(line_list(a)[i]));
        assert(is_single_line(line_list(b)[i]));
        lemma_line_is_its_words(line_list(a)[i]);
        lemma_line_is_its_words(line_list(b)[i]);
        assert(words(line_list(a)[i]) == words(line_list(b)[i]));
    }
    assert(x == y);
}

/// White space and empty lines around a text make no difference to its layout.
pub proof fn law_layout_whatever_lines_around(a: Seq<char>)
    requires
        !a.contains('\r'),
        a.len() > 0 ==> a.last() != '\n',
    ensures
        tidy_layout(seq!['\n'] + a) == tidy_layout(a),
        tidy_layout(a + seq!['\n']) == tidy_layout(a),
{
    let feed = seq!['\n'];
    let e = Seq::<char>::empty();
    lemma_no_return(e, feed, a);
    lemma_no_return(a, feed, e);
    assert(e + feed + a == feed + a);
    assert(a + feed + e == a + feed);
    law_unified_stays(feed + a);
    law_unified_stays(a + feed);
    law_unified_stays(a);
    lemma_lines_apart(e, a);
    lemma_span_is(e + feed, '\n', 0);
    assert((e + feed).take(0) == e);
    assert((e + feed).skip(1) == e);
    assert(line_list(e) == Seq::<Seq<char>>::empty());
    let ls = line_list(a);
    assert(line_list(feed + a) == seq![e] + ls);
    let c = lines_collapsed(ls);
    assert(line_collapsed(e) == e) by {
        assert(is_tight(e));
        lemma_tight_line_stays(e);
    }
    assert(lines_collapsed(seq![e] + ls) == seq![e] + c);
    lemma_leading_blank(c, e);
    lemma_lines_of_ended(a);
}

/// An empty line before others is cut off with those that follow it.
proof fn lemma_leading_blank(c: Seq<Seq<char>>, e: Seq<char>)
    requires
        e.len() == 0,
    ensures
        without_blank_start(blanks_merged(seq![e] + c)) == without_blank_start(blanks_merged(c)),
        blanks_merged(seq![e] + c) == (if blanks_merged(c).len() > 0 && blanks_merged(
            c,
        )[0].len() == 0 {
            seq![e] + blanks_merged(c).drop_first()
        } else {
            seq![e] + blanks_merged(c)
        }),
    decreases c.len(),
{
    let all = seq![e] + c;
    if c.len() > 0 {
        let t = c.drop_last();
        assert(all.drop_last() == seq![e] + t);
        assert(all.last() == c.last());
        lemma_leading_blank(t, e);
        let m = blanks_merged(t);
        let n = blanks_merged(seq![e] + t);
        let x = c.last();
        if m.len() > 0 && m[0].len() == 0 {
            let d = m.drop_first();
            assert(n == seq![e] + d);
            if d.len() > 0 {
                assert(n.last() == d.last() && m.last() == d.last());
            } else {
                assert(n.last() == e && m.last() == m[0]);
            }
            assert(n.push(x) == seq![e] + d.push(x));
            assert(m.push(x).drop_first() == d.push(x));
            assert(m.push(x)[0] == m[0]);
        } else if m.len() > 0 {
            assert(n == seq![e] + m);
            assert(n.last() == m.last());
            assert(n.push(x) == seq![e] + m.push(x));
            assert(m.push(x)[0] == m[0]);
        } else {
            assert(m == Seq::<Seq<char>>::empty());
            assert(n == seq![e]);
            assert(m.push(x) == seq![x]);
            assert(n.push(x) == seq![e, x]);
            if x.len() == 0 {
                assert(blanks_merged(all) == n);
                assert(seq![e] + seq![x].drop_first() == seq![e]);
            } else {
                assert(seq![e] + seq![x] == seq![e, x]);
            }
        }
    } else {
        assert(all == seq![e]);
        assert(all.drop_last() == c);
        assert(c == Seq::<Seq<char>>::empty());
        assert(blanks_merged(c) == Seq::<Seq<char>>::empty());
        assert(blanks_merged(all) == seq![e]);
        assert(seq![e] + blanks_merged(c) == seq![e]);
    }
    let m = blanks_merged(c);
    let n = blanks_merged(all);
    assert(n[0].len() == 0);
    if m.len() > 0 && m[0].len() == 0 {
        assert(n.drop_first() == m.drop_first());
    } else {
        assert(n.drop_first() == m);
    }
}

/// A line feed at the end of a text ends its last line.
proof fn lemma_lines_of_ended(a: Seq<char>)
    requires
        a.len() > 0 ==> a.last() != '\n',
        !a.contains('\r'),
    ensures
        tidy_layout(a + seq!['\n']) == tidy_layout(a),
{
    let feed = seq!['\n'];
    let e = Seq::<char>::empty();
    lemma_no_return(a, feed, e);
    assert(a + feed + e == a + feed);
    law_unified_stays(a + feed);
    law_unified_stays(a);
    if a.len() == 0 {
        assert(a == e);
        lemma_span_is(e + feed, '\n', 0);
        assert((e + feed).take(0) == e);
        assert((e + feed).skip(1) == e);
        assert(line_list(e) == Seq::<Seq<char>>::empty());
        let none = Seq::<Seq<char>>::empty();
        assert(line_list(a + feed) == seq![e]);
        assert(line_collapsed(e) == e) by {
            assert(is_tight(e));
            lemma_tight_line_stays(e);
        }
        assert(lines_collapsed(seq![e]) == seq![e]);
        lemma_leading_blank(none, e);
        assert(seq![e] + none == seq![e]);
        assert(lines_collapsed(none) == none);
    } else {
        lemma_same_lines(a);
    }
}

/// A line feed behind a last line adds no line.
proof fn lemma_same_lines(a: Seq<char>)
    requires
        a.len() > 0,
        a.last() != '\n',
        !a.contains('\r'),
    ensures
        line_list(a + seq!['\n']) == line_list(a),
    decreases a.len(),
{
    let feed = seq!['\n'];
    let h = a + feed;
    lemma_span(a, '\n');
    let k = span(a, '\n') as int;
    assert forall|i: int| 0 <= i < k implies #[trigger] h[i] != '\n' by {
        assert(h[i] == a[i]);
    }
    assert(h[k] == '\n');
    lemma_span_is(h, '\n', k);
    if k >= a.len() {
        assert(h.take(k) == a);
        assert(h.skip(k + 1) == Seq::<char>::empty());
        assert(a.last() != '\r') by {
            assert(a.contains(a.last()));
        }
        assert(line_list(Seq::<char>::empty()) == Seq::<Seq<char>>::empty());
        assert(line_list(h) == seq![a]);
        assert(line_list(a) == seq![a]);
    } else {
        let rest = a.skip(k + 1);
        assert(h.take(k) == a.take(k));
        assert(h.skip(k + 1) == rest + feed);
        assert(rest.len() > 0) by {
            if rest.len() == 0 {
                assert(a.last() == a[k]);
            }
        }
        assert(rest.last() == a.last());
        assert(!rest.contains('\r')) by {
            assert forall|i: int| 0 <= i < rest.len() implies rest[i] != '\r' by {
                assert(rest[i] == a[k + 1 + i]);
                assert(a.contains(a[k + 1 + i]));
            }
        }
        lemma_same_lines(rest);
    }
}

/// A carriage return with a line feed is one line ending, and so is a carriage return alone.
pub proof fn law_line_endings_are_one_feed_each(a: Seq<char>, b: Seq<char>)
    requires
        !a.contains('\r'),
        !b.contains('\r'),
    ensures
        newlines_unified(a + seq!['\r', '\n'] + b) == a + seq!['\n'] + b,
        b.len() == 0 || b[0] != '\n' ==> newlines_unified(a + seq!['\r'] + b) == a + seq!['\n'] + b,
{
    reveal_strlit("\r\n");
    reveal_strlit("\r");
    reveal_strlit("\n");
    assert("\r\n"@ =~= seq!['\r', '\n']);
    assert("\r"@ =~= seq!['\r']);
    assert("\n"@ =~= seq!['\n']);
    lemma_once_replaced(a, "\r\n"@, b, "\n"@);
    let t = a + seq!['\n'] + b;
    lemma_no_return(a, seq!['\n'], b);
    lemma_nothing_replaced(t, "\r"@, "\n"@);
    let s = a + seq!['\r'] + b;
    if b.len() == 0 || b[0] != '\n' {
        assert(!occurs(s, "\r\n"@)) by {
            if occurs(s, "\r\n"@) {
                let i = choose|i: int| occurs_at(s, "\r\n"@, i);
                let q = s.subrange(i, i + 2);
                assert(q[0] == s[i] && q[1] == s[i + 1]);
                if i < a.len() {
                    assert(a.contains(a[i]));
                } else if i > a.len() {
                    assert(b.contains(b[i - a.len() - 1]));
                }
            }
        }
        lemma_absent_stays(s, "\r\n"@, "\n"@);
        lemma_once_replaced(a, "\r"@, b, "\n"@);
    }
}

/// What stands nowhere in a text is replaced nowhere.
proof fn lemma_absent_stays(s: Seq<char>, from: Seq<char>, to: Seq<char>)
    requires
        from.len() > 0,
        !occurs(s, from),
    ensures
        replaced(s, from, to) == s,
    decreases s.len(),
{
    if s.len() >= from.len() {
        if from.is_prefix_of(s) {
            assert(s.subrange(0, from.len() as int) =~= from);
            assert(occurs_at(s, from, 0));
        } else {
            let t = s.drop_first();
            assert(!occurs(t, from)) by {
                if occurs(t, from) {
                    let i = choose|i: int| occurs_at(t, from, i);
                    assert(s.subrange(i + 1, i + 1 + from.len()) == t.subrange(i, i + from.len()));
                    assert(occurs_at(s, from, i + 1));
                }
            }
            lemma_absent_stays(t, from, to);
            assert(seq![s[0]] + t == s);
        }
    }
}

} // verus!
