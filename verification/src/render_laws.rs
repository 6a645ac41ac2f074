//! What markup shows at any place in it: how the text between two tags is set behind what is shown
//! already, and what each tag adds to it.

use vstd::prelude::*;

use crate::chars::{is_ascii_alnum, is_space};
use crate::layout::{
    is_spaced, is_tight, law_one_line_is_the_words, law_unified_stays, lemma_spaced_stays, one_line,
    words,
};
use crate::regexes::{gap_text, match_text, spaces_collapsed};
use crate::render::{
    hard_spaces_marked, is_closing_tag, law_tag_is_read, lemma_known_name, preserved, shown_upto,
    tag_inner, tag_name, tag_text, text_shown, unmarked, without_trailing_blanks,
};
use crate::text::{
    all_space, joined, lemma_trimmed_start_before, lowered, trimmed_end, trimmed_start,
    without_leading,
};

verus! {

// ---------------------------------------------------------------------------
// Text

/// One space where `w` holds anything, else nothing.
pub open spec fn one_space(w: Seq<char>) -> Seq<char> {
    if w.len() > 0 {
        seq![' ']
    } else {
        seq![]
    }
}

/// White space collapses to one space, whatever follows it.
proof fn lemma_space_collapsed(w: Seq<char>, b: Seq<char>, in_run: bool)
    requires
        all_space(w),
        w.len() > 0,
    ensures
        spaces_collapsed(w + b, in_run) == (if in_run {
            spaces_collapsed(b, true)
        } else {
            seq![' '] + spaces_collapsed(b, true)
        }),
    decreases w.len(),
{
    let s = w + b;
    let t = w.drop_first();
    assert(s[0] == w[0]);
    assert(is_space(w[0]));
    assert(s.drop_first() == t + b);
    if t.len() > 0 {
        assert forall|i: int| 0 <= i < t.len() implies is_space(#[trigger] t[i]) by {
            assert(t[i] == w[i + 1]);
        }
        lemma_space_collapsed(t, b, true);
    } else {
        assert(t + b == b);
    }
}

/// A text that ends in no white space collapses by itself.
proof fn lemma_collapsed_parts(a: Seq<char>, b: Seq<char>, in_run: bool)
    requires
        a.len() > 0,
        !is_space(a.last()),
    ensures
        spaces_collapsed(a + b, in_run) == spaces_collapsed(a, in_run) + spaces_collapsed(b, false),
    decreases a.len(),
{
    let s = a + b;
    let t = a.drop_first();
    assert(s[0] == a[0]);
    assert(s.drop_first() == t + b);
    if t.len() > 0 {
        assert(t.last() == a.last());
        lemma_collapsed_parts(t, b, is_space(a[0]));
    } else {
        assert(t == Seq::<char>::empty());
        assert(t + b == b);
    }
    let x = spaces_collapsed(t, is_space(a[0]));
    let y = spaces_collapsed(b, false);
    assert(seq![a[0]] + (x + y) == seq![a[0]] + x + y);
    assert(seq![' '] + (x + y) == seq![' '] + x + y);
}

/// A text that ends in no white space still ends so when it is collapsed.
proof fn lemma_collapsed_end(a: Seq<char>, in_run: bool)
    requires
        a.len() > 0,
        !is_space(a.last()),
    ensures
        spaces_collapsed(a, in_run).len() > 0,
        !is_space(spaces_collapsed(a, in_run).last()),
    decreases a.len(),
{
    let t = a.drop_first();
    if t.len() > 0 {
        assert(t.last() == a.last());
        lemma_collapsed_end(t, is_space(a[0]));
        let x = spaces_collapsed(t, is_space(a[0]));
        assert((seq![a[0]] + x).last() == x.last());
        assert((seq![' '] + x).last() == x.last());
    } else {
        assert(seq![a[0]] + spaces_collapsed(t, false) == seq![a[0]]);
    }
}

/// Text between two tags is shown word for word behind what is shown already: its words with one
/// space between them, one space before them where white space stands there and no line begins, and
/// one behind them where white space stands there.
pub proof fn law_text_is_shown_word_for_word(
    out: Seq<char>,
    left: Seq<char>,
    text: Seq<char>,
    right: Seq<char>,
)
    requires
        all_space(left),
        all_space(right),
        text.len() > 0,
        !is_space(text[0]),
        !is_space(text.last()),
        !(left + text + right).contains('\u{a0}'),
    ensures
        text_shown(out, left + text + right, false) == out + (if out.len() == 0 || out.last()
            == '\n' || out.last() == '\u{f0000}' {
            seq![]
        } else {
            one_space(left)
        }) + joined(words(text), " "@) + one_space(right),
{
    let s = left + text + right;
    let rest = text + right;
    assert(left + rest == s);
    assert(hard_spaces_marked(s) == s) by {
        assert forall|i: int| 0 <= i < s.len() implies hard_spaces_marked(s)[i] == s[i] by {
            assert(s.contains(s[i]));
        }
    }
    let c = spaces_collapsed(text, false);
    law_one_line_is_the_words(text);
    lemma_collapsed_end(text, false);
    assert(spaces_collapsed(text, true) == c);
    assert(c[0] == text[0]);
    assert(trimmed_start(c) == c);
    assert(trimmed_end(c) == c);
    assert(one_line(text) == c);
    let tail = spaces_collapsed(right, false);
    assert(tail == one_space(right)) by {
        if right.len() > 0 {
            lemma_space_collapsed(right, seq![], false);
            assert(right + Seq::<char>::empty() == right);
            assert(seq![' '] + spaces_collapsed(Seq::<char>::empty(), true) == seq![' ']);
        }
    }
    lemma_collapsed_parts(text, right, false);
    lemma_collapsed_parts(text, right, true);
    let body = c + tail;
    let all = spaces_collapsed(s, false);
    if left.len() > 0 {
        lemma_space_collapsed(left, rest, false);
        assert(all == seq![' '] + body);
        assert(all.drop_first() == body);
    } else {
        assert(s == rest);
        assert(all == body);
    }
    assert(body[0] == text[0]);
    reveal_with_fuel(without_leading, 2);
    assert(without_leading(body, ' ') == body);
    assert(without_leading(all, ' ') == body);
    assert(out + all == out + one_space(left) + c + tail);
    assert(out + body == out + Seq::<char>::empty() + c + tail);
}

/// White space between two tags shows as one space, and as none where a line begins.
pub proof fn law_white_space_between_tags_is_one_space(out: Seq<char>, w: Seq<char>)
    requires
        all_space(w),
        !w.contains('\u{a0}'),
    ensures
        text_shown(out, w, false) == out + (if out.len() == 0 || out.last() == '\n' || out.last()
            == '\u{f0000}' {
            seq![]
        } else {
            one_space(w)
        }),
{
    assert(hard_spaces_marked(w) == w) by {
        assert forall|i: int| 0 <= i < w.len() implies hard_spaces_marked(w)[i] == w[i] by {
            assert(w.contains(w[i]));
        }
    }
    let all = spaces_collapsed(w, false);
    if w.len() > 0 {
        lemma_space_collapsed(w, seq![], false);
        assert(w + Seq::<char>::empty() == w);
        assert(all == seq![' ']);
        reveal_with_fuel(without_leading, 2);
        assert(all.drop_first() == Seq::<char>::empty());
    }
}

/// A space that does not break stays a space of its own between the words around it.
pub proof fn law_hard_space_stays(out: Seq<char>, x: Seq<char>, y: Seq<char>)
    requires
        x.len() > 0 && is_tight(x),
        y.len() > 0 && is_tight(y),
    ensures
        unmarked(text_shown(out, x + seq!['\u{a0}'] + y, false)) == unmarked(out) + unmarked(x)
            + seq![' '] + unmarked(y),
        text_shown(out, x + seq!['\u{a0}'] + y, false)[(out.len() + x.len()) as int] == '\u{f0001}',
{
    let s = x + seq!['\u{a0}'] + y;
    let m = x + seq!['\u{f0001}'] + y;
    assert(hard_spaces_marked(s) == m) by {
        assert forall|i: int| 0 <= i < s.len() implies hard_spaces_marked(s)[i] == m[i] by {
            if i < x.len() {
                assert(s[i] == x[i] && m[i] == x[i]);
                if x[i] == '\u{a0}' {
                    assert(is_space(x[i]));
                }
            } else if i > x.len() {
                let j = i - x.len() - 1;
                assert(s[i] == y[j] && m[i] == y[j]);
                if y[j] == '\u{a0}' {
                    assert(is_space(y[j]));
                }
            }
        }
    }
    assert(!is_space('\u{f0001}'));
    assert(is_spaced(m, false)) by {
        assert forall|i: int| 0 <= i < m.len() && is_space(#[trigger] m[i]) implies m[i] == ' ' by {
            if i < x.len() {
                assert(m[i] == x[i]);
            } else if i > x.len() {
                assert(m[i] == y[i - x.len() - 1]);
            }
        }
        assert forall|i: int| 0 <= i < m.len() - 1 && is_space(#[trigger] m[i]) implies !is_space(
            m[i + 1],
        ) by {
            if i < x.len() - 1 {
                assert(m[i] == x[i] && m[i + 1] == x[i + 1]);
            } else if i == x.len() - 1 {
                assert(m[i] == x.last());
            } else if i > x.len() {
                let j = i - x.len() - 1;
                assert(m[i] == y[j] && m[i + 1] == y[j + 1]);
            }
        }
    }
    lemma_spaced_stays(m, false);
    assert(m[0] == x[0]);
    assert(without_leading(m, ' ') == m);
    assert(text_shown(out, s, false) == out + m);
    assert(unmarked(out + m) == unmarked(out) + unmarked(x) + seq![' '] + unmarked(y));
}

/// Preformatted text is shown as it stands, line breaks, tabs and runs of spaces among it, and
/// nothing of it is left that could collapse later.
pub proof fn law_preformatted_text_stays(out: Seq<char>, text: Seq<char>)
    requires
        !text.contains('\r'),
        !text.contains('\u{a0}'),
    ensures
        unmarked(text_shown(out, text, true)) == unmarked(out) + unmarked(text),
        text_shown(out, text, true).take(out.len() as int) == out,
        forall|i: int|
            out.len() <= i < text_shown(out, text, true).len() ==> {
                let c = #[trigger] text_shown(out, text, true)[i];
                c != ' ' && c != '\t' && c != '\n'
            },
{
    law_unified_stays(text);
    let p = preserved(text);
    assert(p.len() == text.len());
    assert(text_shown(out, text, true) == out + p);
    assert(unmarked(out + p) == unmarked(out) + unmarked(text)) by {
        assert forall|i: int| 0 <= i < text.len() implies unmarked(p)[i] == unmarked(text)[i] by {
            assert(text.contains(text[i]));
        }
        assert(unmarked(p) == unmarked(text));
        assert(unmarked(out + p) == unmarked(out) + unmarked(p));
    }
    assert((out + p).take(out.len() as int) == out);
    assert forall|i: int| out.len() <= i < (out + p).len() implies {
        let c = #[trigger] (out + p)[i];
        c != ' ' && c != '\t' && c != '\n'
    } by {
        assert((out + p)[i] == p[i - out.len()]);
    }
}

// ---------------------------------------------------------------------------
// Tags

/// What is shown up to the tag `n`, with the text before the tag.
pub open spec fn shown_to_tag(s: Seq<char>, rs: Seq<(usize, usize)>, n: int) -> Seq<char> {
    text_shown(shown_upto(s, rs, n).0, gap_text(s, rs, n), shown_upto(s, rs, n).1)
}

/// Every character of `w` is a space or a tab.
pub open spec fn are_blanks(w: Seq<char>) -> bool {
    forall|i: int| 0 <= i < w.len() ==> #[trigger] w[i] == ' ' || w[i] == '\t'
}

/// Blanks at the end are cut off, up to what is none.
proof fn lemma_blanks_cut(v: Seq<char>, w: Seq<char>, tabs: bool)
    requires
        forall|i: int| 0 <= i < w.len() ==> #[trigger] w[i] == ' ' || tabs && w[i] == '\t',
        v.len() > 0 ==> v.last() != ' ' && (tabs ==> v.last() != '\t'),
    ensures
        without_trailing_blanks(v + w, tabs) == v,
    decreases w.len(),
{
    let s = v + w;
    if w.len() > 0 {
        let t = w.drop_last();
        assert(s.last() == w[w.len() - 1]);
        assert(s.drop_last() == v + t);
        assert forall|i: int| 0 <= i < t.len() implies #[trigger] t[i] == ' ' || tabs && t[i]
            == '\t' by {
            assert(t[i] == w[i]);
        }
        lemma_blanks_cut(v, t, tabs);
    } else {
        assert(s == v);
    }
}

/// Wherever the tag of a block stands, list items among them, it ends the line: the blanks before it
/// go, and one line break is set unless a line begins there anyway.
pub proof fn law_block_tag_ends_the_line(
    s: Seq<char>,
    rs: Seq<(usize, usize)>,
    n: int,
    name: Seq<char>,
    closing: bool,
    rest: Seq<char>,
    line: Seq<char>,
    blanks: Seq<char>,
)
    requires
        0 <= n,
        match_text(s, rs, n) == tag_text(name, closing, rest),
        rest.len() > 0 ==> !is_ascii_alnum(rest[0]),
        ({
            let m = lowered(name);
            m == "p"@ || m == "div"@ || m == "li"@ || m == "table"@ || m == "h1"@ || m == "h2"@ || m
                == "h3"@ || m == "h4"@ || m == "h5"@ || m == "h6"@ || m == "section"@ || m
                == "article"@ || m == "ul"@ || m == "ol"@ || m == "blockquote"@ || m == "pre"@ || m
                == "tr"@ && closing
        }),
        shown_to_tag(s, rs, n) == line + blanks,
        are_blanks(blanks),
        line.len() > 0 ==> line.last() != ' ' && line.last() != '\t',
    ensures
        shown_upto(s, rs, n + 1).0 == (if line.len() == 0 || line.last() == '\n' || line.last()
            == '\u{f0000}' {
            line
        } else {
            line + seq!['\n']
        }),
        shown_upto(s, rs, n + 1).1 == (if lowered(name) == "pre"@ {
            !closing
        } else {
            shown_upto(s, rs, n).1
        }),
{
    let m = lowered(name);
    reveal_strlit("p");
    reveal_strlit("div");
    reveal_strlit("li");
    reveal_strlit("table");
    reveal_strlit("h1");
    reveal_strlit("h2");
    reveal_strlit("h3");
    reveal_strlit("h4");
    reveal_strlit("h5");
    reveal_strlit("h6");
    reveal_strlit("section");
    reveal_strlit("article");
    reveal_strlit("ul");
    reveal_strlit("ol");
    reveal_strlit("blockquote");
    reveal_strlit("pre");
    reveal_strlit("tr");
    reveal_strlit("br");
    reveal_strlit("td");
    reveal_strlit("th");
    lemma_known_name(name, m);
    assert(name.len() == m.len());
    law_tag_is_read(name, closing, rest);
    assert(m[0] != 'b' || m[1] != 'r');
    assert(m[0] != 't' || m[1] != 'd' && m[1] != 'h');
    lemma_blanks_cut(line, blanks, true);
    assert(line.push('\n') == line + seq!['\n']);
}

/// Wherever the closing tag of a cell stands, it sets a tab behind the words of the cell, and none
/// at the start of a line or behind another tab.
pub proof fn law_cell_tag_sets_a_tab(
    s: Seq<char>,
    rs: Seq<(usize, usize)>,
    n: int,
    name: Seq<char>,
    rest: Seq<char>,
    line: Seq<char>,
    blanks: Seq<char>,
)
    requires
        0 <= n,
        match_text(s, rs, n) == tag_text(name, true, rest),
        rest.len() > 0 ==> !is_ascii_alnum(rest[0]),
        lowered(name) == "td"@ || lowered(name) == "th"@,
        shown_to_tag(s, rs, n) == line + blanks,
        forall|i: int| 0 <= i < blanks.len() ==> #[trigger] blanks[i] == ' ',
        line.len() > 0 ==> line.last() != ' ',
    ensures
        shown_upto(s, rs, n + 1).0 == (if line.len() == 0 || line.last() == '\n' || line.last()
            == '\t' {
            line
        } else {
            line + seq!['\t']
        }),
        shown_upto(s, rs, n + 1).1 == shown_upto(s, rs, n).1,
{
    let m = lowered(name);
    reveal_strlit("td");
    reveal_strlit("th");
    reveal_strlit("br");
    reveal_strlit("pre");
    lemma_known_name(name, m);
    assert(name.len() == m.len());
    law_tag_is_read(name, true, rest);
    assert(m[0] != 'b' && m.len() == 2);
    lemma_blanks_cut(line, blanks, false);
    assert(line.push('\t') == line + seq!['\t']);
}

/// Wherever the tag of a line break stands, it sets a break that stays.
pub proof fn law_break_tag_sets_a_break(
    s: Seq<char>,
    rs: Seq<(usize, usize)>,
    n: int,
    name: Seq<char>,
    rest: Seq<char>,
)
    requires
        0 <= n,
        match_text(s, rs, n) == tag_text(name, false, rest),
        rest.len() > 0 ==> !is_ascii_alnum(rest[0]),
        lowered(name) == "br"@,
    ensures
        shown_upto(s, rs, n + 1).0 == shown_to_tag(s, rs, n) + seq!['\u{f0000}'],
        unmarked(shown_upto(s, rs, n + 1).0) == unmarked(shown_to_tag(s, rs, n)) + seq!['\n'],
        shown_upto(s, rs, n + 1).1 == shown_upto(s, rs, n).1,
{
    let m = lowered(name);
    reveal_strlit("br");
    reveal_strlit("pre");
    lemma_known_name(name, m);
    assert(name.len() == m.len());
    law_tag_is_read(name, false, rest);
    assert(m.len() == 2);
    let out = shown_to_tag(s, rs, n);
    assert(out.push('\u{f0000}') == out + seq!['\u{f0000}']);
    assert(unmarked(out + seq!['\u{f0000}']) == unmarked(out) + seq!['\n']);
}

/// Wherever a tag of another element stands, it adds nothing and takes nothing away.
pub proof fn law_other_tag_adds_nothing(
    s: Seq<char>,
    rs: Seq<(usize, usize)>,
    n: int,
    name: Seq<char>,
    closing: bool,
    rest: Seq<char>,
)
    requires
        0 <= n,
        match_text(s, rs, n) == tag_text(name, closing, rest),
        name.len() > 0,
        forall|i: int| 0 <= i < name.len() ==> is_ascii_alnum(#[trigger] name[i]),
        rest.len() > 0 ==> !is_ascii_alnum(rest[0]),
        ({
            let m = lowered(name);
            m != "p"@ && m != "div"@ && m != "li"@ && m != "table"@ && m != "h1"@ && m != "h2"@ && m
                != "h3"@ && m != "h4"@ && m != "h5"@ && m != "h6"@ && m != "section"@ && m
                != "article"@ && m != "ul"@ && m != "ol"@ && m != "blockquote"@ && m != "pre"@ && (m
                != "tr"@ || !closing) && (m != "td"@ && m != "th"@ || !closing) && (m != "br"@
                || closing)
        }),
    ensures
        shown_upto(s, rs, n + 1).0 == shown_to_tag(s, rs, n),
        shown_upto(s, rs, n + 1).1 == shown_upto(s, rs, n).1,
{
    law_tag_is_read(name, closing, rest);
}

/// White space behind the opening bracket of a tag makes no difference to what is read of the tag.
pub proof fn law_tag_is_read_behind_white_space(
    w: Seq<char>,
    name: Seq<char>,
    closing: bool,
    rest: Seq<char>,
)
    requires
        all_space(w),
        name.len() > 0,
        forall|i: int| 0 <= i < name.len() ==> is_ascii_alnum(#[trigger] name[i]),
        rest.len() > 0 ==> !is_ascii_alnum(rest[0]),
    ensures
        tag_name(seq!['<'] + w + tag_text(name, closing, rest).skip(1)) == lowered(name),
        is_closing_tag(seq!['<'] + w + tag_text(name, closing, rest).skip(1)) == closing,
{
    let plain = tag_text(name, closing, rest);
    let inner = plain.skip(1);
    let tag = seq!['<'] + w + inner;
    law_tag_is_read(name, closing, rest);
    assert(is_ascii_alnum(name[0]));
    assert(inner[0] == (if closing {
        '/'
    } else {
        name[0]
    }));
    reveal_with_fuel(without_leading, 3);
    assert(tag.drop_first() == w + inner);
    if w.len() > 0 {
        assert((w + inner)[0] == w[0]);
    } else {
        assert(w + inner == inner);
    }
    assert(without_leading(tag, '<') == w + inner);
    lemma_trimmed_start_before(w, inner);
    assert(plain.drop_first() == inner);
    assert(without_leading(plain, '<') == inner);
    assert(tag_inner(tag) == tag_inner(plain));
}

} // verus!
