//! Rules that clean copied text.

use vstd::prelude::*;

use crate::layout::{lemma_once_replaced, lemma_other_stays};
use crate::regexes::{compiles, pattern_replaced, regex_compiles, replace_matches};
use crate::text::{
    all_space, first_of, lemma_first_from, lemma_first_is, lemma_nothing_replaced,
    lemma_trimmed_around, lemma_trimmed_parts, line_list, lines, occurs, occurs_at, replace,
    replaced, split_once, starts_with, strings, trim, trimmed,
};

verus! {

/// A rule: what matches `pattern` is replaced by `replacement`, in which `$` refers to groups.
#[derive(Debug, PartialEq, Eq)]
pub struct CleanupRule {
    /// A regular expression.
    pub pattern: String,
    /// What takes the place of its matches.
    pub replacement: String,
}

impl View for CleanupRule {
    type V = (Seq<char>, Seq<char>);

    open spec fn view(&self) -> (Seq<char>, Seq<char>) {
        (self.pattern@, self.replacement@)
    }
}

/// What the rules say.
pub open spec fn rule_views(v: Seq<CleanupRule>) -> Seq<(Seq<char>, Seq<char>)> {
    v.map_values(|r: CleanupRule| r@)
}

/// `s` with the escapes for a line feed, a carriage return and a tab replaced by what they stand
/// for.
pub open spec fn unescaped(s: Seq<char>) -> Seq<char> {
    replaced(replaced(replaced(s, "\\n"@, "\n"@), "\\r"@, "\r"@), "\\t"@, "\t"@)
}

/// The rule on a line, with its pattern as it stands there. Blank lines, comments and lines without
/// an arrow or without a pattern hold none.
pub open spec fn rule_on(line: Seq<char>) -> Option<(Seq<char>, Seq<char>)> {
    let t = trimmed(line);
    if t.len() == 0 || "#"@.is_prefix_of(t) {
        None
    } else {
        match first_of(t, "=>"@) {
            Some(i) => {
                let pattern = trimmed(t.take(i));
                if pattern.len() == 0 {
                    None
                } else {
                    Some((pattern, unescaped(trimmed(t.skip(i + 2)))))
                }
            },
            None => None,
        }
    }
}

/// The rules on the lines, without those whose pattern is no regular expression.
pub open spec fn rules_on(ls: Seq<Seq<char>>) -> Seq<(Seq<char>, Seq<char>)>
    decreases ls.len(),
{
    if ls.len() == 0 {
        seq![]
    } else {
        let rest = rules_on(ls.drop_last());
        match rule_on(ls.last()) {
            Some(rule) => if regex_compiles(rule.0) {
                rest.push(rule)
            } else {
                rest
            },
            None => rest,
        }
    }
}

/// `text` with the rules applied one after the other.
pub open spec fn cleaned(text: Seq<char>, rules: Seq<(Seq<char>, Seq<char>)>) -> Seq<char>
    decreases rules.len(),
{
    if rules.len() == 0 {
        text
    } else {
        pattern_replaced(rules.last().0, cleaned(text, rules.drop_last()), rules.last().1)
    }
}

/// What a rule says, if there is one.
pub open spec fn rule_opt(r: Option<CleanupRule>) -> Option<(Seq<char>, Seq<char>)> {
    match r {
        Some(r) => Some(r@),
        None => None,
    }
}

/// Replaces the escapes in a replacement.
fn unescape(s: &str) -> (r: String)
    ensures
        r@ == unescaped(s@),
{
    proof {
        reveal_strlit("\\n");
        reveal_strlit("\\r");
        reveal_strlit("\\t");
    }
    replace(&replace(&replace(s, "\\n", "\n"), "\\r", "\r"), "\\t", "\t")
}

/// Reads the rule on a line. Whether its pattern is a regular expression is not asked.
pub fn read_cleanup_rule(line: &str) -> (r: Option<CleanupRule>)
    ensures
        rule_opt(r) == rule_on(line@),
{
    let t = trim(line);
    if t.as_str().is_empty() || starts_with(&t, "#") {
        return None;
    }
    proof {
        reveal_strlit("=>");
    }
    match split_once(&t, "=>") {
        Some((left, right)) => {
            let pattern = trim(&left);
            if pattern.as_str().is_empty() {
                None
            } else {
                let replacement = unescape(&trim(&right));
                Some(CleanupRule { pattern, replacement })
            }
        },
        None => None,
    }
}

/// Reads the rules on the lines of `raw_rules`.
pub fn parse_cleanup_rules(raw_rules: &str) -> (r: Vec<CleanupRule>)
    ensures
        rule_views(r@) == rules_on(line_list(raw_rules@)),
{
    let ls = lines(raw_rules);
    let ghost all = strings(ls@);
    let mut r: Vec<CleanupRule> = Vec::new();
    assert(rule_views(r@) == Seq::<(Seq<char>, Seq<char>)>::empty());
    for i in 0..ls.len()
        invariant
            all == strings(ls@),
            rule_views(r@) == rules_on(all.take(i as int)),
    {
        assert(all.take(i + 1).drop_last() == all.take(i as int));
        assert(all.take(i + 1).last() == ls@[i as int]@);
        if let Some(rule) = read_cleanup_rule(&ls[i]) {
            if compiles(&rule.pattern) {
                let ghost done = r@;
                r.push(rule);
                assert(rule_views(r@) == rule_views(done).push(rule@));
            }
        }
    }
    assert(all.take(all.len() as int) == all);
    r
}

/// Applies the rules to `text`, one after the other.
pub fn apply_cleanup_rules(text: &str, rules: &[CleanupRule]) -> (r: String)
    ensures
        r@ == cleaned(text@, rule_views(rules@)),
{
    let ghost all = rule_views(rules@);
    let mut r = text.to_owned();
    for i in 0..rules.len()
        invariant
            all == rule_views(rules@),
            r@ == cleaned(text@, all.take(i as int)),
    {
        assert(all.take(i + 1).drop_last() == all.take(i as int));
        assert(all.take(i + 1).last() == rules@[i as int]@);
        r = replace_matches(&rules[i].pattern, &r, &rules[i].replacement);
    }
    assert(all.take(all.len() as int) == all);
    r
}

/// To apply two lists of rules one after the other is to apply the list of all their rules.
pub proof fn law_rules_one_list_after_the_other(
    text: Seq<char>,
    first: Seq<(Seq<char>, Seq<char>)>,
    second: Seq<(Seq<char>, Seq<char>)>,
)
    ensures
        cleaned(cleaned(text, first), second) == cleaned(text, first + second),
    decreases second.len(),
{
    if second.len() > 0 {
        law_rules_one_list_after_the_other(text, first, second.drop_last());
        assert((first + second).drop_last() == first + second.drop_last());
        assert((first + second).last() == second.last());
    } else {
        assert(first + second == first);
    }
}

/// Every rule that was read has a pattern that is a regular expression and not empty.
pub proof fn law_rules_read_can_be_applied(raw: Seq<char>)
    ensures
        forall|i: int|
            0 <= i < rules_on(line_list(raw)).len() ==> regex_compiles(
                (#[trigger] rules_on(line_list(raw))[i]).0,
            ) && rules_on(line_list(raw))[i].0.len() > 0,
{
    lemma_rules_compile(line_list(raw));
}

/// The rules on lines have patterns that are regular expressions and not empty.
proof fn lemma_rules_compile(ls: Seq<Seq<char>>)
    ensures
        forall|i: int|
            0 <= i < rules_on(ls).len() ==> regex_compiles((#[trigger] rules_on(ls)[i]).0)
                && rules_on(ls)[i].0.len() > 0,
    decreases ls.len(),
{
    if ls.len() > 0 {
        lemma_rules_compile(ls.drop_last());
        let rest = rules_on(ls.drop_last());
        assert forall|i: int| 0 <= i < rules_on(ls).len() implies regex_compiles(
            (#[trigger] rules_on(ls)[i]).0,
        ) && rules_on(ls)[i].0.len() > 0 by {
            if i < rest.len() {
                assert(rules_on(ls)[i] == rest[i]);
            }
        }
    }
}

/// The rules on two lots of lines are the rules on the first and then those on the second.
pub proof fn law_rules_line_by_line(a: Seq<Seq<char>>, b: Seq<Seq<char>>)
    ensures
        rules_on(a + b) == rules_on(a) + rules_on(b),
    decreases b.len(),
{
    if b.len() > 0 {
        law_rules_line_by_line(a, b.drop_last());
        assert((a + b).drop_last() == a + b.drop_last());
        assert((a + b).last() == b.last());
        let rest = rules_on(b.drop_last());
        assert forall|r: (Seq<char>, Seq<char>)| #[trigger]
            (rules_on(a) + rest).push(r) == rules_on(a) + rest.push(r) by {}
    } else {
        assert(a + b == a);
        assert(rules_on(a) + rules_on(b) == rules_on(a));
    }
}

/// A line with a pattern, an arrow and a replacement holds that rule, whatever white space stands
/// around them; the escapes in the replacement are decoded.
pub proof fn law_rule_is_read_off_its_line(
    v: Seq<char>,
    pattern: Seq<char>,
    gap: Seq<char>,
    space: Seq<char>,
    replacement: Seq<char>,
    w: Seq<char>,
)
    requires
        all_space(v),
        all_space(gap),
        all_space(space),
        all_space(w),
        pattern.len() > 0,
        trimmed(pattern) == pattern,
        pattern[0] != '#',
        !occurs(pattern, "=>"@),
        replacement.len() > 0,
        trimmed(replacement) == replacement,
    ensures
        rule_on(v + pattern + gap + "=>"@ + space + replacement + w) == Some(
            (pattern, unescaped(replacement)),
        ),
{
    reveal_strlit("=>");
    reveal_strlit("#");
    let e = Seq::<char>::empty();
    let core = pattern + gap + "=>"@ + space + replacement;
    let (_, _) = lemma_trimmed_parts(pattern);
    let (_, _) = lemma_trimmed_parts(replacement);
    assert(core[0] == pattern[0]);
    assert(core.last() == replacement.last());
    lemma_trimmed_around(v, core, w);
    assert(v + core + w == v + pattern + gap + "=>"@ + space + replacement + w);
    if "#"@.is_prefix_of(core) {
        assert(core.subrange(0, 1)[0] == core[0]);
    }
    let n = (pattern.len() + gap.len()) as int;
    assert(core.subrange(n, n + 2) =~= "=>"@);
    assert forall|j: int| 0 <= j < n implies !occurs_at(core, "=>"@, j) by {
        if occurs_at(core, "=>"@, j) {
            assert(core.subrange(j, j + 2)[0] == core[j]);
            assert(core.subrange(j, j + 2)[1] == core[j + 1]);
            if j + 2 <= pattern.len() {
                assert(pattern.subrange(j, j + 2) == core.subrange(j, j + 2));
                assert(occurs_at(pattern, "=>"@, j));
            } else if j >= pattern.len() {
                assert(core[j] == gap[j - pattern.len()]);
            } else if gap.len() > 0 {
                assert(core[j + 1] == gap[0]);
            } else {
                assert(core[j + 1] == "=>"@[0]);
            }
        }
    }
    lemma_first_is(core, "=>"@, 0, n);
    assert(core.take(n) == e + pattern + gap);
    lemma_trimmed_around(e, pattern, gap);
    assert(core.skip(n + 2) == space + replacement + e);
    lemma_trimmed_around(space, replacement, e);
}

/// Blank lines, comments, and lines without an arrow hold no rule.
pub proof fn law_other_lines_hold_no_rule(line: Seq<char>)
    ensures
        trimmed(line).len() == 0 ==> rule_on(line) is None,
        trimmed(line).len() > 0 && trimmed(line)[0] == '#' ==> rule_on(line) is None,
        !occurs(trimmed(line), "=>"@) ==> rule_on(line) is None,
{
    reveal_strlit("#");
    let t = trimmed(line);
    if t.len() > 0 && t[0] == '#' {
        assert(t.subrange(0, 1) =~= "#"@);
    }
    lemma_first_from(t, "=>"@, 0);
}

/// The escapes in a replacement stand for a line feed, a carriage return and a tab; a replacement
/// without a backslash stays as it is.
pub proof fn law_escapes_are_decoded(a: Seq<char>, b: Seq<char>)
    requires
        !a.contains('\\'),
        !b.contains('\\'),
    ensures
        unescaped(a) == a,
        unescaped(a + "\\n"@ + b) == a + seq!['\n'] + b,
        unescaped(a + "\\r"@ + b) == a + seq!['\r'] + b,
        unescaped(a + "\\t"@ + b) == a + seq!['\t'] + b,
{
    reveal_strlit("\\n");
    reveal_strlit("\\r");
    reveal_strlit("\\t");
    reveal_strlit("\n");
    reveal_strlit("\r");
    reveal_strlit("\t");
    let n = "\\n"@;
    let r = "\\r"@;
    let t = "\\t"@;
    lemma_nothing_replaced(a, n, "\n"@);
    lemma_nothing_replaced(a, r, "\r"@);
    lemma_nothing_replaced(a, t, "\t"@);
    lemma_once_replaced(a, n, b, "\n"@);
    lemma_decoded_stays(a, "\n"@, b, r);
    lemma_decoded_stays(a, "\n"@, b, t);
    lemma_other_stays(a, r, b, n, 1);
    lemma_once_replaced(a, r, b, "\r"@);
    lemma_decoded_stays(a, "\r"@, b, t);
    lemma_other_stays(a, t, b, n, 1);
    lemma_other_stays(a, t, b, r, 1);
    lemma_once_replaced(a, t, b, "\t"@);
    assert("\n"@ == seq!['\n']);
    assert("\r"@ == seq!['\r']);
    assert("\t"@ == seq!['\t']);
}

/// A text without a backslash holds no escape.
proof fn lemma_decoded_stays(a: Seq<char>, m: Seq<char>, b: Seq<char>, escape: Seq<char>)
    requires
        escape.len() > 0,
        escape[0] == '\\',
        !a.contains('\\'),
        !b.contains('\\'),
        !m.contains('\\'),
    ensures
        forall|to: Seq<char>| #[trigger] replaced(a + m + b, escape, to) == a + m + b,
{
    let s = a + m + b;
    assert(!s.contains('\\')) by {
        assert forall|i: int| 0 <= i < s.len() implies s[i] != '\\' by {
            if i < a.len() {
                assert(s[i] == a[i]);
                assert(a.contains(a[i]));
            } else if i < a.len() + m.len() {
                assert(s[i] == m[i - a.len()]);
                assert(m.contains(m[i - a.len()]));
            } else {
                assert(s[i] == b[i - a.len() - m.len()]);
                assert(b.contains(b[i - a.len() - m.len()]));
            }
        }
    }
    assert forall|to: Seq<char>| #[trigger] replaced(s, escape, to) == s by {
        lemma_nothing_replaced(s, escape, to);
    }
}

/// A rule replaces what its pattern matches, and without rules a text stays as it is.
pub proof fn law_a_rule_replaces_its_matches(
    text: Seq<char>,
    pattern: Seq<char>,
    replacement: Seq<char>,
)
    ensures
        cleaned(text, seq![]) == text,
        cleaned(text, seq![(pattern, replacement)]) == pattern_replaced(
            pattern,
            text,
            replacement,
        ),
{
    let rules = seq![(pattern, replacement)];
    let none = Seq::<(Seq<char>, Seq<char>)>::empty();
    assert(rules.drop_last() == none);
    assert(cleaned(text, none) == text);
}

/// A line whose pattern is a regular expression gives one rule.
pub proof fn law_a_line_gives_its_rule(line: Seq<char>, rule: (Seq<char>, Seq<char>))
    requires
        rule_on(line) == Some(rule),
        regex_compiles(rule.0),
    ensures
        rules_on(seq![line]) == seq![rule],
{
    let none = Seq::<Seq<char>>::empty();
    assert(seq![line].drop_last() == none);
    assert(rules_on(none) == Seq::<(Seq<char>, Seq<char>)>::empty());
}

} // verus!
