//! What kind of content a text is, and whether it should be kept from sight.

use vstd::prelude::*;

use crate::chars::{ascii_alnum, is_ascii_alnum, is_space};
use crate::codecs::{is_alnum, is_capital, is_number, is_small};
use crate::regexes::{found, pattern_found};
use crate::text::{
    all_space, byte_len, bytes_in, contains, ends_with, first_of, lemma_first_from, lemma_first_is,
    lemma_trimmed_padding, lemma_trimmed_parts, occurs, occurs_at, same, split_once, starts_with,
    strings, to_chars, trim, trimmed,
};

verus! {

// ---------------------------------------------------------------------------
// Kinds of content

/// A character of the scheme of an address.
pub open spec fn is_scheme_char(c: char) -> bool {
    is_ascii_alnum(c) || c == '+' || c == '-' || c == '.'
}

/// `s` could be the scheme of an address.
pub open spec fn is_scheme(s: Seq<char>) -> bool {
    s.len() > 0 && forall|i: int| 0 <= i < s.len() ==> is_scheme_char(#[trigger] s[i])
}

/// The trimmed text `t` reads like an address.
pub open spec fn is_address(t: Seq<char>) -> bool {
    "www."@.is_prefix_of(t) || match first_of(t, "://"@) {
        Some(i) => is_scheme(t.take(i)),
        None => false,
    }
}

/// One where `word` stands in `s`, else nothing.
pub open spec fn sign(s: Seq<char>, word: Seq<char>) -> int {
    if occurs(s, word) {
        1
    } else {
        0
    }
}

/// How many of the words of program code stand in `s`.
pub open spec fn keyword_score(s: Seq<char>) -> int {
    sign(s, "import "@) + sign(s, "const "@) + sign(s, "let "@) + sign(s, "var "@) + sign(
        s,
        "function "@,
    ) + sign(s, "class "@) + sign(s, "pub fn "@) + sign(s, "impl "@) + sign(s, "#include"@) + sign(
        s,
        "package "@,
    ) + sign(s, "interface "@) + sign(s, "namespace "@) + sign(s, "void "@) + sign(s, "return "@)
        + sign(s, "if ("@) + sign(s, "for ("@) + sign(s, "while ("@) + sign(s, "=>"@)
}

/// How much `s` reads like program code: its words, a semicolon, braces, and markup, which counts
/// twice.
pub open spec fn code_score(s: Seq<char>) -> int {
    keyword_score(s) + sign(s, ";"@) + (if occurs(s, "{"@) && occurs(s, "}"@) {
        1int
    } else {
        0
    }) + (if occurs(s, "</"@) && occurs(s, ">"@) {
        2int
    } else {
        0
    })
}

/// `s` reads like an object in JSON.
pub open spec fn is_object_like(s: Seq<char>) -> bool {
    "{"@.is_prefix_of(trimmed(s)) && "}"@.is_suffix_of(trimmed(s)) && occurs(s, ":"@) && occurs(
        s,
        "\""@,
    )
}

/// The kind of content that `s` is.
pub open spec fn kind_of(s: Seq<char>) -> Seq<char> {
    if is_address(trimmed(s)) {
        "url"@
    } else if code_score(s) >= 2 || is_object_like(s) {
        "code"@
    } else {
        "text"@
    }
}

/// Tells whether `text` could be the scheme of an address.
fn reads_like_scheme(text: &str) -> (r: bool)
    ensures
        r == is_scheme(text@),
{
    let v = to_chars(text);
    for i in 0..v.len()
        invariant
            v@ == text@,
            forall|j: int| 0 <= j < i ==> is_scheme_char(#[trigger] text@[j]),
    {
        let c = v[i];
        if !(ascii_alnum(c) || c == '+' || c == '-' || c == '.') {
            assert(!is_scheme_char(text@[i as int]));
            return false;
        }
    }
    v.len() > 0
}

/// Tells whether a trimmed text reads like an address.
fn reads_like_address(text: &str) -> (r: bool)
    ensures
        r == is_address(text@),
{
    if starts_with(text, "www.") {
        return true;
    }
    match split_once(text, "://") {
        Some((scheme, _)) => reads_like_scheme(&scheme),
        None => false,
    }
}

/// Counts one where `word` stands in `text`.
fn count(text: &str, word: &str) -> (n: u32)
    ensures
        n == sign(text@, word@),
{
    if contains(text, word) {
        1
    } else {
        0
    }
}

/// Measures how much `text` reads like program code.
fn measure_code(text: &str) -> (n: u32)
    ensures
        n == code_score(text@),
{
    let words: u32 = count(text, "import ") + count(text, "const ") + count(text, "let ") + count(
        text,
        "var ",
    ) + count(text, "function ") + count(text, "class ") + count(text, "pub fn ") + count(
        text,
        "impl ",
    ) + count(text, "#include") + count(text, "package ") + count(text, "interface ") + count(
        text,
        "namespace ",
    ) + count(text, "void ") + count(text, "return ") + count(text, "if (") + count(text, "for (")
        + count(text, "while (") + count(text, "=>");
    let mut score: u32 = words + count(text, ";");
    if contains(text, "{") && contains(text, "}") {
        score = score + 1;
    }
    if contains(text, "</") && contains(text, ">") {
        score = score + 2;
    }
    score
}

/// Tells what kind of content `text` is: `url`, `code` or `text`.
pub fn detect_content_type(text: &str) -> (r: String)
    ensures
        r@ == kind_of(text@),
{
    let trimmed = trim(text);
    if reads_like_address(&trimmed) {
        return "url".to_owned();
    }
    if measure_code(text) >= 2 {
        return "code".to_owned();
    }
    if starts_with(&trimmed, "{") && ends_with(&trimmed, "}") && contains(text, ":") && contains(
        text,
        "\"",
    ) {
        return "code".to_owned();
    }
    "text".to_owned()
}

// ---------------------------------------------------------------------------
// Sensitive content

/// An address.
pub const URL_PATTERN: &'static str = r"(?i)(?:[a-zA-Z][a-zA-Z0-9+\-.]*://|www\.)\S+";

/// A mobile phone number.
pub const PHONE_PATTERN: &'static str =
    r"(?:\+?86)?[-\s\(]*1[3-9]\d{1}[-\s\)]*\d{4}[-\s]*\d{4}";

/// The number of an identity card.
pub const IDCARD_PATTERN: &'static str =
    r"\b[1-9]\d{5}[1-9]\d{3}((0\d)|(1[0-2]))(([0|1|2]\d)|3[0-1])\d{3}([0-9Xx])\b";

/// An e-mail address.
pub const EMAIL_PATTERN: &'static str = r"[a-zA-Z0-9._%+-]+@[a-zA-Z0-9.-]+\.[a-zA-Z]{2,}";

/// A key, a token or a password behind its name.
pub const SECRET_PATTERN: &'static str =
    r"(?ix)((?:sk|pk|ghp|gho|github_pat|AIza|AKIA|ya29)[-_][\w\-]{20,}|(?:password|secret|api[_-]?key|access[_-]?key|token|bearer)[\s:=]+[\w\-]{16,})";

/// How many bytes of text are searched at most.
pub const SENSITIVE_MAX_BYTES: usize = 5000;

/// `s` is built like a password: of 8 to 64 bytes, without space or line break, and with a capital
/// letter, a small letter, a number and something else.
pub open spec fn is_password_like(s: Seq<char>) -> bool {
    &&& 8 <= byte_len(s) <= 64
    &&& !occurs(s, " "@)
    &&& !occurs(s, "\n"@)
    &&& exists|i: int| 0 <= i < s.len() && is_capital(#[trigger] s[i])
    &&& exists|i: int| 0 <= i < s.len() && is_small(#[trigger] s[i])
    &&& exists|i: int| 0 <= i < s.len() && is_number(#[trigger] s[i])
    &&& exists|i: int| 0 <= i < s.len() && !is_alnum(#[trigger] s[i])
}

/// One of the patterns `rules` matches in `s`.
pub open spec fn some_rule_found(rules: Seq<Seq<char>>, s: Seq<char>) -> bool {
    exists|i: int| 0 <= i < rules.len() && pattern_found(#[trigger] rules[i], s)
}

/// What was found in a text.
#[derive(Clone, Copy, Debug, PartialEq, Eq, Structural)]
pub struct Findings {
    /// An address.
    pub url: bool,
    /// A mobile phone number.
    pub phone: bool,
    /// The number of an identity card.
    pub idcard: bool,
    /// An e-mail address.
    pub email: bool,
    /// A key, a token or a password behind its name.
    pub secret: bool,
    /// The text is built like a password.
    pub password: bool,
    /// Something that a rule of the user matches.
    pub custom: bool,
}

/// Something was found that is of one of the `kinds`, or that a rule of the user matches.
pub open spec fn is_reported(kinds: Seq<Seq<char>>, f: Findings) -> bool {
    ||| f.url && kinds.contains("url"@)
    ||| f.phone && kinds.contains("phone"@)
    ||| f.idcard && kinds.contains("idcard"@)
    ||| f.email && kinds.contains("email"@)
    ||| f.secret && kinds.contains("secret"@)
    ||| f.password && kinds.contains("password"@)
    ||| f.custom
}

/// What there is to find in `s`.
pub open spec fn findings_in(s: Seq<char>, rules: Seq<Seq<char>>) -> Findings {
    Findings {
        url: pattern_found(URL_PATTERN@, s),
        phone: pattern_found(PHONE_PATTERN@, s),
        idcard: pattern_found(IDCARD_PATTERN@, s),
        email: pattern_found(EMAIL_PATTERN@, s),
        secret: pattern_found(SECRET_PATTERN@, s),
        password: is_password_like(s),
        custom: some_rule_found(rules, s),
    }
}

/// `s` holds something of one of the `kinds` that should be kept from sight, or something that one
/// of the `rules` matches. Long texts and data addresses are not searched.
pub open spec fn is_sensitive(
    s: Seq<char>,
    kinds: Seq<Seq<char>>,
    rules: Seq<Seq<char>>,
) -> bool {
    byte_len(s) <= SENSITIVE_MAX_BYTES && !"data:"@.is_prefix_of(s) && is_reported(
        kinds,
        findings_in(s, rules),
    )
}

/// Tells whether `kind` is among `kinds`.
fn has_kind(kinds: &[String], kind: &str) -> (r: bool)
    ensures
        r == strings(kinds@).contains(kind@),
{
    for i in 0..kinds.len()
        invariant
            forall|j: int| 0 <= j < i ==> kinds@[j]@ != kind@,
    {
        if same(&kinds[i], kind) {
            assert(strings(kinds@)[i as int] == kind@);
            return true;
        }
    }
    false
}

/// Tells whether `text` is built like a password.
fn looks_like_password(text: &str) -> (r: bool)
    ensures
        r == is_password_like(text@),
{
    let n = bytes_in(text);
    if n < 8 || n > 64 || contains(text, " ") || contains(text, "\n") {
        return false;
    }
    let v = to_chars(text);
    let mut upper = false;
    let mut lower = false;
    let mut numeric = false;
    let mut special = false;
    for i in 0..v.len()
        invariant
            v@ == text@,
            upper == exists|j: int| 0 <= j < i && is_capital(#[trigger] text@[j]),
            lower == exists|j: int| 0 <= j < i && is_small(#[trigger] text@[j]),
            numeric == exists|j: int| 0 <= j < i && is_number(#[trigger] text@[j]),
            special == exists|j: int| 0 <= j < i && !is_alnum(#[trigger] text@[j]),
    {
        let c = v[i];
        assert(c == text@[i as int]);
        upper = upper || c.is_uppercase();
        lower = lower || c.is_lowercase();
        numeric = numeric || c.is_numeric();
        special = special || !c.is_alphanumeric();
    }
    upper && lower && numeric && special
}

/// Tells whether one of the patterns `rules` matches in `text`.
fn some_rule_matches(rules: &[String], text: &str) -> (r: bool)
    ensures
        r == some_rule_found(strings(rules@), text@),
{
    for i in 0..rules.len()
        invariant
            forall|j: int| 0 <= j < i ==> !pattern_found(#[trigger] strings(rules@)[j], text@),
    {
        assert(strings(rules@)[i as int] == rules@[i as int]@);
        if found(&rules[i], text) {
            return true;
        }
    }
    false
}

/// Tells whether something was found that is of one of the `kinds`, or that a rule matches.
pub fn report(kinds: &[String], found: Findings) -> (r: bool)
    ensures
        r == is_reported(strings(kinds@), found),
{
    found.custom || (found.url && has_kind(kinds, "url")) || (found.phone && has_kind(
        kinds,
        "phone",
    )) || (found.idcard && has_kind(kinds, "idcard")) || (found.email && has_kind(kinds, "email"))
        || (found.secret && has_kind(kinds, "secret")) || (found.password && has_kind(
        kinds,
        "password",
    ))
}

/// Tells whether `text` holds something that should be kept from sight. Only what is asked for is
/// looked for.
pub fn contains_sensitive_info(text: &str, kinds: &[String], custom_rules: &[String]) -> (r: bool)
    ensures
        r == is_sensitive(text@, strings(kinds@), strings(custom_rules@)),
{
    if bytes_in(text) > SENSITIVE_MAX_BYTES || starts_with(text, "data:") {
        return false;
    }
    let findings = Findings {
        url: has_kind(kinds, "url") && found(URL_PATTERN, text),
        phone: has_kind(kinds, "phone") && found(PHONE_PATTERN, text),
        idcard: has_kind(kinds, "idcard") && found(IDCARD_PATTERN, text),
        email: has_kind(kinds, "email") && found(EMAIL_PATTERN, text),
        secret: has_kind(kinds, "secret") && found(SECRET_PATTERN, text),
        password: has_kind(kinds, "password") && looks_like_password(text),
        custom: some_rule_matches(custom_rules, text),
    };
    report(kinds, findings)
}

// ---------------------------------------------------------------------------
// Laws

/// A text is of one of three kinds.
pub proof fn law_kind_is_one_of_three(s: Seq<char>)
    ensures
        kind_of(s) == "url"@ || kind_of(s) == "code"@ || kind_of(s) == "text"@,
{
}

/// White space around a text makes no difference to whether it is an address.
pub proof fn law_address_whatever_space_around(v: Seq<char>, s: Seq<char>, w: Seq<char>)
    requires
        all_space(v),
        all_space(w),
    ensures
        (kind_of(v + s + w) == "url"@) == (kind_of(s) == "url"@),
{
    reveal_strlit("url");
    reveal_strlit("code");
    reveal_strlit("text");
    assert("url"@.len() == 3 && "code"@.len() == 4 && "text"@.len() == 4);
    lemma_trimmed_padding(v, s, w);
}

/// Long texts and data addresses are never sensitive.
pub proof fn law_long_or_data_text_is_not_sensitive(
    s: Seq<char>,
    kinds: Seq<Seq<char>>,
    rules: Seq<Seq<char>>,
)
    requires
        byte_len(s) > SENSITIVE_MAX_BYTES || "data:"@.is_prefix_of(s),
    ensures
        !is_sensitive(s, kinds, rules),
{
}

/// Nothing is sensitive where neither kinds nor rules are given.
pub proof fn law_nothing_asked_nothing_sensitive(s: Seq<char>)
    ensures
        !is_sensitive(s, seq![], seq![]),
{
}

/// What is sensitive by kinds and rules together is so by some of them, and the other way round.
pub proof fn law_kinds_and_rules_add_up(
    s: Seq<char>,
    kinds: Seq<Seq<char>>,
    rules: Seq<Seq<char>>,
    more_kinds: Seq<Seq<char>>,
    more_rules: Seq<Seq<char>>,
)
    ensures
        is_sensitive(s, kinds + more_kinds, rules + more_rules) == (is_sensitive(s, kinds, rules)
            || is_sensitive(s, more_kinds, more_rules)),
{
    let ks = kinds + more_kinds;
    let rs = rules + more_rules;
    assert forall|k: Seq<char>| #[trigger] ks.contains(k) == (kinds.contains(k)
        || more_kinds.contains(k)) by {
        if kinds.contains(k) {
            let i = choose|i: int| 0 <= i < kinds.len() && kinds[i] == k;
            assert(ks[i] == k);
        }
        if more_kinds.contains(k) {
            let i = choose|i: int| 0 <= i < more_kinds.len() && more_kinds[i] == k;
            assert(ks[kinds.len() + i] == k);
        }
        if ks.contains(k) {
            let i = choose|i: int| 0 <= i < ks.len() && ks[i] == k;
            if i < kinds.len() {
                assert(kinds[i] == k);
            } else {
                assert(more_kinds[i - kinds.len()] == k);
            }
        }
    }
    assert(some_rule_found(rs, s) == (some_rule_found(rules, s) || some_rule_found(more_rules, s)))
        by {
        if some_rule_found(rules, s) {
            let i = choose|i: int| 0 <= i < rules.len() && pattern_found(#[trigger] rules[i], s);
            assert(rs[i] == rules[i]);
        }
        if some_rule_found(more_rules, s) {
            let i = choose|i: int|
                0 <= i < more_rules.len() && pattern_found(#[trigger] more_rules[i], s);
            assert(rs[rules.len() + i] == more_rules[i]);
        }
        if some_rule_found(rs, s) {
            let i = choose|i: int| 0 <= i < rs.len() && pattern_found(#[trigger] rs[i], s);
            if i < rules.len() {
                assert(rules[i] == rs[i]);
            } else {
                assert(more_rules[i - rules.len()] == rs[i]);
            }
        }
    }
}

/// What is asked for and found is reported, whatever else the text holds: a text of at most 5000
/// bytes that is no data address is sensitive where a kind is asked for and what is known of that
/// kind stands in it.
pub proof fn law_what_is_asked_for_and_found_is_sensitive(
    s: Seq<char>,
    kinds: Seq<Seq<char>>,
    rules: Seq<Seq<char>>,
)
    requires
        byte_len(s) <= 5000,
        !"data:"@.is_prefix_of(s),
    ensures
        kinds.contains("url"@) && pattern_found(
            r"(?i)(?:[a-zA-Z][a-zA-Z0-9+\-.]*://|www\.)\S+"@,
            s,
        ) ==> is_sensitive(s, kinds, rules),
        kinds.contains("phone"@) && pattern_found(
            r"(?:\+?86)?[-\s\(]*1[3-9]\d{1}[-\s\)]*\d{4}[-\s]*\d{4}"@,
            s,
        ) ==> is_sensitive(s, kinds, rules),
        kinds.contains("idcard"@) && pattern_found(
            r"\b[1-9]\d{5}[1-9]\d{3}((0\d)|(1[0-2]))(([0|1|2]\d)|3[0-1])\d{3}([0-9Xx])\b"@,
            s,
        ) ==> is_sensitive(s, kinds, rules),
        kinds.contains("email"@) && pattern_found(
            r"[a-zA-Z0-9._%+-]+@[a-zA-Z0-9.-]+\.[a-zA-Z]{2,}"@,
            s,
        ) ==> is_sensitive(s, kinds, rules),
        kinds.contains("secret"@) && pattern_found(
            r"(?ix)((?:sk|pk|ghp|gho|github_pat|AIza|AKIA|ya29)[-_][\w\-]{20,}|(?:password|secret|api[_-]?key|access[_-]?key|token|bearer)[\s:=]+[\w\-]{16,})"@,
            s,
        ) ==> is_sensitive(s, kinds, rules),
        forall|i: int|
            0 <= i < rules.len() && pattern_found(#[trigger] rules[i], s) ==> is_sensitive(
                s,
                kinds,
                rules,
            ),
{
    if exists|i: int| 0 <= i < rules.len() && pattern_found(#[trigger] rules[i], s) {
        assert(some_rule_found(rules, s));
    }
}

/// A text of 8 to 64 bytes without space and line break, in which a capital letter, a small letter,
/// a digit and a sign stand at some places, is sensitive where passwords are asked for.
pub proof fn law_password_is_sensitive(
    s: Seq<char>,
    kinds: Seq<Seq<char>>,
    rules: Seq<Seq<char>>,
    capital: int,
    small: int,
    digit: int,
    sign: int,
)
    requires
        kinds.contains("password"@),
        8 <= byte_len(s) <= 64,
        !"data:"@.is_prefix_of(s),
        !s.contains(' '),
        !s.contains('\n'),
        0 <= capital < s.len() && 'A' <= s[capital] <= 'Z',
        0 <= small < s.len() && 'a' <= s[small] <= 'z',
        0 <= digit < s.len() && '0' <= s[digit] <= '9',
        0 <= sign < s.len() && s[sign] <= '\u{7f}',
        !('A' <= s[sign] <= 'Z') && !('a' <= s[sign] <= 'z') && !('0' <= s[sign] <= '9'),
    ensures
        is_sensitive(s, kinds, rules),
{
    lemma_no_char_no_text(s, " "@, ' ');
    lemma_no_char_no_text(s, "\n"@, '\n');
    assert(is_capital(s[capital]));
    assert(is_small(s[small]));
    assert(is_number(s[digit]));
    assert(!is_alnum(s[sign]));
    assert(is_password_like(s));
}

/// What a text does not hold, it does not hold as a text of one character.
proof fn lemma_no_char_no_text(s: Seq<char>, p: Seq<char>, c: char)
    requires
        !s.contains(c),
        p == " "@ && c == ' ' || p == "\n"@ && c == '\n',
    ensures
        !occurs(s, p),
{
    reveal_strlit(" ");
    reveal_strlit("\n");
    if occurs(s, p) {
        let i = choose|i: int| occurs_at(s, p, i);
        assert(s.subrange(i, i + 1)[0] == s[i]);
        assert(s.contains(c));
    }
}

/// What is sensitive was asked for: a text in which no rule matches is sensitive by one of the six
/// kinds, which is among those that were asked for, and holds what is known of that kind.
pub proof fn law_what_is_sensitive_was_asked_for_and_found(
    s: Seq<char>,
    kinds: Seq<Seq<char>>,
    rules: Seq<Seq<char>>,
)
    requires
        is_sensitive(s, kinds, rules),
        forall|i: int| 0 <= i < rules.len() ==> !pattern_found(#[trigger] rules[i], s),
    ensures
        byte_len(s) <= 5000,
        !"data:"@.is_prefix_of(s),
        kinds.contains("url"@) && pattern_found(URL_PATTERN@, s) || kinds.contains("phone"@)
            && pattern_found(PHONE_PATTERN@, s) || kinds.contains("idcard"@) && pattern_found(
            IDCARD_PATTERN@,
            s,
        ) || kinds.contains("email"@) && pattern_found(EMAIL_PATTERN@, s) || kinds.contains(
            "secret"@,
        ) && pattern_found(SECRET_PATTERN@, s) || kinds.contains("password"@) && 8 <= byte_len(s)
            <= 64 && !occurs(s, " "@) && !occurs(s, "\n"@),
{
}

/// A text that begins, behind white space, with `www.` or with a scheme and `://` is an address,
/// whatever follows.
pub proof fn law_address_is_known_by_its_beginning(
    v: Seq<char>,
    scheme: Seq<char>,
    rest: Seq<char>,
)
    requires
        all_space(v),
        scheme.len() > 0,
        forall|i: int|
            0 <= i < scheme.len() ==> {
                let c = #[trigger] scheme[i];
                'a' <= c <= 'z' || 'A' <= c <= 'Z' || '0' <= c <= '9' || c == '+' || c == '-' || c
                    == '.'
            },
    ensures
        kind_of(v + scheme + "://"@ + rest) == "url"@,
        kind_of(v + "www."@ + rest) == "url"@,
{
    reveal_strlit("://");
    reveal_strlit("www.");
    let e = Seq::<char>::empty();
    let a = scheme + "://"@ + rest;
    lemma_trimmed_padding(v, a, e);
    assert(v + scheme + "://"@ + rest == v + a + e);
    let head = scheme + "://"@;
    lemma_trimmed_keeps_start(head, rest);
    let t = trimmed(a);
    assert forall|i: int| 0 <= i < scheme.len() implies #[trigger] t[i] == scheme[i] by {
        assert(t.subrange(0, head.len() as int)[i] == head[i]);
    }
    assert(t.subrange(scheme.len() as int, scheme.len() as int + 3) =~= "://"@) by {
        assert forall|i: int| 0 <= i < 3 implies t[scheme.len() + i] == "://"@[i] by {
            assert(t.subrange(0, head.len() as int)[scheme.len() + i] == head[scheme.len() + i]);
        }
    }
    assert forall|j: int| 0 <= j < scheme.len() implies !occurs_at(t, "://"@, j) by {
        if occurs_at(t, "://"@, j) {
            assert(t.subrange(j, j + 3)[0] == t[j]);
            assert(t[j] == scheme[j]);
        }
    }
    lemma_first_is(t, "://"@, 0, scheme.len() as int);
    assert(t.take(scheme.len() as int) == scheme);
    assert(is_scheme(scheme)) by {
        assert forall|i: int| 0 <= i < scheme.len() implies is_scheme_char(#[trigger] scheme[i]) by {}
    }
    let b = "www."@ + rest;
    lemma_trimmed_padding(v, b, e);
    assert(v + "www."@ + rest == v + b + e);
    lemma_trimmed_keeps_start("www."@, rest);
}

/// A start without white space at its ends is kept when a text is trimmed.
proof fn lemma_trimmed_keeps_start(head: Seq<char>, rest: Seq<char>)
    requires
        head.len() > 0,
        !is_space(head[0]),
        !is_space(head.last()),
    ensures
        head.is_prefix_of(trimmed(head + rest)),
{
    let s = head + rest;
    let (v, w) = lemma_trimmed_parts(s);
    let t = trimmed(s);
    assert(s == v + t + w);
    if v.len() > 0 {
        assert(s[0] == v[0]);
    }
    assert(v + t == t);
    if t.len() < head.len() {
        assert(s[head.len() - 1] == w[head.len() - 1 - t.len()]);
    }
    assert(t.subrange(0, head.len() as int) =~= head) by {
        assert forall|i: int| 0 <= i < head.len() implies t[i] == head[i] by {
            assert(s[i] == head[i]);
            assert((t + w)[i] == t[i]);
        }
    }
}

/// A text that is no address is program code where two of the words of program code stand in it,
/// whichever these are.
pub proof fn law_two_words_of_code_make_code(s: Seq<char>, i: int, j: int)
    requires
        kind_of(s) != "url"@,
        ({
            let words = seq![
                "import "@,
                "const "@,
                "let "@,
                "var "@,
                "function "@,
                "class "@,
                "pub fn "@,
                "impl "@,
                "#include"@,
                "package "@,
                "interface "@,
                "namespace "@,
                "void "@,
                "return "@,
                "if ("@,
                "for ("@,
                "while ("@,
                "=>"@,
                ";"@,
            ];
            0 <= i < j < words.len() && occurs(s, words[i]) && occurs(s, words[j])
        }),
    ensures
        kind_of(s) == "code"@,
{
}

/// A text that is no address is program code where a tag ends in it, or where one of the words of
/// program code stands in it beside braces, or where it is an object of names and values in braces.
pub proof fn law_markup_and_objects_are_code(s: Seq<char>)
    requires
        kind_of(s) != "url"@,
    ensures
        occurs(s, "</"@) && occurs(s, ">"@) ==> kind_of(s) == "code"@,
        occurs(s, "{"@) && occurs(s, "}"@) && occurs(s, ";"@) ==> kind_of(s) == "code"@,
        occurs(s, "{"@) && occurs(s, "}"@) && occurs(s, "return "@) ==> kind_of(s) == "code"@,
        "{"@.is_prefix_of(trimmed(s)) && "}"@.is_suffix_of(trimmed(s)) && occurs(s, ":"@) && occurs(
            s,
            "\""@,
        ) ==> kind_of(s) == "code"@,
{
}

/// A text in which none of the words and signs of program code stand is plain text, unless it is an
/// address.
pub proof fn law_plain_words_are_text(s: Seq<char>)
    requires
        !"www."@.is_prefix_of(trimmed(s)),
        !occurs(trimmed(s), "://"@),
        !occurs(s, "import "@),
        !occurs(s, "const "@),
        !occurs(s, "let "@),
        !occurs(s, "var "@),
        !occurs(s, "function "@),
        !occurs(s, "class "@),
        !occurs(s, "pub fn "@),
        !occurs(s, "impl "@),
        !occurs(s, "#include"@),
        !occurs(s, "package "@),
        !occurs(s, "interface "@),
        !occurs(s, "namespace "@),
        !occurs(s, "void "@),
        !occurs(s, "return "@),
        !occurs(s, "if ("@),
        !occurs(s, "for ("@),
        !occurs(s, "while ("@),
        !occurs(s, "=>"@),
        !occurs(s, "</"@),
        !("{"@.is_prefix_of(trimmed(s)) && "}"@.is_suffix_of(trimmed(s)) && occurs(s, ":"@)
            && occurs(s, "\""@)),
        !(occurs(s, ";"@) && occurs(s, "{"@) && occurs(s, "}"@)),
    ensures
        kind_of(s) == "text"@,
{
    lemma_first_from(trimmed(s), "://"@, 0);
}

/// An ASCII text that is no data address and in which no rule matches is no password where a capital
/// letter, a small letter, a digit or a sign is missing, where it is shorter than 8 or longer than 64
/// bytes, or where a space or a line break stands in it.
pub proof fn law_password_needs_all_four(
    s: Seq<char>,
    kinds: Seq<Seq<char>>,
    rules: Seq<Seq<char>>,
)
    requires
        forall|i: int| 0 <= i < kinds.len() ==> #[trigger] kinds[i] == "password"@,
        forall|i: int| 0 <= i < rules.len() ==> !pattern_found(#[trigger] rules[i], s),
        forall|i: int| 0 <= i < s.len() ==> #[trigger] s[i] <= '\u{7f}',
        (forall|i: int| 0 <= i < s.len() ==> !('A' <= #[trigger] s[i] <= 'Z')) || (forall|i: int|
            0 <= i < s.len() ==> !('a' <= #[trigger] s[i] <= 'z')) || (forall|i: int|
            0 <= i < s.len() ==> !('0' <= #[trigger] s[i] <= '9')) || (forall|i: int|
            0 <= i < s.len() ==> {
                let c = #[trigger] s[i];
                'A' <= c <= 'Z' || 'a' <= c <= 'z' || '0' <= c <= '9'
            }) || byte_len(s) < 8 || byte_len(s) > 64 || s.contains(' ') || s.contains('\n'),
    ensures
        !is_sensitive(s, kinds, rules),
{
    reveal_strlit("url");
    reveal_strlit("phone");
    reveal_strlit("idcard");
    reveal_strlit("email");
    reveal_strlit("secret");
    reveal_strlit("password");
    reveal_strlit(" ");
    reveal_strlit("\n");
    assert("password"@.len() == 8);
    assert(!is_password_like(s)) by {
        if s.contains(' ') {
            let i = choose|i: int| 0 <= i < s.len() && s[i] == ' ';
            assert(s.subrange(i, i + 1) =~= " "@);
            assert(occurs_at(s, " "@, i));
        }
        if s.contains('\n') {
            let i = choose|i: int| 0 <= i < s.len() && s[i] == '\n';
            assert(s.subrange(i, i + 1) =~= "\n"@);
            assert(occurs_at(s, "\n"@, i));
        }
    }
}

/// A text is no address where it does not begin with `www.` and what stands before its first `://`
/// is nothing, or holds a character that no scheme has.
pub proof fn law_no_scheme_no_address(head: Seq<char>, rest: Seq<char>, i: int)
    requires
        trimmed(head + "://"@ + rest) == head + "://"@ + rest,
        !"www."@.is_prefix_of(head + "://"@ + rest),
        forall|j: int| 0 <= j < head.len() ==> !occurs_at(head + "://"@ + rest, "://"@, j),
        head.len() == 0 || 0 <= i < head.len() && ({
            let c = head[i];
            !('a' <= c <= 'z' || 'A' <= c <= 'Z' || '0' <= c <= '9' || c == '+' || c == '-' || c
                == '.')
        }),
    ensures
        kind_of(head + "://"@ + rest) != "url"@,
{
    reveal_strlit("://");
    reveal_strlit("url");
    reveal_strlit("code");
    reveal_strlit("text");
    let t = head + "://"@ + rest;
    let n = head.len() as int;
    assert(t.subrange(n, n + 3) =~= "://"@);
    lemma_first_is(t, "://"@, 0, n);
    assert(t.take(n) == head);
    assert("url"@.len() == 3 && "code"@.len() == 4 && "text"@.len() == 4);
    if head.len() > 0 {
        assert(!is_scheme_char(head[i]));
    }
}

/// A text that is no address is program code where one of the words of program code stands in it
/// beside braces, whichever it is; and plain text where at most one of these words, or braces, and
/// neither a tag nor an object stands in it.
pub proof fn law_one_word_of_code_is_not_enough(s: Seq<char>, k: int)
    requires
        kind_of(s) != "url"@,
    ensures
        ({
            let words = seq![
                "import "@,
                "const "@,
                "let "@,
                "var "@,
                "function "@,
                "class "@,
                "pub fn "@,
                "impl "@,
                "#include"@,
                "package "@,
                "interface "@,
                "namespace "@,
                "void "@,
                "return "@,
                "if ("@,
                "for ("@,
                "while ("@,
                "=>"@,
                ";"@,
            ];
            let braces = occurs(s, "{"@) && occurs(s, "}"@);
            let object = "{"@.is_prefix_of(trimmed(s)) && "}"@.is_suffix_of(trimmed(s)) && occurs(
                s,
                ":"@,
            ) && occurs(s, "\""@);
            let tag = occurs(s, "</"@) && occurs(s, ">"@);
            &&& 0 <= k < words.len() && occurs(s, words[k]) && braces ==> kind_of(s) == "code"@
            &&& !tag && !object && !braces && (forall|i: int|
                0 <= i < words.len() && i != k ==> !occurs(s, #[trigger] words[i])) ==> kind_of(s)
                == "text"@
            &&& !tag && !object && (forall|i: int|
                0 <= i < words.len() ==> !occurs(s, #[trigger] words[i])) ==> kind_of(s) == "text"@
        }),
{
    let words = seq![
        "import "@,
        "const "@,
        "let "@,
        "var "@,
        "function "@,
        "class "@,
        "pub fn "@,
        "impl "@,
        "#include"@,
        "package "@,
        "interface "@,
        "namespace "@,
        "void "@,
        "return "@,
        "if ("@,
        "for ("@,
        "while ("@,
        "=>"@,
        ";"@,
    ];
    assert(words[0] == "import "@ && words[1] == "const "@ && words[2] == "let "@ && words[3]
        == "var "@ && words[4] == "function "@ && words[5] == "class "@ && words[6] == "pub fn "@
        && words[7] == "impl "@ && words[8] == "#include"@ && words[9] == "package "@ && words[10]
        == "interface "@ && words[11] == "namespace "@ && words[12] == "void "@ && words[13]
        == "return "@ && words[14] == "if ("@ && words[15] == "for ("@ && words[16] == "while ("@
        && words[17] == "=>"@ && words[18] == ";"@);
}

} // verus!
