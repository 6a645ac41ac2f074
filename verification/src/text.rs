//! Operations on strings, with their models over sequences of characters.
//!
//! Positions count characters unless a name says that they count bytes.

use vstd::prelude::*;
use vstd::slice::slice_subrange;
use vstd::utf8::{decode_utf8, encode_utf8, encode_utf8_decode_utf8, is_char_boundary};

use crate::chars::{ascii_lower, digit, is_digit, is_space, lower_char, space};

verus! {

/// Appends one character to a string: `String::push` puts `c` behind what the string held.
pub assume_specification[ String::push ](s: &mut String, c: char)
    ensures
        final(s)@ == old(s)@.push(c),
;

/// The characters of `s`.
pub fn to_chars(s: &str) -> (v: Vec<char>)
    ensures
        v@ == s@,
{
    let mut v: Vec<char> = Vec::new();
    for c in it: s.chars()
        invariant
            v@ == it.seq().take(it.index() as int),
            it.seq() == s@,
    {
        v.push(c);
    }
    v
}

/// The string made of the characters of `v`.
pub fn from_chars(v: &[char]) -> (s: String)
    ensures
        s@ == v@,
{
    let mut s = String::new();
    for i in 0..v.len()
        invariant
            s@ == v@.take(i as int),
    {
        s.push(v[i]);
    }
    s
}

/// The string made of the characters of `v` from `a` up to `b`.
pub fn piece(v: &[char], a: usize, b: usize) -> (s: String)
    requires
        a <= b <= v@.len(),
    ensures
        s@ == v@.subrange(a as int, b as int),
{
    from_chars(slice_subrange(v, a, b))
}

/// `a` followed by `b`.
pub fn join2(a: &str, b: &str) -> (s: String)
    ensures
        s@ == a@ + b@,
{
    let mut s = String::new();
    s.append(a);
    s.append(b);
    assert(s@ == a@ + b@);
    s
}

/// `a`, `b` and `c`, one behind the other.
pub fn join3(a: &str, b: &str, c: &str) -> (s: String)
    ensures
        s@ == a@ + b@ + c@,
{
    let mut s = join2(a, b);
    s.append(c);
    s
}

/// Tells whether two strings hold the same characters.
pub fn same(a: &str, b: &str) -> (r: bool)
    ensures
        r == (a@ == b@),
{
    let x = to_chars(a);
    let y = to_chars(b);
    assert(x@.subrange(0, x@.len() as int) == x@);
    x.len() == y.len() && matches_at(&x, &y, 0)
}

/// The contents of a list of strings.
pub open spec fn strings(v: Seq<String>) -> Seq<Seq<char>> {
    Seq::new(v.len(), |i: int| v[i]@)
}

/// The content of an optional text.
pub open spec fn str_opt(s: Option<&str>) -> Option<Seq<char>> {
    match s {
        Some(s) => Some(s@),
        None => None,
    }
}

/// The content of an optional string.
pub open spec fn string_opt(s: Option<String>) -> Option<Seq<char>> {
    match s {
        Some(s) => Some(s@),
        None => None,
    }
}

// ---------------------------------------------------------------------------
// Searching

/// `p` stands in `s` at position `i`.
pub open spec fn occurs_at(s: Seq<char>, p: Seq<char>, i: int) -> bool {
    0 <= i && i + p.len() <= s.len() && s.subrange(i, i + p.len()) == p
}

/// `p` stands somewhere in `s`.
pub open spec fn occurs(s: Seq<char>, p: Seq<char>) -> bool {
    exists|i: int| occurs_at(s, p, i)
}

/// The first position at or behind `from` where `p` stands in `s`.
pub open spec fn first_from(s: Seq<char>, p: Seq<char>, from: int) -> Option<int>
    decreases s.len() + 1 - from,
{
    if from < 0 || from + p.len() > s.len() {
        None
    } else if occurs_at(s, p, from) {
        Some(from)
    } else {
        first_from(s, p, from + 1)
    }
}

/// The last position at or before `upto` where `p` stands in `s`.
pub open spec fn last_upto(s: Seq<char>, p: Seq<char>, upto: int) -> Option<int>
    decreases upto + 1,
{
    if upto < 0 {
        None
    } else if occurs_at(s, p, upto) {
        Some(upto)
    } else {
        last_upto(s, p, upto - 1)
    }
}

/// The first position where `p` stands in `s`.
pub open spec fn first_of(s: Seq<char>, p: Seq<char>) -> Option<int> {
    first_from(s, p, 0)
}

/// The last position where `p` stands in `s`.
pub open spec fn last_of(s: Seq<char>, p: Seq<char>) -> Option<int> {
    last_upto(s, p, s.len() as int)
}

/// An optional position as an integer.
pub open spec fn position(r: Option<usize>) -> Option<int> {
    match r {
        Some(i) => Some(i as int),
        None => None,
    }
}

/// What `first_from` finds is the least position that fits, and it finds one whenever there is one.
pub proof fn lemma_first_from(s: Seq<char>, p: Seq<char>, from: int)
    requires
        0 <= from,
    ensures
        match first_from(s, p, from) {
            Some(i) => from <= i && occurs_at(s, p, i) && forall|j: int|
                from <= j < i ==> !occurs_at(s, p, j),
            None => forall|j: int| from <= j ==> !occurs_at(s, p, j),
        },
    decreases s.len() + 1 - from,
{
    if from + p.len() > s.len() {
    } else if occurs_at(s, p, from) {
    } else {
        lemma_first_from(s, p, from + 1);
    }
}

/// What `last_upto` finds is the greatest position that fits, and it finds one whenever there is
/// one.
pub proof fn lemma_last_upto(s: Seq<char>, p: Seq<char>, upto: int)
    ensures
        match last_upto(s, p, upto) {
            Some(i) => i <= upto && occurs_at(s, p, i) && forall|j: int|
                i < j <= upto ==> !occurs_at(s, p, j),
            None => forall|j: int| j <= upto ==> !occurs_at(s, p, j),
        },
    decreases upto + 1,
{
    if upto < 0 {
    } else if occurs_at(s, p, upto) {
    } else {
        lemma_last_upto(s, p, upto - 1);
    }
}

/// A text that begins with `p` has the characters of `p`.
pub proof fn lemma_begins(p: Seq<char>, s: Seq<char>)
    requires
        p.is_prefix_of(s),
    ensures
        p.len() <= s.len(),
        forall|i: int| 0 <= i < p.len() ==> s[i] == #[trigger] p[i],
{
    assert forall|i: int| 0 <= i < p.len() implies s[i] == #[trigger] p[i] by {
        assert(s.subrange(0, p.len() as int)[i] == s[i]);
    }
}

/// A position that fits, and before which none fits, is the first one.
pub proof fn lemma_first_is(s: Seq<char>, p: Seq<char>, from: int, i: int)
    requires
        0 <= from <= i,
        occurs_at(s, p, i),
        forall|j: int| from <= j < i ==> !occurs_at(s, p, j),
    ensures
        first_from(s, p, from) == Some(i),
{
    lemma_first_from(s, p, from);
    let f = first_from(s, p, from);
    assert(f is Some);
    let k = f->0;
    if k < i {
        assert(!occurs_at(s, p, k));
    } else if k > i {
        assert(!occurs_at(s, p, i));
    }
}

/// A position that fits, and behind which none fits, is the last one.
pub proof fn lemma_last_is(s: Seq<char>, p: Seq<char>, i: int)
    requires
        occurs_at(s, p, i),
        forall|j: int| i < j ==> !occurs_at(s, p, j),
    ensures
        last_of(s, p) == Some(i),
{
    lemma_last_upto(s, p, s.len() as int);
    let f = last_of(s, p);
    assert(f is Some);
    let k = f->0;
    if k < i {
        assert(!occurs_at(s, p, i));
    } else if k > i {
        assert(!occurs_at(s, p, k));
    }
}

/// Tells whether `p` stands in `s` at `i`.
pub fn matches_at(s: &[char], p: &[char], i: usize) -> (r: bool)
    requires
        i <= s@.len(),
    ensures
        r == occurs_at(s@, p@, i as int),
{
    let n = s.len();
    if p.len() > n - i {
        return false;
    }
    for k in 0..p.len()
        invariant
            n == s@.len(),
            i + p@.len() <= n,
            forall|j: int| 0 <= j < k ==> s@[i + j] == p@[j],
    {
        if s[i + k] != p[k] {
            assert(s@.subrange(i as int, i + p@.len())[k as int] != p@[k as int]);
            return false;
        }
    }
    assert(s@.subrange(i as int, i + p@.len()) =~= p@);
    true
}

/// Finds the first place at or behind `from` where `p` stands in `s`.
pub fn find_in(s: &[char], p: &[char], from: usize) -> (r: Option<usize>)
    requires
        from <= s@.len(),
    ensures
        position(r) == first_from(s@, p@, from as int),
{
    let mut i: usize = from;
    loop
        invariant
            from <= i <= s@.len(),
            first_from(s@, p@, from as int) == first_from(s@, p@, i as int),
        decreases s@.len() - i,
    {
        if p.len() > s.len() - i {
            return None;
        }
        if matches_at(s, p, i) {
            return Some(i);
        }
        if i == s.len() {
            assert(s@.subrange(i as int, i + p@.len()) == p@);
            return None;
        }
        i = i + 1;
    }
}

/// Finds the last place where `p` stands in `s`.
pub fn rfind_in(s: &[char], p: &[char]) -> (r: Option<usize>)
    ensures
        position(r) == last_of(s@, p@),
{
    let mut i: usize = s.len();
    loop
        invariant
            i <= s@.len(),
            last_of(s@, p@) == last_upto(s@, p@, i as int),
        decreases i,
    {
        if matches_at(s, p, i) {
            return Some(i);
        }
        if i == 0 {
            assert(last_upto(s@, p@, -1) is None);
            return None;
        }
        i = i - 1;
    }
}

/// Tells whether `p` stands somewhere in `s`.
pub fn contains(s: &str, p: &str) -> (r: bool)
    ensures
        r == occurs(s@, p@),
{
    let v = to_chars(s);
    let w = to_chars(p);
    proof {
        lemma_first_from(s@, p@, 0);
    }
    match find_in(&v, &w, 0) {
        Some(i) => {
            assert(occurs_at(s@, p@, i as int));
            true
        },
        None => {
            assert(!occurs(s@, p@)) by {
                if occurs(s@, p@) {
                    let i = choose|i: int| occurs_at(s@, p@, i);
                    assert(0 <= i);
                }
            }
            false
        },
    }
}

/// Tells whether `s` begins with `p`.
pub fn starts_with(s: &str, p: &str) -> (r: bool)
    ensures
        r == p@.is_prefix_of(s@),
{
    let v = to_chars(s);
    let w = to_chars(p);
    matches_at(&v, &w, 0)
}

/// Tells whether `s` ends with `p`.
pub fn ends_with(s: &str, p: &str) -> (r: bool)
    ensures
        r == p@.is_suffix_of(s@),
{
    let v = to_chars(s);
    let w = to_chars(p);
    if w.len() > v.len() {
        return false;
    }
    matches_at(&v, &w, v.len() - w.len())
}

/// Cuts `s` around the first place where `p` stands: what is before it, and what is behind it.
pub fn split_once(s: &str, p: &str) -> (r: Option<(String, String)>)
    ensures
        match first_of(s@, p@) {
            Some(i) => r matches Some((a, b)) && a@ == s@.take(i) && b@ == s@.skip(i + p@.len()),
            None => r is None,
        },
{
    let v = to_chars(s);
    let w = to_chars(p);
    proof {
        lemma_first_from(s@, p@, 0);
    }
    match find_in(&v, &w, 0) {
        Some(i) => {
            let n = v.len();
            Some((piece(&v, 0, i), piece(&v, i + w.len(), n)))
        },
        None => None,
    }
}

/// Cuts `s` around the last place where `p` stands: what is before it, and what is behind it.
pub fn rsplit_once(s: &str, p: &str) -> (r: Option<(String, String)>)
    ensures
        match last_of(s@, p@) {
            Some(i) => r matches Some((a, b)) && a@ == s@.take(i) && b@ == s@.skip(i + p@.len()),
            None => r is None,
        },
{
    let v = to_chars(s);
    let w = to_chars(p);
    proof {
        lemma_last_upto(s@, p@, s@.len() as int);
    }
    match rfind_in(&v, &w) {
        Some(i) => {
            let n = v.len();
            Some((piece(&v, 0, i), piece(&v, i + w.len(), n)))
        },
        None => None,
    }
}

// ---------------------------------------------------------------------------
// Trimming

/// `s` without the white space at its start.
pub open spec fn trimmed_start(s: Seq<char>) -> Seq<char>
    decreases s.len(),
{
    if s.len() > 0 && is_space(s[0]) {
        trimmed_start(s.drop_first())
    } else {
        s
    }
}

/// `s` without the white space at its end.
pub open spec fn trimmed_end(s: Seq<char>) -> Seq<char>
    decreases s.len(),
{
    if s.len() > 0 && is_space(s.last()) {
        trimmed_end(s.drop_last())
    } else {
        s
    }
}

/// `s` without the white space at its start and at its end.
pub open spec fn trimmed(s: Seq<char>) -> Seq<char> {
    trimmed_end(trimmed_start(s))
}

/// Every character of `s` is white space.
pub open spec fn all_space(s: Seq<char>) -> bool {
    forall|i: int| 0 <= i < s.len() ==> is_space(#[trigger] s[i])
}

/// White space put behind a text is cut off with the rest.
pub proof fn lemma_trimmed_end_behind(s: Seq<char>, w: Seq<char>)
    requires
        all_space(w),
    ensures
        trimmed_end(s + w) == trimmed_end(s),
    decreases w.len(),
{
    if w.len() > 0 {
        let v = w.drop_last();
        assert((s + w).last() == w[w.len() - 1]);
        assert((s + w).drop_last() == s + v);
        lemma_trimmed_end_behind(s, v);
    } else {
        assert(s + w == s);
    }
}

/// What is cut off the end of `s` is white space, and what is left does not end in any.
pub proof fn lemma_trimmed_end_cut(s: Seq<char>)
    ensures
        trimmed_end(s).len() <= s.len(),
        trimmed_end(s) == s.take(trimmed_end(s).len() as int),
        all_space(s.skip(trimmed_end(s).len() as int)),
        trimmed_end(s).len() > 0 ==> !is_space(trimmed_end(s).last()),
    decreases s.len(),
{
    if s.len() > 0 && is_space(s.last()) {
        let t = s.drop_last();
        lemma_trimmed_end_cut(t);
        let n = trimmed_end(t).len() as int;
        assert(s.take(n) == t.take(n));
        assert forall|i: int| 0 <= i < s.skip(n).len() implies is_space(#[trigger] s.skip(n)[i]) by {
            if i < t.skip(n).len() {
                assert(s.skip(n)[i] == t.skip(n)[i]);
            } else {
                assert(s.skip(n)[i] == s.last());
            }
        }
    } else {
        assert(s.take(s.len() as int) == s);
    }
}

/// What is cut off the start of `s` is white space, and what is left does not begin with any.
pub proof fn lemma_trimmed_start_cut(s: Seq<char>)
    ensures
        trimmed_start(s).len() <= s.len(),
        trimmed_start(s) == s.skip(s.len() - trimmed_start(s).len()),
        all_space(s.take(s.len() - trimmed_start(s).len())),
        trimmed_start(s).len() > 0 ==> !is_space(trimmed_start(s)[0]),
    decreases s.len(),
{
    if s.len() > 0 && is_space(s[0]) {
        let t = s.drop_first();
        lemma_trimmed_start_cut(t);
        let n = t.len() - trimmed_start(t).len();
        assert(s.skip(n + 1) == t.skip(n));
        assert forall|i: int| 0 <= i < s.take(n + 1).len() implies is_space(
            #[trigger] s.take(n + 1)[i],
        ) by {
            if i > 0 {
                assert(s.take(n + 1)[i] == t.take(n)[i - 1]);
            }
        }
    } else {
        assert(s.skip(0) == s);
    }
}

/// White space put before a text is cut off with the rest.
pub proof fn lemma_trimmed_start_before(w: Seq<char>, s: Seq<char>)
    requires
        all_space(w),
    ensures
        trimmed_start(w + s) == trimmed_start(s),
    decreases w.len(),
{
    if w.len() > 0 {
        assert((w + s)[0] == w[0]);
        assert((w + s).drop_first() == w.drop_first() + s);
        assert forall|i: int| 0 <= i < w.drop_first().len() implies is_space(
            #[trigger] w.drop_first()[i],
        ) by {
            assert(w.drop_first()[i] == w[i + 1]);
        }
        lemma_trimmed_start_before(w.drop_first(), s);
    } else {
        assert(w + s == s);
    }
}

/// A text that neither begins nor ends in white space is left as it is, whatever white space is put
/// around it.
pub proof fn lemma_trimmed_around(v: Seq<char>, s: Seq<char>, w: Seq<char>)
    requires
        all_space(v),
        all_space(w),
        s.len() > 0 ==> !is_space(s[0]) && !is_space(s.last()),
    ensures
        trimmed(v + s + w) == s,
{
    assert(v + s + w == v + (s + w));
    lemma_trimmed_start_before(v, s + w);
    if s.len() > 0 {
        assert((s + w)[0] == s[0]);
        lemma_trimmed_end_behind(s, w);
    } else {
        assert(s + w == w);
        assert(w + s == w);
        lemma_trimmed_start_before(w, s);
    }
}

/// `s` is white space, then `trimmed(s)`, then white space, and `trimmed(s)` has none at its ends.
pub proof fn lemma_trimmed_parts(s: Seq<char>) -> (r: (Seq<char>, Seq<char>))
    ensures
        all_space(r.0),
        all_space(r.1),
        s == r.0 + trimmed(s) + r.1,
        trimmed(s).len() > 0 ==> !is_space(trimmed(s)[0]) && !is_space(trimmed(s).last()),
{
    lemma_trimmed_start_cut(s);
    let t = trimmed_start(s);
    let k = s.len() - t.len();
    lemma_trimmed_end_cut(t);
    let n = trimmed_end(t).len() as int;
    let v = s.take(k);
    let w = t.skip(n);
    assert(t == t.take(n) + w);
    assert(s == v + t);
    assert(s == v + trimmed(s) + w);
    (v, w)
}

/// White space put around a text makes no difference to what is left when it is trimmed.
pub proof fn lemma_trimmed_padding(v: Seq<char>, s: Seq<char>, w: Seq<char>)
    requires
        all_space(v),
        all_space(w),
    ensures
        trimmed(v + s + w) == trimmed(s),
{
    let (a, b) = lemma_trimmed_parts(s);
    let m = trimmed(s);
    assert(v + s + w == (v + a) + m + (b + w));
    assert forall|i: int| 0 <= i < (v + a).len() implies is_space(#[trigger] (v + a)[i]) by {
        if i < v.len() {
            assert((v + a)[i] == v[i]);
        } else {
            assert((v + a)[i] == a[i - v.len()]);
        }
    }
    assert forall|i: int| 0 <= i < (b + w).len() implies is_space(#[trigger] (b + w)[i]) by {
        if i < b.len() {
            assert((b + w)[i] == b[i]);
        } else {
            assert((b + w)[i] == w[i - b.len()]);
        }
    }
    lemma_trimmed_around(v + a, m, b + w);
}

/// To trim twice is to trim once.
pub proof fn lemma_trimmed_twice(s: Seq<char>)
    ensures
        trimmed(trimmed(s)) == trimmed(s),
{
    let (_, _) = lemma_trimmed_parts(s);
    let e = Seq::<char>::empty();
    lemma_trimmed_around(e, trimmed(s), e);
    assert(e + trimmed(s) + e == trimmed(s));
}

/// Trimming the end first makes no difference.
pub proof fn lemma_trimmed_of_end(s: Seq<char>, w: Seq<char>)
    requires
        all_space(w),
    ensures
        trimmed(trimmed_end(s) + w) == trimmed(s),
{
    lemma_trimmed_end_cut(s);
    let t = trimmed_end(s);
    let rest = s.skip(t.len() as int);
    let e = Seq::<char>::empty();
    assert(s == e + t + rest);
    assert(t + w == e + t + w);
    lemma_trimmed_padding(e, t, rest);
    lemma_trimmed_padding(e, t, w);
}

/// Counts the white space at the start of `v`.
fn leading_space(v: &[char]) -> (n: usize)
    ensures
        n <= v@.len(),
        trimmed_start(v@) == v@.skip(n as int),
{
    let mut n: usize = 0;
    assert(v@.skip(0) == v@);
    while n < v.len() && space(v[n])
        invariant
            n <= v@.len(),
            trimmed_start(v@) == trimmed_start(v@.skip(n as int)),
        decreases v@.len() - n,
    {
        assert(v@.skip(n as int).drop_first() == v@.skip(n + 1));
        n = n + 1;
    }
    n
}

/// Finds where the white space at the end of `v` begins, not looking before `from`.
fn trailing_space(v: &[char], from: usize) -> (n: usize)
    requires
        from <= v@.len(),
    ensures
        from <= n <= v@.len(),
        trimmed_end(v@.skip(from as int)) == v@.subrange(from as int, n as int),
{
    let mut n: usize = v.len();
    assert(v@.skip(from as int) == v@.subrange(from as int, n as int));
    while n > from && space(v[n - 1])
        invariant
            from <= n <= v@.len(),
            trimmed_end(v@.skip(from as int)) == trimmed_end(v@.subrange(from as int, n as int)),
        decreases n,
    {
        assert(v@.subrange(from as int, n as int).drop_last() == v@.subrange(
            from as int,
            n - 1,
        ));
        n = n - 1;
    }
    n
}

/// Cuts the white space off the start of `s`.
pub fn trim_start(s: &str) -> (r: String)
    ensures
        r@ == trimmed_start(s@),
{
    let v = to_chars(s);
    let a = leading_space(&v);
    piece(&v, a, v.len())
}

/// Cuts the white space off the end of `s`.
pub fn trim_end(s: &str) -> (r: String)
    ensures
        r@ == trimmed_end(s@),
{
    let v = to_chars(s);
    let b = trailing_space(&v, 0);
    assert(v@.skip(0) == v@);
    piece(&v, 0, b)
}

/// Cuts the white space off both ends of `s`.
pub fn trim(s: &str) -> (r: String)
    ensures
        r@ == trimmed(s@),
{
    let v = to_chars(s);
    let a = leading_space(&v);
    let b = trailing_space(&v, a);
    piece(&v, a, b)
}

/// Tells whether `s` holds nothing but white space.
pub fn is_blank(s: &str) -> (r: bool)
    ensures
        r == (trimmed(s@).len() == 0),
{
    trim(s).as_str().is_empty()
}

/// `s` without the characters `c` at its start.
pub open spec fn without_leading(s: Seq<char>, c: char) -> Seq<char>
    decreases s.len(),
{
    if s.len() > 0 && s[0] == c {
        without_leading(s.drop_first(), c)
    } else {
        s
    }
}

/// Cuts the characters `c` off the start of `s`.
pub fn trim_start_char(s: &str, c: char) -> (r: String)
    ensures
        r@ == without_leading(s@, c),
{
    let v = to_chars(s);
    let mut n: usize = 0;
    assert(v@.skip(0) == v@);
    while n < v.len() && v[n] == c
        invariant
            n <= v@.len(),
            without_leading(v@, c) == without_leading(v@.skip(n as int), c),
        decreases v@.len() - n,
    {
        assert(v@.skip(n as int).drop_first() == v@.skip(n + 1));
        n = n + 1;
    }
    piece(&v, n, v.len())
}

/// `s` without the copies of `p` at its start.
pub open spec fn without_leading_copies(s: Seq<char>, p: Seq<char>) -> Seq<char>
    decreases s.len(),
{
    if p.len() > 0 && p.is_prefix_of(s) {
        without_leading_copies(s.skip(p.len() as int), p)
    } else {
        s
    }
}

/// Cuts the copies of `p` off the start of `s`.
pub fn trim_start_copies(s: &str, p: &str) -> (r: String)
    ensures
        r@ == without_leading_copies(s@, p@),
{
    let v = to_chars(s);
    let w = to_chars(p);
    let mut n: usize = 0;
    assert(v@.skip(0) == v@);
    while w.len() > 0 && matches_at(&v, &w, n)
        invariant
            n <= v@.len(),
            w@ == p@,
            without_leading_copies(v@, p@) == without_leading_copies(v@.skip(n as int), p@),
        decreases v@.len() - n,
    {
        assert(v@.skip(n as int).subrange(0, w@.len() as int) == v@.subrange(
            n as int,
            n + w@.len(),
        ));
        assert(v@.skip(n as int).skip(w@.len() as int) == v@.skip(n + w@.len()));
        assert(n + w@.len() <= v.len());
        n = n + w.len();
    }
    assert(w@.len() > 0 && w@.is_prefix_of(v@.skip(n as int)) ==> occurs_at(v@, w@, n as int)) by {
        if w@.len() > 0 && w@.is_prefix_of(v@.skip(n as int)) {
            assert(v@.skip(n as int).subrange(0, w@.len() as int) == v@.subrange(
                n as int,
                n + w@.len(),
            ));
        }
    }
    piece(&v, n, v.len())
}

/// `s` without `p` at its end, where it ends so.
pub open spec fn without_suffix(s: Seq<char>, p: Seq<char>) -> Seq<char> {
    if p.is_suffix_of(s) {
        s.take(s.len() - p.len())
    } else {
        s
    }
}

/// Cuts `p` off the end of `s`, where `s` ends so.
pub fn trim_suffix(s: &str, p: &str) -> (r: String)
    ensures
        r@ == without_suffix(s@, p@),
{
    if ends_with(s, p) {
        let v = to_chars(s);
        let w = to_chars(p);
        piece(&v, 0, v.len() - w.len())
    } else {
        s.to_owned()
    }
}

// ---------------------------------------------------------------------------
// Case

/// `s` with its ASCII capital letters made small.
pub open spec fn lowered(s: Seq<char>) -> Seq<char> {
    Seq::new(s.len(), |i: int| lower_char(s[i]))
}

/// To make letters small twice is to do it once.
pub proof fn lemma_lowered_twice(s: Seq<char>)
    ensures
        lowered(lowered(s)) == lowered(s),
{
}

/// Makes the ASCII capital letters of `s` small.
pub fn to_lower(s: &str) -> (r: String)
    ensures
        r@ == lowered(s@),
{
    let v = to_chars(s);
    let mut r = String::new();
    for i in 0..v.len()
        invariant
            v@ == s@,
            r@ == lowered(s@).take(i as int),
    {
        r.push(ascii_lower(v[i]));
    }
    r
}

/// Tells whether two strings are equal but for the case of ASCII letters.
pub fn same_ignoring_case(a: &str, b: &str) -> (r: bool)
    ensures
        r == (lowered(a@) == lowered(b@)),
{
    same(&to_lower(a), &to_lower(b))
}

// ---------------------------------------------------------------------------
// Replacing

/// `s` with every copy of `from`, read from the left and without overlaps, replaced by `to`.
pub open spec fn replaced(s: Seq<char>, from: Seq<char>, to: Seq<char>) -> Seq<char>
    decreases s.len(),
{
    if from.len() == 0 || s.len() < from.len() {
        s
    } else if from.is_prefix_of(s) {
        to + replaced(s.skip(from.len() as int), from, to)
    } else {
        seq![s[0]] + replaced(s.drop_first(), from, to)
    }
}

/// Where what `from` begins with does not occur, nothing is replaced.
pub proof fn lemma_nothing_replaced(s: Seq<char>, from: Seq<char>, to: Seq<char>)
    requires
        from.len() > 0,
        !s.contains(from[0]),
    ensures
        replaced(s, from, to) == s,
    decreases s.len(),
{
    if s.len() >= from.len() {
        if from.is_prefix_of(s) {
            lemma_begins(from, s);
            assert(s[0] == from[0]);
        } else {
            let t = s.drop_first();
            assert forall|i: int| 0 <= i < t.len() implies #[trigger] t[i] != from[0] by {
                assert(t[i] == s[i + 1]);
            }
            lemma_nothing_replaced(t, from, to);
            assert(seq![s[0]] + t == s);
        }
    }
}

/// Replaces every copy of `from` in `s` by `to`.
pub fn replace(s: &str, from: &str, to: &str) -> (r: String)
    requires
        from@.len() > 0,
    ensures
        r@ == replaced(s@, from@, to@),
{
    let v = to_chars(s);
    let w = to_chars(from);
    let mut r = String::new();
    let mut i: usize = 0;
    assert(v@.skip(0) == v@);
    while w.len() <= v.len() - i
        invariant
            i <= v@.len(),
            v@ == s@,
            w@ == from@,
            w@.len() > 0,
            replaced(s@, from@, to@) == r@ + replaced(s@.skip(i as int), from@, to@),
        decreases v@.len() - i,
    {
        let ghost rest = s@.skip(i as int);
        if matches_at(&v, &w, i) {
            assert(rest.subrange(0, w@.len() as int) == v@.subrange(i as int, i + w@.len()));
            assert(rest.skip(w@.len() as int) == s@.skip(i + w@.len()));
            r.append(to);
            i = i + w.len();
        } else {
            assert(!from@.is_prefix_of(rest)) by {
                assert(rest.subrange(0, w@.len() as int) == v@.subrange(i as int, i + w@.len()));
            }
            assert(rest.drop_first() == s@.skip(i + 1));
            let ghost before = r@;
            r.push(v[i]);
            assert(before + (seq![v@[i as int]] + replaced(s@.skip(i + 1), from@, to@)) == r@
                + replaced(s@.skip(i + 1), from@, to@));
            i = i + 1;
        }
    }
    let tail = piece(&v, i, v.len());
    r.append(&tail);
    r
}

// ---------------------------------------------------------------------------
// Lines and words

/// How many characters of `s` stand before the first `c`.
pub open spec fn span(s: Seq<char>, c: char) -> nat
    decreases s.len(),
{
    if s.len() == 0 || s[0] == c {
        0
    } else {
        1 + span(s.drop_first(), c)
    }
}

/// Before its first `c` a text holds no `c`.
pub proof fn lemma_span(s: Seq<char>, c: char)
    ensures
        span(s, c) <= s.len(),
        forall|i: int| 0 <= i < span(s, c) ==> #[trigger] s[i] != c,
        span(s, c) < s.len() ==> s[span(s, c) as int] == c,
    decreases s.len(),
{
    if s.len() > 0 && s[0] != c {
        let t = s.drop_first();
        lemma_span(t, c);
        assert forall|i: int| 0 <= i < span(s, c) implies #[trigger] s[i] != c by {
            if i > 0 {
                assert(s[i] == t[i - 1]);
            }
        }
        if span(s, c) < s.len() {
            assert(s[span(s, c) as int] == t[span(t, c) as int]);
        }
    }
}

/// A text that holds its first `c` at `n` has a span of that length.
pub proof fn lemma_span_is(s: Seq<char>, c: char, n: int)
    requires
        0 <= n <= s.len(),
        forall|i: int| 0 <= i < n ==> #[trigger] s[i] != c,
        n < s.len() ==> s[n] == c,
    ensures
        span(s, c) == n,
    decreases s.len(),
{
    if n > 0 {
        let t = s.drop_first();
        assert forall|i: int| 0 <= i < n - 1 implies #[trigger] t[i] != c by {
            assert(t[i] == s[i + 1]);
        }
        assert(s[0] != c);
        if n < s.len() {
            assert(t[n - 1] == s[n]);
        }
        lemma_span_is(t, c, n - 1);
    }
}

/// Counts the characters from `from` on that stand before the first `c`, and gives where it stands.
pub fn span_in(v: &[char], c: char, from: usize) -> (i: usize)
    requires
        from <= v@.len(),
    ensures
        from <= i <= v@.len(),
        i == from + span(v@.skip(from as int), c),
        i < v@.len() ==> v@[i as int] == c,
{
    let mut i: usize = from;
    while i < v.len() && v[i] != c
        invariant
            from <= i <= v@.len(),
            from + span(v@.skip(from as int), c) == i + span(v@.skip(i as int), c),
        decreases v@.len() - i,
    {
        assert(v@.skip(i as int).drop_first() == v@.skip(i + 1));
        i = i + 1;
    }
    i
}

/// The part of `s` before the first `c`, or all of `s`.
pub open spec fn before(s: Seq<char>, c: char) -> Seq<char> {
    s.take(span(s, c) as int)
}

/// Takes the part of `s` before the first `c`.
pub fn take_before(s: &str, c: char) -> (r: String)
    ensures
        r@ == before(s@, c),
{
    let v = to_chars(s);
    let i = span_in(&v, c, 0);
    assert(v@.skip(0) == v@);
    piece(&v, 0, i)
}

/// A line without the carriage return at its end.
pub open spec fn without_return(s: Seq<char>) -> Seq<char> {
    if s.len() > 0 && s.last() == '\r' {
        s.drop_last()
    } else {
        s
    }
}

/// The lines of `s`: each ends at a line feed or at a carriage return with a line feed, the last
/// one also at the end of `s`.
pub open spec fn line_list(s: Seq<char>) -> Seq<Seq<char>>
    decreases s.len(),
{
    if s.len() == 0 {
        seq![]
    } else {
        let i = span(s, '\n');
        if i >= s.len() {
            seq![s]
        } else {
            seq![without_return(s.take(i as int))] + line_list(s.skip(i as int + 1))
        }
    }
}

/// Cuts `s` into its lines.
pub fn lines(s: &str) -> (r: Vec<String>)
    ensures
        strings(r@) == line_list(s@),
{
    let v = to_chars(s);
    let mut r: Vec<String> = Vec::new();
    let mut i: usize = 0;
    assert(v@.skip(0) == v@);
    assert(strings(r@) + line_list(s@.skip(0)) == line_list(s@));
    while i < v.len()
        invariant
            i <= v@.len(),
            v@ == s@,
            strings(r@) + line_list(s@.skip(i as int)) == line_list(s@),
        decreases v@.len() - i,
    {
        let j = span_in(&v, '\n', i);
        let ghost rest = s@.skip(i as int);
        let ghost before = strings(r@);
        if j == v.len() {
            let last = piece(&v, i, j);
            assert(last@ == rest);
            r.push(last);
            assert(strings(r@) == before + seq![rest]);
            assert(line_list(s@.skip(j as int)) == Seq::<Seq<char>>::empty());
            i = j;
        } else {
            assert(rest.take(j - i) == s@.subrange(i as int, j as int));
            assert(rest.skip(j - i + 1) == s@.skip(j + 1));
            let end: usize = if j > i && v[j - 1] == '\r' {
                j - 1
            } else {
                j
            };
            let line = piece(&v, i, end);
            assert(line@ == without_return(rest.take(j - i)));
            r.push(line);
            assert(strings(r@) == before + seq![line@]);
            i = j + 1;
            assert(before + (seq![line@] + line_list(s@.skip(i as int))) == strings(r@) + line_list(
                s@.skip(i as int),
            ));
        }
    }
    assert(line_list(s@.skip(i as int)) == Seq::<Seq<char>>::empty());
    assert(strings(r@) + Seq::<Seq<char>>::empty() == strings(r@));
    r
}

/// The members of `list`, one behind the other with `sep` between them.
pub open spec fn joined(list: Seq<Seq<char>>, sep: Seq<char>) -> Seq<char>
    decreases list.len(),
{
    if list.len() == 0 {
        seq![]
    } else if list.len() == 1 {
        list[0]
    } else {
        joined(list.drop_last(), sep) + sep + list.last()
    }
}

/// Puts the members of `list` one behind the other with `sep` between them.
pub fn join(list: &[String], sep: &str) -> (r: String)
    ensures
        r@ == joined(strings(list@), sep@),
{
    let mut r = String::new();
    let ghost all = strings(list@);
    for i in 0..list.len()
        invariant
            all == strings(list@),
            r@ == joined(all.take(i as int), sep@),
    {
        assert(all.take(i + 1).drop_last() == all.take(i as int));
        if i > 0 {
            r.append(sep);
        }
        r.append(list[i].as_str());
    }
    assert(all.take(list@.len() as int) == all);
    r
}

/// How many characters of `s` stand before its first white space.
pub open spec fn word_len(s: Seq<char>) -> nat
    decreases s.len(),
{
    if s.len() == 0 || is_space(s[0]) {
        0
    } else {
        1 + word_len(s.drop_first())
    }
}

/// The first word of `s`: what stands before the first white space once leading white space is
/// gone. It is empty when `s` is blank.
pub open spec fn first_word(s: Seq<char>) -> Seq<char> {
    let t = trimmed_start(s);
    t.take(word_len(t) as int)
}

/// Takes the first word of `s`.
pub fn take_word(s: &str) -> (r: String)
    ensures
        r@ == first_word(s@),
{
    let v = to_chars(s);
    let a = leading_space(&v);
    let mut i: usize = a;
    while i < v.len() && !space(v[i])
        invariant
            a <= i <= v@.len(),
            a + word_len(v@.skip(a as int)) == i + word_len(v@.skip(i as int)),
        decreases v@.len() - i,
    {
        assert(v@.skip(i as int).drop_first() == v@.skip(i + 1));
        i = i + 1;
    }
    assert(v@.skip(a as int).take(i - a) == v@.subrange(a as int, i as int));
    piece(&v, a, i)
}

/// The first `n` characters of `s`, or all of `s` where it has fewer.
pub open spec fn at_most(s: Seq<char>, n: int) -> Seq<char> {
    if s.len() <= n {
        s
    } else {
        s.take(n)
    }
}

/// Counts the characters of `s`.
pub fn char_count(s: &str) -> (n: usize)
    ensures
        n == s@.len(),
{
    to_chars(s).len()
}

/// Takes the first `n` characters of `s`.
pub fn take_chars(s: &str, n: usize) -> (r: String)
    ensures
        r@ == at_most(s@, n as int),
{
    let v = to_chars(s);
    if v.len() <= n {
        s.to_owned()
    } else {
        piece(&v, 0, n)
    }
}

// ---------------------------------------------------------------------------
// Numbers

/// The number that the decimal digits `s` stand for.
pub open spec fn decimal(s: Seq<char>) -> nat
    decreases s.len(),
{
    if s.len() == 0 {
        0
    } else {
        10 * decimal(s.drop_last()) + (s.last() as u32 - '0' as u32) as nat
    }
}

/// The number written in `s`: decimal digits only, at least one of them, and small enough.
pub open spec fn number(s: Seq<char>) -> Option<usize> {
    if s.len() > 0 && (forall|i: int| 0 <= i < s.len() ==> is_digit(#[trigger] s[i])) && decimal(s)
        <= usize::MAX {
        Some(decimal(s) as usize)
    } else {
        None
    }
}

/// More digits never make the number smaller.
proof fn lemma_decimal_grows(s: Seq<char>, n: int)
    requires
        0 <= n <= s.len(),
        forall|i: int| 0 <= i < s.len() ==> is_digit(#[trigger] s[i]),
    ensures
        decimal(s.take(n)) <= decimal(s),
    decreases s.len() - n,
{
    if n < s.len() {
        lemma_decimal_grows(s, n + 1);
        assert(s.take(n + 1).drop_last() == s.take(n));
    } else {
        assert(s.take(n) == s);
    }
}

/// Reads a number.
pub fn parse_number(s: &str) -> (r: Option<usize>)
    ensures
        r == number(s@),
{
    let v = to_chars(s);
    if v.len() == 0 {
        return None;
    }
    for i in 0..v.len()
        invariant
            v@ == s@,
            forall|j: int| 0 <= j < i ==> is_digit(#[trigger] s@[j]),
    {
        if !digit(v[i]) {
            assert(!is_digit(s@[i as int]));
            return None;
        }
    }
    let mut n: usize = 0;
    for i in 0..v.len()
        invariant
            v@ == s@,
            forall|j: int| 0 <= j < s@.len() ==> is_digit(#[trigger] s@[j]),
            n == decimal(s@.take(i as int)),
    {
        let d: usize = (v[i] as u32 - '0' as u32) as usize;
        assert(is_digit(s@[i as int]));
        assert(s@.take(i + 1).drop_last() == s@.take(i as int));
        proof {
            lemma_decimal_grows(s@, i + 1);
        }
        if n > (usize::MAX - d) / 10 {
            return None;
        }
        n = 10 * n + d;
    }
    assert(s@.take(s@.len() as int) == s@);
    Some(n)
}

// ---------------------------------------------------------------------------
// Bytes

/// How many bytes the UTF-8 form of `s` takes.
pub open spec fn byte_len(s: Seq<char>) -> nat {
    encode_utf8(s).len()
}

/// Counts the bytes of `s`.
pub fn bytes_in(s: &str) -> (n: usize)
    ensures
        n == byte_len(s@),
{
    s.as_bytes().len()
}

/// The byte position `i` of `s` lies between two characters or at an end.
pub open spec fn on_boundary(s: Seq<char>, i: int) -> bool {
    0 <= i <= byte_len(s) && is_char_boundary(encode_utf8(s), i)
}

/// The characters of `s` between the byte positions `a` and `b`.
pub open spec fn byte_slice(s: Seq<char>, a: int, b: int) -> Seq<char> {
    decode_utf8(encode_utf8(s).subrange(a, b))
}

/// Both ends of a text lie on a boundary.
pub proof fn lemma_ends_on_boundary(s: Seq<char>)
    ensures
        on_boundary(s, 0),
        on_boundary(s, byte_len(s) as int),
{
    vstd::utf8::encode_utf8_valid_utf8(s);
    vstd::utf8::is_char_boundary_start_end_of_seq(encode_utf8(s));
}

/// A text in UTF-8 is the UTF-8 of its parts.
pub proof fn lemma_encoded_parts(a: Seq<char>, b: Seq<char>)
    ensures
        encode_utf8(a + b) == encode_utf8(a) + encode_utf8(b),
    decreases a.len(),
{
    if a.len() == 0 {
        assert(a + b == b);
        assert(encode_utf8(a) + encode_utf8(b) == encode_utf8(b));
    } else {
        let t = a.drop_first();
        assert((a + b)[0] == a[0]);
        assert((a + b).drop_first() == t + b);
        lemma_encoded_parts(t, b);
    }
}

/// The bytes of a part of a text stand for that part.
pub proof fn lemma_slice_of_part(a: Seq<char>, b: Seq<char>, c: Seq<char>)
    ensures
        byte_slice(a + b + c, byte_len(a) as int, byte_len(a + b) as int) == b,
        byte_len(a + b) == byte_len(a) + byte_len(b),
        byte_len(a + b + c) == byte_len(a) + byte_len(b) + byte_len(c),
{
    lemma_encoded_parts(a + b, c);
    lemma_encoded_parts(a, b);
    let n = byte_len(a) as int;
    let m = byte_len(a + b) as int;
    assert(encode_utf8(a + b + c).subrange(n, m) == encode_utf8(b));
    encode_utf8_decode_utf8(b);
}

/// A text is what stands before a boundary and what stands behind it.
pub proof fn lemma_byte_parts(s: Seq<char>, i: int)
    requires
        on_boundary(s, i),
    ensures
        s == byte_slice(s, 0, i) + byte_slice(s, i, byte_len(s) as int),
{
    vstd::utf8::encode_utf8_valid_utf8(s);
    encode_utf8_decode_utf8(s);
    vstd::utf8::decode_utf8_split(encode_utf8(s), i);
}

/// What stands before a boundary, and what stands between it and a later one, make up what stands
/// before the later one.
pub proof fn lemma_bytes_join(s: Seq<char>, b: int, c: int)
    requires
        b <= c,
        on_boundary(s, b),
        on_boundary(s, c),
    ensures
        byte_slice(s, 0, b) + byte_slice(s, b, c) == byte_slice(s, 0, c),
{
    let whole = encode_utf8(s);
    let part = whole.subrange(0, c);
    vstd::utf8::encode_utf8_valid_utf8(s);
    vstd::utf8::valid_utf8_split(whole, c);
    assert(is_char_boundary(part, b)) by {
        if b < c {
            vstd::utf8::is_char_boundary_iff_not_is_continuation_byte(whole, b);
            vstd::utf8::is_char_boundary_iff_not_is_continuation_byte(part, b);
            assert(part[b] == whole[b]);
        } else {
            vstd::utf8::is_char_boundary_start_end_of_seq(part);
        }
    }
    vstd::utf8::decode_utf8_split(part, b);
    assert(part.subrange(0, b) == whole.subrange(0, b));
    assert(part.subrange(b, part.len() as int) == whole.subrange(b, c));
}

/// Cuts out the characters between two byte positions.
pub fn slice_bytes<'a>(s: &'a str, a: usize, b: usize) -> (r: &'a str)
    requires
        a <= b,
        on_boundary(s@, a as int),
        on_boundary(s@, b as int),
    ensures
        r@ == byte_slice(s@, a as int, b as int),
        encode_utf8(r@) == encode_utf8(s@).subrange(a as int, b as int),
{
    let (head, _) = s.split_at(b);
    proof {
        vstd::utf8::encode_utf8_valid_utf8(s@);
        vstd::utf8::encode_utf8_valid_utf8(head@);
    }
    let ghost whole = encode_utf8(s@);
    let ghost part = encode_utf8(head@);
    assert(is_char_boundary(part, a as int)) by {
        if a < b {
            vstd::utf8::is_char_boundary_iff_not_is_continuation_byte(whole, a as int);
            vstd::utf8::is_char_boundary_iff_not_is_continuation_byte(part, a as int);
            assert(part[a as int] == whole[a as int]);
        } else {
            vstd::utf8::is_char_boundary_start_end_of_seq(part);
        }
    }
    let (_, r) = head.split_at(a);
    proof {
        encode_utf8_decode_utf8(r@);
        assert(part.subrange(a as int, b as int) == whole.subrange(a as int, b as int));
    }
    r
}

} // verus!
