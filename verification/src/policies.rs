//! Policies that say which applications copied content is cleaned for or not taken from.

use vstd::prelude::*;

use crate::chars::is_space;
use crate::regexes::{found, pattern_found};
use crate::text::{
    before, contains, is_blank, last_of, lemma_last_is, lemma_lowered_twice, lemma_span_is,
    lemma_trimmed_around, lemma_trimmed_parts, lemma_trimmed_twice, lowered, occurs, occurs_at,
    piece, replace, replaced,
    rsplit_once, same, same_ignoring_case, str_opt, string_opt, strings, take_before, to_chars,
    to_lower, trim, trim_suffix, trimmed, without_suffix,
};

verus! {

/// What is done with content from an application.
#[derive(Debug, Clone, PartialEq, Eq)]
pub struct AppCleanupPolicy {
    /// The name of the policy.
    pub id: String,
    /// The policy is in force.
    pub enabled: bool,
    /// The application by its name.
    pub app_name: String,
    /// The application by its path.
    pub app_path: String,
    /// What is done: `clean` or `ignore`.
    pub action: String,
    /// The kinds of content that the policy is for.
    pub content_types: Vec<String>,
    /// The rules, one to a line.
    pub cleanup_rules: String,
}

/// Whether a policy is in force that does not say so.
pub fn default_policy_enabled() -> (r: bool)
    ensures
        r,
{
    true
}

/// What a policy does that does not say so.
pub fn default_policy_action() -> (r: String)
    ensures
        r@ == "clean"@,
{
    "clean".to_owned()
}

/// What a policy is for that does not say so.
pub fn default_policy_content_types() -> (r: Vec<String>)
    ensures
        strings(r@) == seq![
            "text"@,
            "code"@,
            "url"@,
            "rich_text"@,
            "image"@,
            "file"@,
            "video"@,
        ],
{
    let mut r: Vec<String> = Vec::new();
    r.push("text".to_owned());
    r.push("code".to_owned());
    r.push("url".to_owned());
    r.push("rich_text".to_owned());
    r.push("image".to_owned());
    r.push("file".to_owned());
    r.push("video".to_owned());
    r
}

// ---------------------------------------------------------------------------
// Names of programs

/// What stands in `s` behind its last slash or backslash.
pub open spec fn file_part(s: Seq<char>) -> Seq<char>
    decreases s.len(),
{
    if s.len() == 0 || s.last() == '\\' || s.last() == '/' {
        seq![]
    } else {
        file_part(s.drop_last()).push(s.last())
    }
}

/// The name of the program that `value` gives by name or by path: in small letters and without its
/// extension.
pub open spec fn program_name(value: Seq<char>) -> Option<Seq<char>> {
    let file = lowered(trimmed(file_part(trimmed(value))));
    let name = trimmed(without_suffix(file, ".exe"@));
    if name.len() == 0 {
        None
    } else {
        Some(name)
    }
}

/// Both give the same program.
pub open spec fn same_program(left: Seq<char>, right: Seq<char>) -> bool {
    program_name(left) is Some && program_name(left) == program_name(right)
}

/// The path lies in the package that `app_id` names. Such a name is the family of a package, an
/// exclamation mark and the application; the family is the package and its publisher, with an
/// underscore between them.
pub open spec fn is_packaged(app_id: Seq<char>, path: Seq<char>) -> bool {
    let id = trimmed(app_id);
    let family = trimmed(before(id, '!'));
    let place = lowered(replaced(trimmed(path), "/"@, "\\"@));
    occurs(id, "!"@) && match last_of(family, "_"@) {
        Some(i) => {
            let package = lowered(trimmed(family.take(i)));
            let publisher = lowered(trimmed(family.skip(i + 1)));
            package.len() > 0 && publisher.len() > 0 && occurs(place, package) && occurs(
                place,
                publisher,
            )
        },
        None => false,
    }
}

/// Cuts what stands behind the last slash or backslash.
fn cut_file_part(s: &str) -> (r: String)
    ensures
        r@ == file_part(s@),
{
    let v = to_chars(s);
    let n = v.len();
    let mut i: usize = n;
    assert(v@.take(n as int) == v@);
    assert(v@.subrange(n as int, n as int) == Seq::<char>::empty());
    while i > 0 && v[i - 1] != '\\' && v[i - 1] != '/'
        invariant
            i <= n,
            n == v@.len(),
            file_part(v@) == file_part(v@.take(i as int)) + v@.subrange(i as int, n as int),
        decreases i,
    {
        assert(v@.take(i as int).drop_last() == v@.take(i - 1));
        assert(v@.subrange(i - 1, n as int) == seq![v@[i - 1]] + v@.subrange(i as int, n as int));
        i = i - 1;
    }
    assert(file_part(v@.take(i as int)) == Seq::<char>::empty());
    piece(&v, i, n)
}

/// Finds the name of the program that `value` gives.
pub fn normalize_executable_name(value: &str) -> (r: Option<String>)
    ensures
        string_opt(r) == program_name(value@),
{
    let file = to_lower(&trim(&cut_file_part(&trim(value))));
    let name = trim(&trim_suffix(&file, ".exe"));
    if name.as_str().is_empty() {
        None
    } else {
        Some(name)
    }
}

/// Tells whether both give the same program.
pub fn executable_name_matches(left: &str, right: &str) -> (r: bool)
    ensures
        r == same_program(left@, right@),
{
    match (normalize_executable_name(left), normalize_executable_name(right)) {
        (Some(left), Some(right)) => same(&left, &right),
        _ => false,
    }
}

/// Tells whether the path lies in the package that `app_id` names.
pub fn app_id_matches_process_path(app_id: &str, process_path: &str) -> (r: bool)
    ensures
        r == is_packaged(app_id@, process_path@),
{
    let id = trim(app_id);
    proof {
        reveal_strlit("_");
        reveal_strlit("/");
    }
    if !contains(&id, "!") {
        return false;
    }
    let family = trim(&take_before(&id, '!'));
    match rsplit_once(&family, "_") {
        Some((package, publisher)) => {
            let place = to_lower(&replace(&trim(process_path), "/", "\\"));
            let package = to_lower(&trim(&package));
            let publisher = to_lower(&trim(&publisher));
            !package.as_str().is_empty() && !publisher.as_str().is_empty() && contains(
                &place,
                &package,
            ) && contains(&place, &publisher)
        },
        None => false,
    }
}

// ---------------------------------------------------------------------------
// Policies

/// The policy is in force and says which application it is for.
pub open spec fn is_active(policy: AppCleanupPolicy) -> bool {
    policy.enabled && (trimmed(policy.app_path@).len() > 0 || trimmed(policy.app_name@).len() > 0)
}

/// The policies that are in force and say which application they are for.
pub open spec fn active_policies(policies: Seq<AppCleanupPolicy>) -> Seq<AppCleanupPolicy>
    decreases policies.len(),
{
    if policies.len() == 0 {
        seq![]
    } else {
        let rest = active_policies(policies.drop_last());
        if is_active(policies.last()) {
            rest.push(policies.last())
        } else {
            rest
        }
    }
}

/// `kind` is among `kinds`, whatever its case.
pub open spec fn is_kind_of(kinds: Seq<Seq<char>>, kind: Seq<char>) -> bool {
    exists|i: int| 0 <= i < kinds.len() && lowered(#[trigger] kinds[i]) == lowered(kind)
}

/// The policy is for content of this kind. One that ignores an application and names no kind is for
/// all of them.
pub open spec fn is_for_kind(policy: AppCleanupPolicy, kind: Seq<char>) -> bool {
    is_kind_of(strings(policy.content_types@), kind) || (policy.content_types@.len() == 0
        && lowered(policy.action@) == lowered("ignore"@))
}

/// The regular expression that stands between slashes.
pub open spec fn between_slashes(s: Seq<char>) -> Option<Seq<char>> {
    if s.len() >= 2 && s[0] == '/' && s.last() == '/' {
        Some(s.subrange(1, s.len() - 1))
    } else {
        None
    }
}

/// `value` is what `wanted` gives: a regular expression between slashes, the same text, or a
/// program.
pub open spec fn is_meant(wanted: Seq<char>, value: Seq<char>) -> bool {
    ||| between_slashes(wanted) matches Some(p) && pattern_found(p, value)
    ||| lowered(wanted) == lowered(value)
    ||| same_program(wanted, value)
}

/// The policy is for the application with this name and this path.
pub open spec fn is_for_app(policy: AppCleanupPolicy, app: Seq<char>, path: Seq<char>) -> bool {
    let wanted_path = trimmed(policy.app_path@);
    let wanted_name = trimmed(policy.app_name@);
    ||| wanted_path.len() > 0 && path.len() > 0 && (is_meant(wanted_path, path) || is_packaged(
        wanted_path,
        path,
    ))
    ||| wanted_name.len() > 0 && (is_meant(wanted_name, app) || same_program(wanted_name, path))
    ||| wanted_path.len() > 0 && app.len() > 0 && same_program(wanted_path, app)
}

/// The policy is for content of this kind from the application with this name and this path.
pub open spec fn policy_holds(
    policy: AppCleanupPolicy,
    source_app: Seq<char>,
    source_app_path: Option<Seq<char>>,
    content_type: Seq<char>,
) -> bool {
    let path = match source_app_path {
        Some(p) => trimmed(p),
        None => seq![],
    };
    is_for_kind(policy, content_type) && is_for_app(policy, trimmed(source_app), path)
}

/// Keeps the policies that are in force and say which application they are for. Nothing was parsed
/// where the stored policies could not be read.
pub fn parse_app_cleanup_policies(parsed: Option<Vec<AppCleanupPolicy>>) -> (r: Vec<
    AppCleanupPolicy,
>)
    ensures
        match parsed {
            Some(policies) => r@ == active_policies(policies@),
            None => r@.len() == 0,
        },
{
    let mut r: Vec<AppCleanupPolicy> = Vec::new();
    let policies = match parsed {
        Some(policies) => policies,
        None => return r,
    };
    let ghost all = policies@;
    for policy in it: policies
        invariant
            it.seq() == all,
            r@ == active_policies(all.take(it.index())),
    {
        assert(all.take(it.index() + 1).drop_last() == all.take(it.index()));
        assert(all.take(it.index() + 1).last() == policy);
        if policy.enabled && (!is_blank(&policy.app_path) || !is_blank(&policy.app_name)) {
            r.push(policy);
        }
    }
    assert(all.take(all.len() as int) == all);
    r
}

/// Tells whether `kind` is among `kinds`, whatever its case.
fn has_kind_of(kinds: &Vec<String>, kind: &str) -> (r: bool)
    ensures
        r == is_kind_of(strings(kinds@), kind@),
{
    for i in 0..kinds.len()
        invariant
            forall|j: int| 0 <= j < i ==> lowered(#[trigger] strings(kinds@)[j]) != lowered(kind@),
    {
        assert(strings(kinds@)[i as int] == kinds@[i as int]@);
        if same_ignoring_case(&kinds[i], kind) {
            return true;
        }
    }
    false
}

/// Cuts out the regular expression that stands between slashes.
pub fn cut_between_slashes(s: &str) -> (r: Option<String>)
    ensures
        string_opt(r) == between_slashes(s@),
{
    let v = to_chars(s);
    let n = v.len();
    if n >= 2 && v[0] == '/' && v[n - 1] == '/' {
        Some(piece(&v, 1, n - 1))
    } else {
        None
    }
}

/// Tells whether `value` is what `wanted` gives.
fn means(wanted: &str, value: &str) -> (r: bool)
    ensures
        r == is_meant(wanted@, value@),
{
    if let Some(pattern) = cut_between_slashes(wanted) {
        if found(&pattern, value) {
            return true;
        }
    }
    same_ignoring_case(wanted, value) || executable_name_matches(wanted, value)
}

/// Tells whether a policy is for content of the kind `content_type` from the application with this
/// name and this path.
pub fn app_cleanup_policy_matches(
    policy: &AppCleanupPolicy,
    source_app: &str,
    source_app_path: Option<&str>,
    content_type: &str,
) -> (r: bool)
    ensures
        r == policy_holds(*policy, source_app@, str_opt(source_app_path), content_type@),
{
    let allowed = has_kind_of(&policy.content_types, content_type) || (policy.content_types.len()
        == 0 && same_ignoring_case(&policy.action, "ignore"));
    if !allowed {
        return false;
    }
    let app = trim(source_app);
    let path = match source_app_path {
        Some(p) => trim(p),
        None => String::new(),
    };
    let wanted_path = trim(&policy.app_path);
    let wanted_name = trim(&policy.app_name);
    let by_path = !wanted_path.as_str().is_empty();
    let by_name = !wanted_name.as_str().is_empty();
    if by_path && !path.as_str().is_empty() {
        if means(&wanted_path, &path) || app_id_matches_process_path(&wanted_path, &path) {
            return true;
        }
    }
    if by_name {
        if means(&wanted_name, &app) || executable_name_matches(&wanted_name, &path) {
            return true;
        }
    }
    by_path && !app.as_str().is_empty() && executable_name_matches(&wanted_path, &app)
}

// ---------------------------------------------------------------------------
// Laws

/// Whether two names give the same program does not depend on their order.
pub proof fn law_same_program_both_ways(left: Seq<char>, right: Seq<char>)
    ensures
        same_program(left, right) == same_program(right, left),
{
}

/// A slash or a backslash.
pub open spec fn is_separator(c: char) -> bool {
    c == '\\' || c == '/'
}

/// `s` holds neither a slash nor a backslash.
pub open spec fn is_file_name(s: Seq<char>) -> bool {
    forall|i: int| 0 <= i < s.len() ==> !is_separator(#[trigger] s[i])
}

/// A file name put behind a path ends the part of the path behind its last separator.
proof fn lemma_file_part_behind(path: Seq<char>, name: Seq<char>)
    requires
        is_file_name(name),
    ensures
        file_part(path + name) == file_part(path) + name,
    decreases name.len(),
{
    if name.len() > 0 {
        let t = name.drop_last();
        assert forall|i: int| 0 <= i < t.len() implies !is_separator(#[trigger] t[i]) by {
            assert(t[i] == name[i]);
        }
        lemma_file_part_behind(path, t);
        assert((path + name).last() == name[name.len() - 1]);
        assert((path + name).drop_last() == path + t);
        assert(t.push(name.last()) == name);
    } else {
        assert(path + name == path);
        assert(file_part(path) + name == file_part(path));
    }
}

/// The part behind the last separator is the end of a path.
proof fn lemma_file_part(s: Seq<char>)
    ensures
        file_part(s).len() <= s.len(),
        file_part(s) == s.skip(s.len() - file_part(s).len()),
        is_file_name(file_part(s)),
    decreases s.len(),
{
    if s.len() > 0 && !is_separator(s.last()) {
        lemma_file_part(s.drop_last());
        let f = file_part(s.drop_last());
        assert forall|i: int| 0 <= i < file_part(s).len() implies !is_separator(
            #[trigger] file_part(s)[i],
        ) by {
            if i < f.len() {
                assert(file_part(s)[i] == f[i]);
            }
        }
        assert(s.skip(s.len() - file_part(s).len()) == file_part(s));
    } else {
        assert(s.skip(s.len() as int) == Seq::<char>::empty());
    }
}

/// A program is known by its name, in whatever directory it lies.
pub proof fn law_program_in_any_directory(directory: Seq<char>, separator: char, name: Seq<char>)
    requires
        is_separator(separator),
        is_file_name(name),
    ensures
        program_name(directory + seq![separator] + name) == program_name(name),
{
    let p = directory + seq![separator];
    let s = p + name;
    let e = Seq::<char>::empty();
    let (v, m, w) = {
        let (v, w) = lemma_trimmed_parts(name);
        (v, trimmed(name), w)
    };
    let (a, b) = lemma_trimmed_parts(p);
    let q = trimmed(p);
    assert(p.last() == separator);
    assert(!is_space(separator));
    if b.len() > 0 {
        assert((a + q + b).last() == b[b.len() - 1]);
    }
    assert(a + q + b == a + q);
    assert(q.len() > 0) by {
        if q.len() == 0 {
            assert(a + q == a);
            assert(is_space(a[a.len() - 1]));
        }
    }
    assert(q.last() == separator) by {
        assert((a + q).last() == q.last());
    }
    assert forall|i: int| 0 <= i < m.len() implies !is_separator(#[trigger] m[i]) by {
        assert((v + m + w)[v.len() + i] == m[i]);
        assert(!is_separator(name[v.len() + i]));
    }
    assert forall|i: int| 0 <= i < v.len() implies !is_separator(#[trigger] v[i]) by {
        assert((v + m + w)[i] == v[i]);
        assert(!is_separator(name[i]));
    }
    assert(file_part(e) == e);
    lemma_file_part_behind(e, m);
    assert(e + m == m);
    lemma_trimmed_twice(name);
    assert(file_part(q) == e);
    if m.len() == 0 {
        let space = v + w;
        assert(s == a + q + (v + w)) by {
            assert(name == v + w);
        }
        assert forall|i: int| 0 <= i < space.len() implies is_space(#[trigger] space[i]) by {
            if i < v.len() {
                assert(space[i] == v[i]);
            } else {
                assert(space[i] == w[i - v.len()]);
            }
        }
        lemma_trimmed_around(a, q, space);
    } else {
        let mid = q + (v + m);
        assert(s == a + mid + w);
        assert(mid[0] == q[0]);
        assert(mid.last() == m.last());
        lemma_trimmed_around(a, mid, w);
        let f = v + m;
        assert forall|i: int| 0 <= i < f.len() implies !is_separator(#[trigger] f[i]) by {
            if i < v.len() {
                assert(f[i] == v[i]);
            } else {
                assert(f[i] == m[i - v.len()]);
            }
        }
        lemma_file_part_behind(q, f);
        assert(e + f == f);
        assert(v + m + e == f);
        lemma_trimmed_around(v, m, e);
    }
}

/// A program is known by its name, whether the name has the extension of a program or not.
pub proof fn law_program_with_or_without_extension(name: Seq<char>)
    requires
        trimmed(name) == name,
        program_name(name) is Some,
        !".exe"@.is_suffix_of(lowered(name)),
    ensures
        same_program(name + ".exe"@, name),
{
    reveal_strlit(".exe");
    let x = ".exe"@;
    let e = Seq::<char>::empty();
    let long = name + x;
    lemma_file_part(name);
    let f = file_part(name);
    let (v, w) = lemma_trimmed_parts(f);
    let m = trimmed(f);
    assert(m.len() > 0) by {
        if m.len() == 0 {
            assert(lowered(m) == e);
            assert(without_suffix(e, x) == e);
            assert(trimmed(e) == e);
        }
    }
    let (_, _) = lemma_trimmed_parts(name);
    assert(f.len() > 0 && f.last() == name.last());
    if w.len() > 0 {
        assert((v + m + w).last() == w[w.len() - 1]);
    }
    assert(f == v + m);
    lemma_trimmed_around(e, long, e);
    assert(e + long + e == long);
    assert(is_file_name(x));
    lemma_file_part_behind(name, x);
    assert(f + x == v + (m + x) + e);
    assert((m + x)[0] == m[0]);
    lemma_trimmed_around(v, m + x, e);
    let l = lowered(m);
    assert(lowered(m + x) =~= l + x);
    assert((l + x).subrange(l.len() as int, (l + x).len() as int) == x);
    assert((l + x).take(l.len() as int) == l);
    assert(!x.is_suffix_of(l)) by {
        if x.is_suffix_of(l) {
            let n = lowered(name);
            assert(n.len() >= 4);
            let k = name.len() - m.len();
            assert forall|i: int| 0 <= i < m.len() implies #[trigger] m[i] == name[k + i] by {
                assert((v + m)[v.len() + i] == m[i]);
                assert(f[v.len() + i] == name[name.len() - f.len() + v.len() + i]);
            }
            assert(n.subrange(n.len() - 4, n.len() as int) =~= l.subrange(
                l.len() - 4,
                l.len() as int,
            ));
        }
    }
}

/// A file name without white space at its ends and without the extension of a program gives the
/// program of that name in small letters.
pub proof fn law_file_name_gives_its_program(name: Seq<char>)
    requires
        name.len() > 0,
        trimmed(name) == name,
        is_file_name(name),
        !".exe"@.is_suffix_of(lowered(name)),
    ensures
        program_name(name) == Some(lowered(name)),
{
    let e = Seq::<char>::empty();
    lemma_file_part_behind(e, name);
    assert(e + name == name);
    assert(file_part(e) == e);
    let l = lowered(name);
    let (_, _) = lemma_trimmed_parts(name);
    assert(!is_space(l[0]) && !is_space(l.last()));
    lemma_trimmed_around(e, l, e);
    assert(e + l + e == l);
}

/// Only policies that are in force and say which application they are for are kept.
pub proof fn law_kept_policies_are_active(policies: Seq<AppCleanupPolicy>)
    ensures
        forall|i: int|
            0 <= i < active_policies(policies).len() ==> is_active(
                #[trigger] active_policies(policies)[i],
            ) && policies.contains(active_policies(policies)[i]),
        forall|i: int|
            0 <= i < policies.len() && is_active(#[trigger] policies[i]) ==> active_policies(
                policies,
            ).contains(policies[i]),
    decreases policies.len(),
{
    if policies.len() > 0 {
        let before = policies.drop_last();
        law_kept_policies_are_active(before);
        let rest = active_policies(before);
        let all = active_policies(policies);
        assert forall|i: int| 0 <= i < all.len() implies is_active(#[trigger] all[i])
            && policies.contains(all[i]) by {
            if i < rest.len() {
                assert(all[i] == rest[i]);
                let k = choose|k: int| 0 <= k < before.len() && before[k] == rest[i];
                assert(policies[k] == rest[i]);
            } else {
                assert(policies[policies.len() - 1] == all[i]);
            }
        }
        assert forall|i: int| 0 <= i < policies.len() && is_active(#[trigger] policies[i]) implies
            all.contains(policies[i]) by {
            if i < before.len() {
                assert(before[i] == policies[i]);
                let k = choose|k: int| 0 <= k < rest.len() && rest[k] == before[i];
                assert(all[k] == policies[i]);
            } else {
                assert(all[all.len() - 1] == policies[i]);
            }
        }
    }
}

/// The case of a kind of content makes no difference to whether a policy is for it.
pub proof fn law_kind_whatever_case(
    policy: AppCleanupPolicy,
    source_app: Seq<char>,
    source_app_path: Option<Seq<char>>,
    content_type: Seq<char>,
)
    ensures
        policy_holds(policy, source_app, source_app_path, lowered(content_type)) == policy_holds(
            policy,
            source_app,
            source_app_path,
            content_type,
        ),
{
    lemma_lowered_twice(content_type);
}

/// A policy that ignores an application and names no kind of content is for every kind; any other
/// policy that names none is for nothing.
pub proof fn law_policy_without_kinds(
    policy: AppCleanupPolicy,
    source_app: Seq<char>,
    source_app_path: Option<Seq<char>>,
    content_type: Seq<char>,
)
    requires
        policy.content_types@.len() == 0,
    ensures
        lowered(policy.action@) == lowered("ignore"@) ==> is_for_kind(policy, content_type),
        lowered(policy.action@) != lowered("ignore"@) ==> !policy_holds(
            policy,
            source_app,
            source_app_path,
            content_type,
        ),
{
}

/// A policy that does not say which application it is for is for none.
pub proof fn law_unbound_policy_holds_for_nothing(
    policy: AppCleanupPolicy,
    source_app: Seq<char>,
    source_app_path: Option<Seq<char>>,
    content_type: Seq<char>,
)
    requires
        trimmed(policy.app_path@).len() == 0,
        trimmed(policy.app_name@).len() == 0,
    ensures
        !policy_holds(policy, source_app, source_app_path, content_type),
{
}

/// A policy that names the kind of the content, whatever the case, and that gives the application by
/// its name, whatever the case, holds: whatever its path says, and whether or not the path of the
/// application is known.
pub proof fn law_policy_holds_by_name(
    policy: AppCleanupPolicy,
    source_app: Seq<char>,
    source_app_path: Option<Seq<char>>,
    content_type: Seq<char>,
    kind: int,
)
    requires
        0 <= kind < policy.content_types@.len(),
        lowered(policy.content_types@[kind]@) == lowered(content_type),
        trimmed(policy.app_name@).len() > 0,
        lowered(trimmed(policy.app_name@)) == lowered(trimmed(source_app)),
    ensures
        policy_holds(policy, source_app, source_app_path, content_type),
{
    assert(strings(policy.content_types@)[kind] == policy.content_types@[kind]@);
}

/// A policy that names the kind of the content and gives the application by its path, whatever the
/// case, holds: whatever its name says, and whatever the application is called.
pub proof fn law_policy_holds_by_path(
    policy: AppCleanupPolicy,
    source_app: Seq<char>,
    source_app_path: Seq<char>,
    content_type: Seq<char>,
    kind: int,
)
    requires
        0 <= kind < policy.content_types@.len(),
        lowered(policy.content_types@[kind]@) == lowered(content_type),
        trimmed(policy.app_path@).len() > 0,
        lowered(trimmed(policy.app_path@)) == lowered(trimmed(source_app_path)),
    ensures
        policy_holds(policy, source_app, Some(source_app_path), content_type),
{
    assert(strings(policy.content_types@)[kind] == policy.content_types@[kind]@);
    let wanted = trimmed(policy.app_path@);
    let path = trimmed(source_app_path);
    assert(lowered(wanted).len() == wanted.len());
    assert(lowered(path).len() == path.len());
    assert(is_meant(wanted, path));
    assert(is_kind_of(strings(policy.content_types@), content_type));
    assert(is_for_app(policy, trimmed(source_app), path));
}

/// A policy that names the kind of the content holds where its name or its path gives the program
/// that the name or the path of the application gives, in each of the four pairings.
pub proof fn law_policy_holds_by_program(
    policy: AppCleanupPolicy,
    source_app: Seq<char>,
    source_app_path: Seq<char>,
    content_type: Seq<char>,
    kind: int,
)
    requires
        0 <= kind < policy.content_types@.len(),
        lowered(policy.content_types@[kind]@) == lowered(content_type),
        ({
            let app = program_name(trimmed(source_app));
            let path = program_name(trimmed(source_app_path));
            let by_name = program_name(trimmed(policy.app_name@));
            let by_path = program_name(trimmed(policy.app_path@));
            by_name is Some && (by_name == app || by_name == path) || by_path is Some && (by_path
                == app || by_path == path)
        }),
    ensures
        policy_holds(policy, source_app, Some(source_app_path), content_type),
{
    assert(strings(policy.content_types@)[kind] == policy.content_types@[kind]@);
    lemma_nothing_is_no_program();
    assert forall|s: Seq<char>| #[trigger] program_name(s) is Some implies s.len() > 0 by {
        if s.len() == 0 {
            assert(s == Seq::<char>::empty());
        }
    }
}

/// No program is given by nothing.
proof fn lemma_nothing_is_no_program()
    ensures
        program_name(Seq::<char>::empty()) is None,
{
    let e = Seq::<char>::empty();
    assert(trimmed(e) == e);
    assert(file_part(e) == e);
    assert(lowered(e) == e);
    reveal_strlit(".exe");
    assert(without_suffix(e, ".exe"@) == e);
}

/// A policy that names the kind of the content and whose name, or whose path, is a regular
/// expression between slashes holds where it matches in the name, or in the path, of the
/// application.
pub proof fn law_policy_holds_by_pattern(
    policy: AppCleanupPolicy,
    source_app: Seq<char>,
    source_app_path: Seq<char>,
    content_type: Seq<char>,
    kind: int,
    pattern: Seq<char>,
)
    requires
        0 <= kind < policy.content_types@.len(),
        lowered(policy.content_types@[kind]@) == lowered(content_type),
        trimmed(policy.app_name@) == seq!['/'] + pattern + seq!['/'] && pattern_found(
            pattern,
            trimmed(source_app),
        ) || trimmed(policy.app_path@) == seq!['/'] + pattern + seq!['/'] && pattern_found(
            pattern,
            trimmed(source_app_path),
        ) && trimmed(source_app_path).len() > 0,
    ensures
        policy_holds(policy, source_app, Some(source_app_path), content_type),
{
    assert(strings(policy.content_types@)[kind] == policy.content_types@[kind]@);
    let w = seq!['/'] + pattern + seq!['/'];
    assert(w[0] == '/' && w.last() == '/');
    assert(w.subrange(1, w.len() - 1) == pattern);
}

/// The name of a packaged application is for a path in which the package and its publisher stand.
#[verifier::spinoff_prover]
#[verifier::rlimit(60)]
pub proof fn law_package_is_known_by_its_parts(
    package: Seq<char>,
    publisher: Seq<char>,
    application: Seq<char>,
    path: Seq<char>,
)
    requires
        trimmed(package + "_"@ + publisher + "!"@ + application) == package + "_"@ + publisher
            + "!"@ + application,
        trimmed(package) == package && package.len() > 0 && !package.contains('!'),
        trimmed(publisher) == publisher && publisher.len() > 0 && !publisher.contains('!')
            && !publisher.contains('_'),
    ensures
        ({
            let place = lowered(replaced(trimmed(path), "/"@, "\\"@));
            is_packaged(package + "_"@ + publisher + "!"@ + application, path) == (occurs(
                place,
                lowered(package),
            ) && occurs(place, lowered(publisher)))
        }),
{
    reveal_strlit("_");
    reveal_strlit("!");
    let e = Seq::<char>::empty();
    let id = package + "_"@ + publisher + "!"@ + application;
    let family = package + "_"@ + publisher;
    let n = family.len() as int;
    let m = package.len() as int;
    assert(id[n] == '!');
    assert forall|i: int| 0 <= i < n implies #[trigger] id[i] != '!' by {
        if i < m {
            assert(id[i] == package[i]);
            assert(package.contains(package[i]));
        } else if i > m {
            assert(id[i] == publisher[i - m - 1]);
            assert(publisher.contains(publisher[i - m - 1]));
        }
    }
    lemma_span_is(id, '!', n);
    assert(id.take(n) == family);
    let (_, _) = lemma_trimmed_parts(package);
    let (_, _) = lemma_trimmed_parts(publisher);
    assert(family[0] == package[0]);
    assert(family.last() == publisher.last());
    lemma_trimmed_around(e, family, e);
    assert(e + family + e == family);
    assert(family.subrange(m, m + 1) =~= "_"@);
    assert forall|j: int| m < j implies !occurs_at(family, "_"@, j) by {
        if occurs_at(family, "_"@, j) {
            assert(family.subrange(j, j + 1)[0] == family[j]);
            assert(family[j] == publisher[j - m - 1]);
            assert(publisher.contains(publisher[j - m - 1]));
        }
    }
    lemma_last_is(family, "_"@, m);
    assert(family.take(m) == package);
    assert(family.skip(m + 1) == publisher);
    assert(id.subrange(n, n + 1) =~= "!"@);
    assert(occurs_at(id, "!"@, n));
}

/// A policy that names the kind of the content and whose path is the name of a packaged application
/// holds where the path of the application is for that package.
pub proof fn law_policy_holds_by_package(
    policy: AppCleanupPolicy,
    source_app: Seq<char>,
    source_app_path: Seq<char>,
    content_type: Seq<char>,
    kind: int,
)
    requires
        0 <= kind < policy.content_types@.len(),
        lowered(policy.content_types@[kind]@) == lowered(content_type),
        trimmed(source_app_path).len() > 0,
        is_packaged(trimmed(policy.app_path@), trimmed(source_app_path)),
    ensures
        policy_holds(policy, source_app, Some(source_app_path), content_type),
{
    assert(strings(policy.content_types@)[kind] == policy.content_types@[kind]@);
    let wanted = trimmed(policy.app_path@);
    lemma_trimmed_twice(policy.app_path@);
    assert(wanted.len() > 0) by {
        reveal_strlit("!");
    }
    assert(is_for_app(policy, trimmed(source_app), trimmed(source_app_path)));
}

/// A policy holds for content of a kind that it names, or of any kind where it ignores the
/// application and names none, and not otherwise.
pub proof fn law_policy_holds_for_its_kinds(
    policy: AppCleanupPolicy,
    source_app: Seq<char>,
    source_app_path: Option<Seq<char>>,
    content_type: Seq<char>,
)
    requires
        policy_holds(policy, source_app, source_app_path, content_type),
    ensures
        (exists|i: int|
            0 <= i < policy.content_types@.len() && lowered(#[trigger] policy.content_types@[i]@)
                == lowered(content_type)) || policy.content_types@.len() == 0 && lowered(
            policy.action@,
        ) == lowered("ignore"@),
{
    let kinds = strings(policy.content_types@);
    if is_kind_of(kinds, content_type) {
        let i = choose|i: int|
            0 <= i < kinds.len() && lowered(#[trigger] kinds[i]) == lowered(content_type);
        assert(lowered(policy.content_types@[i]@) == lowered(content_type));
    }
}

/// A policy that is no regular expression and whose name and path give neither the name nor the
/// path of the application, nor a program or a package that these give, does not hold.
pub proof fn law_policy_for_another_app_does_not_hold(
    policy: AppCleanupPolicy,
    source_app: Seq<char>,
    source_app_path: Seq<char>,
    content_type: Seq<char>,
)
    requires
        ({
            let name = trimmed(policy.app_name@);
            let path = trimmed(policy.app_path@);
            let app = trimmed(source_app);
            let place = trimmed(source_app_path);
            &&& name.len() > 0 ==> lowered(name) != lowered(app) && name[0] != '/'
            &&& path.len() > 0 ==> lowered(path) != lowered(place) && path[0] != '/'
            &&& program_name(name) != program_name(app) || program_name(app) is None
            &&& program_name(name) != program_name(place) || program_name(place) is None
            &&& program_name(path) != program_name(app) || program_name(app) is None
            &&& program_name(path) != program_name(place) || program_name(place) is None
            &&& !path.contains('!')
        }),
    ensures
        !policy_holds(policy, source_app, Some(source_app_path), content_type),
{
    reveal_strlit("!");
    let path = trimmed(policy.app_path@);
    lemma_trimmed_twice(policy.app_path@);
    if occurs(path, "!"@) {
        let i = choose|i: int| occurs_at(path, "!"@, i);
        assert(path.subrange(i, i + 1)[0] == path[i]);
        assert(path.contains('!'));
    }
}

/// The policies of two lists that are kept are those kept of the first and then those kept of the
/// second; one policy is kept where it is in force and its path or its name is not blank.
pub proof fn law_policies_are_kept_in_order(
    a: Seq<AppCleanupPolicy>,
    b: Seq<AppCleanupPolicy>,
    policy: AppCleanupPolicy,
)
    ensures
        active_policies(a + b) == active_policies(a) + active_policies(b),
        policy.enabled && trimmed(policy.app_name@).len() > 0 ==> active_policies(seq![policy])
            == seq![policy],
        policy.enabled && trimmed(policy.app_path@).len() > 0 ==> active_policies(seq![policy])
            == seq![policy],
        !policy.enabled || trimmed(policy.app_path@).len() == 0 && trimmed(policy.app_name@).len()
            == 0 ==> active_policies(seq![policy]).len() == 0,
    decreases b.len(),
{
    let none = Seq::<AppCleanupPolicy>::empty();
    assert(active_policies(none) == none);
    assert(seq![policy].drop_last() == none);
    assert(none.push(policy) == seq![policy]);
    if b.len() > 0 {
        let t = b.drop_last();
        law_policies_are_kept_in_order(a, t, policy);
        assert((a + b).drop_last() == a + t);
        assert((a + b).last() == b.last());
        let x = active_policies(a);
        let y = active_policies(t);
        assert((x + y).push(b.last()) == x + y.push(b.last()));
    } else {
        assert(a + b == a);
        assert(active_policies(a) + active_policies(b) == active_policies(a));
    }
}

/// An application whose path is not known is treated as one whose path is empty.
pub proof fn law_no_path_is_an_empty_path(
    policy: AppCleanupPolicy,
    source_app: Seq<char>,
    content_type: Seq<char>,
)
    ensures
        policy_holds(policy, source_app, None, content_type) == policy_holds(
            policy,
            source_app,
            Some(seq![]),
            content_type,
        ),
{
    let e = Seq::<char>::empty();
    assert(trimmed(e) == e);
}

/// White space around the name and the path makes no difference, neither around those of the
/// application nor around those of the policy; and nothing of the policy counts but its name, its
/// path, its kinds of content and what it does.
pub proof fn law_policy_whatever_white_space(
    a: AppCleanupPolicy,
    b: AppCleanupPolicy,
    source_app: Seq<char>,
    source_app_path: Seq<char>,
    content_type: Seq<char>,
)
    requires
        trimmed(a.app_name@) == trimmed(b.app_name@),
        trimmed(a.app_path@) == trimmed(b.app_path@),
        a.content_types == b.content_types,
        lowered(a.action@) == lowered(b.action@),
    ensures
        policy_holds(a, source_app, Some(source_app_path), content_type) == policy_holds(
            b,
            trimmed(source_app),
            Some(trimmed(source_app_path)),
            content_type,
        ),
{
    lemma_trimmed_twice(source_app);
    lemma_trimmed_twice(source_app_path);
}

} // verus!
