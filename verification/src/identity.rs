//! Who wrote a commit: the roster configuration, resolution of commit identities
//! (with GitHub no-reply addresses), bot detection, and the roster-identity tokens
//! that must never survive in the embedded text.

use vstd::prelude::*;

use crate::lex::{
    insert_sorted_unique, lemma_is_sorted_listing, sorted_listing, strictly_sorted, views,
};
use crate::text::{
    chars_of, contains, contains_chars, ends_with, ends_with_chars, lowercase, slice_chars,
    split_words, string_of, to_lower, trim, trim_chars, utf8_len, byte_len, words,
};

verus! {

/// One repository of a developer.
pub struct RepoCfg {
    pub slug: String,
    pub url: String,
    pub domain: String,
    pub paths: Vec<String>,
    pub exclude: Vec<String>,
    pub depth: Option<usize>,
    pub max_commits: Option<usize>,
}

/// Per-developer traits of the roster.
pub struct TraitsCfg {
    /// "Systems" or "Scripting".
    pub paradigm: String,
}

/// One roster developer.
pub struct DevCfg {
    pub name: String,
    pub color: Option<String>,
    pub emails: Vec<String>,
    pub logins: Vec<String>,
    pub traits: TraitsCfg,
    pub repos: Vec<RepoCfg>,
}

/// The coders roster.
pub struct Config {
    pub languages: Vec<String>,
    pub devs: Vec<DevCfg>,
}

/// The GitHub no-reply address suffix.
pub open spec fn noreply_suffix() -> Seq<char> {
    "@users.noreply.github.com"@
}

/// The part of `s` after the last `c` (all of `s` when `c` does not occur).
pub open spec fn after_last(s: Seq<char>, c: char) -> Seq<char>
    decreases s.len(),
{
    if s.len() == 0 {
        s
    } else if s.last() == c {
        Seq::empty()
    } else {
        after_last(s.drop_last(), c).push(s.last())
    }
}

/// The login of a GitHub no-reply address `12345+login@users.noreply.github.com` (or
/// `login@users.noreply.github.com`), lowercased; `None` for any other address.
pub open spec fn github_login_spec(email: Seq<char>) -> Option<Seq<char>> {
    if ends_with(email, noreply_suffix()) {
        let local = email.take(email.len() - noreply_suffix().len());
        let login = after_last(local, '+');
        if login.len() == 0 {
            None
        } else {
            Some(lowercase(login))
        }
    } else {
        None
    }
}

/// Index just past the last occurrence of `c` in `s` (0 when it does not occur).
pub fn after_last_index(s: &[char], c: char) -> (i: usize)
    ensures
        i <= s@.len(),
        s@.skip(i as int) == after_last(s@, c),
{
    let mut i: usize = s.len();
    proof {
        assert(s@.skip(i as int) =~= Seq::<char>::empty());
        assert(s@.take(i as int) =~= s@);
        assert(after_last(s@, c) + Seq::<char>::empty() =~= after_last(s@, c));
    }
    while i > 0 && s[i - 1] != c
        invariant
            i <= s@.len(),
            after_last(s@, c) == after_last(s@.take(i as int), c) + s@.skip(i as int),
        decreases i,
    {
        proof {
            let t = s@.take(i as int);
            assert(t.drop_last() =~= s@.take(i as int - 1));
            assert(s@.skip(i as int - 1) =~= seq![t.last()] + s@.skip(i as int));
            assert(after_last(t, c) == after_last(t.drop_last(), c).push(t.last()));
            assert(after_last(t.drop_last(), c).push(t.last()) + s@.skip(i as int) =~=
                after_last(t.drop_last(), c) + (seq![t.last()] + s@.skip(i as int)));
        }
        i -= 1;
    }
    proof {
        let t = s@.take(i as int);
        if i > 0 {
            assert(t.last() == c);
            assert(after_last(t, c) =~= Seq::<char>::empty());
        } else {
            assert(t =~= Seq::<char>::empty());
        }
        assert(after_last(s@, c) =~= s@.skip(i as int));
    }
    i
}

/// Extract the (lowercased) login from a GitHub no-reply address.
pub fn github_login(email: &str) -> (r: Option<String>)
    ensures
        match r {
            Some(l) => github_login_spec(email@) == Some(l@),
            None => github_login_spec(email@) is None,
        },
{
    let e = chars_of(email);
    let suffix = chars_of("@users.noreply.github.com");
    if !ends_with_chars(&e, &suffix) {
        return None;
    }
    let local = slice_chars(&e, 0, e.len() - suffix.len());
    let start = after_last_index(&local, '+');
    let login = slice_chars(&local, start, local.len());
    if login.len() == 0 {
        return None;
    }
    proof {
        assert(local@ =~= email@.take(email@.len() - noreply_suffix().len()));
        assert(login@ =~= local@.skip(start as int));
    }
    Some(to_lower(string_of(&login).as_str()))
}

/// Name/email substrings that mark an automated committer.
pub open spec fn bot_patterns() -> Seq<Seq<char>> {
    seq![
        "[bot]"@,
        "dependabot"@,
        "renovate"@,
        "greenkeeper"@,
        "snyk-bot"@,
        "github-actions"@,
        "semantic-release"@,
        "allcontributors"@,
        "mergify"@,
        "actions-user"@,
        "bors"@,
    ]
}

/// A commit identity belongs to a bot: a bot pattern occurs in the lowercased name or
/// email, or the email is GitHub's own no-reply / web-flow address.
pub open spec fn is_bot_spec(name: Seq<char>, email: Seq<char>) -> bool {
    let n = lowercase(name);
    let e = lowercase(email);
    (exists|k: int|
        0 <= k < bot_patterns().len() && (contains(n, #[trigger] bot_patterns()[k]) || contains(
            e,
            bot_patterns()[k],
        ))) || e == "noreply@github.com"@ || ends_with(e, "web-flow@users.noreply.github.com"@)
}

fn bot_pattern_list() -> (v: Vec<Vec<char>>)
    ensures
        views(v@) == bot_patterns(),
{
    let mut v: Vec<Vec<char>> = Vec::new();
    v.push(chars_of("[bot]"));
    v.push(chars_of("dependabot"));
    v.push(chars_of("renovate"));
    v.push(chars_of("greenkeeper"));
    v.push(chars_of("snyk-bot"));
    v.push(chars_of("github-actions"));
    v.push(chars_of("semantic-release"));
    v.push(chars_of("allcontributors"));
    v.push(chars_of("mergify"));
    v.push(chars_of("actions-user"));
    v.push(chars_of("bors"));
    assert(views(v@) =~= bot_patterns());
    v
}

/// Whether a commit's (name, email) belongs to a bot.
pub fn is_bot(name: &str, email: &str) -> (b: bool)
    ensures
        b == is_bot_spec(name@, email@),
{
    let n = chars_of(to_lower(name).as_str());
    let e = chars_of(to_lower(email).as_str());
    let pats = bot_pattern_list();
    let mut k: usize = 0;
    while k < pats.len()
        invariant
            k <= pats@.len(),
            views(pats@) == bot_patterns(),
            n@ == lowercase(name@),
            e@ == lowercase(email@),
            forall|j: int|
                0 <= j < k ==> !(contains(n@, #[trigger] bot_patterns()[j]) || contains(
                    e@,
                    bot_patterns()[j],
                )),
        decreases pats@.len() - k,
    {
        if contains_chars(&n, pats[k].as_slice()) || contains_chars(&e, pats[k].as_slice()) {
            assert(bot_patterns()[k as int] == pats@[k as int]@);
            return true;
        }
        assert(bot_patterns()[k as int] == pats@[k as int]@);
        k += 1;
    }
    crate::lex::chars_eq(&e, &chars_of("noreply@github.com")) || ends_with_chars(
        &e,
        &chars_of("web-flow@users.noreply.github.com"),
    )
}


/// The lookup key of a configured or committed identity string: trimmed, lowercased.
pub open spec fn key_of(s: Seq<char>) -> Seq<char> {
    lowercase(trim(s))
}

/// The lookup key of `s`.
pub fn norm_key(s: &str) -> (k: Vec<char>)
    ensures
        k@ == key_of(s@),
{
    let t = trim_chars(&chars_of(s));
    chars_of(to_lower(string_of(&t).as_str()).as_str())
}

/// Key/value entries of an association list, by their views.
pub open spec fn entries_view(es: Seq<(Vec<char>, usize)>) -> Seq<(Seq<char>, usize)> {
    es.map_values(|p: (Vec<char>, usize)| (p.0@, p.1))
}

/// The value of the last entry with key `k` (later insertions override earlier ones).
pub open spec fn lookup(es: Seq<(Seq<char>, usize)>, k: Seq<char>) -> Option<usize>
    decreases es.len(),
{
    if es.len() == 0 {
        None
    } else if es.last().0 == k {
        Some(es.last().1)
    } else {
        lookup(es.drop_last(), k)
    }
}

/// Entries `(key_of(item), dev)` for every item of every developer, in roster order.
pub open spec fn dev_entries(devs: Seq<DevCfg>, field: spec_fn(DevCfg) -> Seq<String>) -> Seq<(Seq<char>, usize)>
    decreases devs.len(),
{
    if devs.len() == 0 {
        Seq::empty()
    } else {
        dev_entries(devs.drop_last(), field) + field(devs.last()).map_values(
            |e: String| (key_of(e@), (devs.len() - 1) as usize),
        )
    }
}

/// Entries `(key_of(name), dev)`, one per developer.
pub open spec fn name_entries(devs: Seq<DevCfg>) -> Seq<(Seq<char>, usize)> {
    Seq::new(devs.len(), |i: int| (key_of(devs[i].name@), i as usize))
}

pub open spec fn emails_of(d: DevCfg) -> Seq<String> {
    d.emails@
}

pub open spec fn logins_of(d: DevCfg) -> Seq<String> {
    d.logins@
}

/// Roster identities, keyed by lowercased email, login and name.
pub struct IdentityMap {
    pub by_email: Vec<(Vec<char>, usize)>,
    pub by_login: Vec<(Vec<char>, usize)>,
    pub by_name: Vec<(Vec<char>, usize)>,
}

fn push_keys(es: &mut Vec<(Vec<char>, usize)>, items: &Vec<String>, dev: usize)
    ensures
        entries_view(final(es)@) == entries_view(old(es)@) + items@.map_values(
            |e: String| (key_of(e@), dev),
        ),
{
    let mut j: usize = 0;
    while j < items.len()
        invariant
            j <= items@.len(),
            entries_view(es@) == entries_view(old(es)@) + items@.take(j as int).map_values(
                |e: String| (key_of(e@), dev),
            ),
        decreases items@.len() - j,
    {
        let k = norm_key(items[j].as_str());
        let ghost before = es@;
        es.push((k, dev));
        proof {
            assert(entries_view(es@) =~= entries_view(before).push((k@, dev)));
            assert(items@.take(j as int + 1).map_values(|e: String| (key_of(e@), dev)) =~= items@.take(
                j as int,
            ).map_values(|e: String| (key_of(e@), dev)).push((key_of(items@[j as int]@), dev)));
        }
        j += 1;
    }
    proof {
        assert(items@.take(j as int) =~= items@);
    }
}

fn find_key(es: &Vec<(Vec<char>, usize)>, k: &[char]) -> (r: Option<usize>)
    ensures
        r == lookup(entries_view(es@), k@),
{
    let mut i: usize = es.len();
    proof {
        assert(es@.take(i as int) =~= es@);
    }
    while i > 0
        invariant
            i <= es@.len(),
            lookup(entries_view(es@), k@) == lookup(entries_view(es@.take(i as int)), k@),
        decreases i,
    {
        proof {
            assert(entries_view(es@.take(i as int)).drop_last() =~= entries_view(es@.take(i as int - 1)));
        }
        if crate::lex::chars_eq(es[i - 1].0.as_slice(), k) {
            return Some(es[i - 1].1);
        }
        i -= 1;
    }
    proof {
        assert(entries_view(es@.take(0)) =~= Seq::<(Seq<char>, usize)>::empty());
    }
    None
}

impl IdentityMap {
    /// Index every developer's emails, logins and name (trimmed, lowercased).
    pub fn build(devs: &[DevCfg]) -> (m: Self)
        ensures
            entries_view(m.by_email@) == dev_entries(devs@, |d: DevCfg| emails_of(d)),
            entries_view(m.by_login@) == dev_entries(devs@, |d: DevCfg| logins_of(d)),
            entries_view(m.by_name@) == name_entries(devs@),
            indexes_roster(m, devs@),
    {
        let mut by_email: Vec<(Vec<char>, usize)> = Vec::new();
        let mut by_login: Vec<(Vec<char>, usize)> = Vec::new();
        let mut by_name: Vec<(Vec<char>, usize)> = Vec::new();
        let mut i: usize = 0;
        while i < devs.len()
            invariant
                i <= devs@.len(),
                entries_view(by_email@) == dev_entries(devs@.take(i as int), |d: DevCfg| emails_of(d)),
                entries_view(by_login@) == dev_entries(devs@.take(i as int), |d: DevCfg| logins_of(d)),
                entries_view(by_name@) == name_entries(devs@.take(i as int)),
            decreases devs@.len() - i,
        {
            proof {
                assert(devs@.take(i as int + 1).drop_last() =~= devs@.take(i as int));
            }
            push_keys(&mut by_email, &devs[i].emails, i);
            push_keys(&mut by_login, &devs[i].logins, i);
            let k = norm_key(devs[i].name.as_str());
            let ghost before = by_name@;
            by_name.push((k, i));
            proof {
                let t0 = devs@.take(i as int);
                let t1 = devs@.take(i as int + 1);
                assert forall|j: int| 0 <= j < i implies #[trigger] name_entries(t1)[j] == name_entries(t0)[j] by {
                    assert(t1[j] == t0[j]);
                }
                assert(entries_view(by_name@) =~= entries_view(before).push((k@, i)));
                assert(t1[i as int] == devs@[i as int]);
                assert(name_entries(t1)[i as int] == (k@, i));
                assert(entries_view(by_name@) =~= name_entries(t1));
            }
            i += 1;
        }
        proof {
            assert(devs@.take(i as int) =~= devs@);
        }
        IdentityMap { by_email, by_login, by_name }
    }

    /// Resolve a commit's (name, email) to a roster developer: by email, then by the
    /// login of a GitHub no-reply email, then by name, then by a login equal to the name.
    pub open spec fn resolve_spec(&self, name: Seq<char>, email: Seq<char>) -> Option<usize> {
        let e = key_of(email);
        let n = key_of(name);
        let logins = entries_view(self.by_login@);
        if lookup(entries_view(self.by_email@), e) is Some {
            lookup(entries_view(self.by_email@), e)
        } else if github_login_spec(e) is Some && lookup(logins, github_login_spec(e)->0) is Some {
            lookup(logins, github_login_spec(e)->0)
        } else if lookup(entries_view(self.by_name@), n) is Some {
            lookup(entries_view(self.by_name@), n)
        } else {
            lookup(logins, n)
        }
    }

    /// Resolve a commit's (name, email) to a roster developer, or None.
    pub fn resolve(&self, name: &str, email: &str) -> (r: Option<usize>)
        ensures
            r == self.resolve_spec(name@, email@),
    {
        let e = norm_key(email);
        if let Some(i) = find_key(&self.by_email, &e) {
            return Some(i);
        }
        let es = string_of(&e);
        if let Some(login) = github_login(es.as_str()) {
            let lk = chars_of(login.as_str());
            if let Some(i) = find_key(&self.by_login, &lk) {
                return Some(i);
            }
        }
        let n = norm_key(name);
        if let Some(i) = find_key(&self.by_name, &n) {
            return Some(i);
        }
        find_key(&self.by_login, &n)
    }
}


/// Developer `d` has a configured email whose key is `k`.
pub open spec fn has_email_key(devs: Seq<DevCfg>, d: int, k: Seq<char>) -> bool {
    0 <= d < devs.len() && exists|j: int| 0 <= j < devs[d].emails@.len() && #[trigger] key_of(devs[d].emails@[j]@) == k
}

/// Developer `d` has a configured login whose key is `k`.
pub open spec fn has_login_key(devs: Seq<DevCfg>, d: int, k: Seq<char>) -> bool {
    0 <= d < devs.len() && exists|j: int| 0 <= j < devs[d].logins@.len() && #[trigger] key_of(devs[d].logins@[j]@) == k
}

/// Developer `d`'s name has key `k`.
pub open spec fn has_name_key(devs: Seq<DevCfg>, d: int, k: Seq<char>) -> bool {
    0 <= d < devs.len() && key_of(devs[d].name@) == k
}

/// Some developer has a configured email with key `k`.
pub open spec fn any_email_key(devs: Seq<DevCfg>, k: Seq<char>) -> bool {
    exists|d: int| #[trigger] has_email_key(devs, d, k)
}

/// Some developer has a configured login with key `k`.
pub open spec fn any_login_key(devs: Seq<DevCfg>, k: Seq<char>) -> bool {
    exists|d: int| #[trigger] has_login_key(devs, d, k)
}

/// Some developer's name has key `k`.
pub open spec fn any_name_key(devs: Seq<DevCfg>, k: Seq<char>) -> bool {
    exists|d: int| #[trigger] has_name_key(devs, d, k)
}

/// `m` indexes the identities of `devs`, as `IdentityMap::build` makes it.
pub open spec fn indexes_roster(m: IdentityMap, devs: Seq<DevCfg>) -> bool {
    &&& entries_view(m.by_email@) == dev_entries(devs, |d: DevCfg| emails_of(d))
    &&& entries_view(m.by_login@) == dev_entries(devs, |d: DevCfg| logins_of(d))
    &&& entries_view(m.by_name@) == name_entries(devs)
}

proof fn lemma_lookup_found(es: Seq<(Seq<char>, usize)>, k: Seq<char>)
    ensures
        lookup(es, k) is Some <==> exists|i: int| 0 <= i < es.len() && #[trigger] es[i].0 == k,
        lookup(es, k) is Some ==> exists|i: int| 0 <= i < es.len() && #[trigger] es[i] == (k, lookup(es, k)->0),
    decreases es.len(),
{
    if es.len() > 0 {
        let e0 = es.drop_last();
        lemma_lookup_found(e0, k);
        if es.last().0 == k {
            assert(es[es.len() - 1] == (k, lookup(es, k)->0));
        } else {
            if exists|i: int| 0 <= i < es.len() && #[trigger] es[i].0 == k {
                let i = choose|i: int| 0 <= i < es.len() && #[trigger] es[i].0 == k;
                assert(i < es.len() - 1);
                assert(e0[i].0 == k);
            }
            if lookup(e0, k) is Some {
                let i = choose|i: int| 0 <= i < e0.len() && #[trigger] e0[i] == (k, lookup(e0, k)->0);
                assert(es[i] == e0[i]);
                assert(es[i].0 == k);
            }
        }
    }
}

/// Developer `v` has an item of `field` whose key is `k`.
spec fn field_has_key(devs: Seq<DevCfg>, field: spec_fn(DevCfg) -> Seq<String>, v: int, k: Seq<char>) -> bool {
    0 <= v < devs.len() && exists|j: int| 0 <= j < field(devs[v]).len() && #[trigger] key_of(field(devs[v])[j]@) == k
}

proof fn lemma_dev_entries_pairs(devs: Seq<DevCfg>, field: spec_fn(DevCfg) -> Seq<String>, k: Seq<char>, v: int)
    requires
        devs.len() <= usize::MAX,
        0 <= v <= usize::MAX,
    ensures
        (exists|i: int| 0 <= i < dev_entries(devs, field).len() && #[trigger] dev_entries(devs, field)[i] == (k, v as usize))
            <==> field_has_key(devs, field, v, k),
    decreases devs.len(),
{
    if devs.len() > 0 {
        let d0 = devs.drop_last();
        lemma_dev_entries_pairs(d0, field, k, v);
        let e0 = dev_entries(d0, field);
        let last = devs.len() - 1;
        let tail = field(devs.last()).map_values(|e: String| (key_of(e@), last as usize));
        let es = dev_entries(devs, field);
        assert(es == e0 + tail);
        if exists|i: int| 0 <= i < es.len() && #[trigger] es[i] == (k, v as usize) {
            let i = choose|i: int| 0 <= i < es.len() && #[trigger] es[i] == (k, v as usize);
            if i < e0.len() {
                assert(e0[i] == (k, v as usize));
                assert(field_has_key(d0, field, v, k));
                assert(devs[v] == d0[v]);
            } else {
                let j = i - e0.len();
                assert(tail[j] == (k, v as usize));
                assert(key_of(field(devs[last])[j]@) == k);
                assert(v as usize == last as usize);
                assert((v as usize) as int == v);
                assert((last as usize) as int == last);
            }
        }
        if field_has_key(devs, field, v, k) {
            let j = choose|j: int| 0 <= j < field(devs[v]).len() && #[trigger] key_of(field(devs[v])[j]@) == k;
            if v < last {
                assert(devs[v] == d0[v]);
                assert(key_of(field(d0[v])[j]@) == k);
                assert(field_has_key(d0, field, v, k));
                let i = choose|i: int| 0 <= i < e0.len() && #[trigger] e0[i] == (k, v as usize);
                assert(es[i] == e0[i]);
            } else {
                assert(tail[j] == (k, v as usize));
                assert(es[e0.len() + j] == tail[j]);
            }
        }
    } else {
        assert(dev_entries(devs, field).len() == 0);
    }
}

proof fn lemma_dev_entries_lookup(devs: Seq<DevCfg>, field: spec_fn(DevCfg) -> Seq<String>, k: Seq<char>)
    requires
        devs.len() <= usize::MAX,
    ensures
        lookup(dev_entries(devs, field), k) is Some <==> exists|v: int| #[trigger] field_has_key(devs, field, v, k),
        lookup(dev_entries(devs, field), k) is Some ==> field_has_key(devs, field, lookup(dev_entries(devs, field), k)->0 as int, k),
{
    let es = dev_entries(devs, field);
    lemma_lookup_found(es, k);
    if lookup(es, k) is Some {
        let v = lookup(es, k)->0;
        lemma_dev_entries_pairs(devs, field, k, v as int);
        assert(exists|i: int| 0 <= i < es.len() && #[trigger] es[i] == (k, (v as int) as usize));
    }
    if exists|v: int| #[trigger] field_has_key(devs, field, v, k) {
        let v = choose|v: int| #[trigger] field_has_key(devs, field, v, k);
        lemma_dev_entries_pairs(devs, field, k, v);
        let i = choose|i: int| 0 <= i < es.len() && #[trigger] es[i] == (k, v as usize);
        assert(es[i].0 == k);
    }
}

proof fn lemma_name_entries_lookup(devs: Seq<DevCfg>, k: Seq<char>)
    requires
        devs.len() <= usize::MAX,
    ensures
        lookup(name_entries(devs), k) is Some <==> any_name_key(devs, k),
        lookup(name_entries(devs), k) matches Some(v) ==> has_name_key(devs, v as int, k),
{
    let es = name_entries(devs);
    lemma_lookup_found(es, k);
    if lookup(es, k) is Some {
        let i = choose|i: int| 0 <= i < es.len() && #[trigger] es[i] == (k, lookup(es, k)->0);
        assert(es[i] == (key_of(devs[i].name@), i as usize));
        assert((i as usize) as int == i);
        assert(has_name_key(devs, i, k));
    }
    if any_name_key(devs, k) {
        let d = choose|d: int| #[trigger] has_name_key(devs, d, k);
        assert(es[d].0 == k);
    }
}

/// How a commit identity is resolved against the roster it was built from: by an email
/// key if any developer has it; else by the login of a GitHub no-reply address if any
/// developer has that login; else by the name if any developer has it as name; else by
/// a developer who has the name as a login, and to nobody when none has.
pub proof fn law_resolve_by_roster(devs: Seq<DevCfg>, m: IdentityMap, name: Seq<char>, email: Seq<char>)
    requires
        devs.len() <= usize::MAX,
        indexes_roster(m, devs),
    ensures
        ({
            let e = key_of(email);
            let n = key_of(name);
            let g = github_login_spec(e);
            let r = m.resolve_spec(name, email);
            &&& any_email_key(devs, e) ==> (r matches Some(d) && has_email_key(devs, d as int, e))
            &&& (!any_email_key(devs, e) && g is Some && any_login_key(devs, g->0)) ==> (r matches Some(d)
                && has_login_key(devs, d as int, g->0))
            &&& (!any_email_key(devs, e) && !(g is Some && any_login_key(devs, g->0)) && any_name_key(devs, n))
                ==> (r matches Some(d) && has_name_key(devs, d as int, n))
            &&& (!any_email_key(devs, e) && !(g is Some && any_login_key(devs, g->0)) && !any_name_key(devs, n))
                ==> ((r is Some <==> any_login_key(devs, n)) && (r matches Some(d) ==> has_login_key(devs, d as int, n)))
        }),
{
    let e = key_of(email);
    let n = key_of(name);
    let g = github_login_spec(e);
    let fe = |d: DevCfg| emails_of(d);
    let fl = |d: DevCfg| logins_of(d);
    lemma_dev_entries_lookup(devs, fe, e);
    lemma_name_entries_lookup(devs, n);
    lemma_dev_entries_lookup(devs, fl, n);
    if g is Some {
        lemma_dev_entries_lookup(devs, fl, g->0);
    }
    assert forall|d: int, k: Seq<char>| #[trigger] field_has_key(devs, fe, d, k) <==> has_email_key(devs, d, k) by {
        if has_email_key(devs, d, k) {
            let j = choose|j: int| 0 <= j < devs[d].emails@.len() && #[trigger] key_of(devs[d].emails@[j]@) == k;
            assert(key_of(fe(devs[d])[j]@) == k);
        }
        if field_has_key(devs, fe, d, k) {
            let j = choose|j: int| 0 <= j < fe(devs[d]).len() && #[trigger] key_of(fe(devs[d])[j]@) == k;
            assert(key_of(devs[d].emails@[j]@) == k);
        }
    }
    assert forall|d: int, k: Seq<char>| #[trigger] field_has_key(devs, fl, d, k) <==> has_login_key(devs, d, k) by {
        if has_login_key(devs, d, k) {
            let j = choose|j: int| 0 <= j < devs[d].logins@.len() && #[trigger] key_of(devs[d].logins@[j]@) == k;
            assert(key_of(fl(devs[d])[j]@) == k);
        }
        if field_has_key(devs, fl, d, k) {
            let j = choose|j: int| 0 <= j < fl(devs[d]).len() && #[trigger] key_of(fl(devs[d])[j]@) == k;
            assert(key_of(devs[d].logins@[j]@) == k);
        }
    }
    assert(any_email_key(devs, e) <==> exists|v: int| #[trigger] field_has_key(devs, fe, v, e)) by {
        if any_email_key(devs, e) {
            let d = choose|d: int| #[trigger] has_email_key(devs, d, e);
            assert(field_has_key(devs, fe, d, e));
        }
        if exists|v: int| #[trigger] field_has_key(devs, fe, v, e) {
            let d = choose|v: int| #[trigger] field_has_key(devs, fe, v, e);
            assert(has_email_key(devs, d, e));
        }
    }
    assert forall|k: Seq<char>| #[trigger] any_login_key(devs, k) <==> exists|v: int| #[trigger] field_has_key(devs, fl, v, k) by {
        if any_login_key(devs, k) {
            let d = choose|d: int| #[trigger] has_login_key(devs, d, k);
            assert(field_has_key(devs, fl, d, k));
        }
        if exists|v: int| #[trigger] field_has_key(devs, fl, v, k) {
            let d = choose|v: int| #[trigger] field_has_key(devs, fl, v, k);
            assert(has_login_key(devs, d, k));
        }
    }
    assert(any_login_key(devs, n) == exists|v: int| #[trigger] field_has_key(devs, fl, v, n));
    if g is Some {
        assert(any_login_key(devs, g->0) == exists|v: int| #[trigger] field_has_key(devs, fl, v, g->0));
    }
}

/// A lowercased login of `d`.
pub open spec fn is_lower_login(d: DevCfg, t: Seq<char>) -> bool {
    exists|j: int| 0 <= j < d.logins@.len() && t == lowercase(#[trigger] d.logins@[j]@)
}

/// A lowercased whitespace-separated part of `d`'s name.
pub open spec fn is_lower_name_part(d: DevCfg, t: Seq<char>) -> bool {
    exists|j: int| 0 <= j < words(d.name@).len() && t == lowercase(#[trigger] words(d.name@)[j])
}

/// The identity tokens of one developer that the residual scan looks for: lowercased
/// logins and name parts of at least 6 bytes (distinctive surnames / logins).
pub open spec fn dev_residual_tokens(d: DevCfg) -> Set<Seq<char>> {
    Set::new(|t: Seq<char>| utf8_len(t) >= 6 && (is_lower_login(d, t) || is_lower_name_part(d, t)))
}

/// The residual-scan tokens of the whole roster.
pub open spec fn roster_residual_tokens(devs: Seq<DevCfg>) -> Set<Seq<char>> {
    Set::new(|t: Seq<char>| exists|i: int| 0 <= i < devs.len() && #[trigger] dev_residual_tokens(devs[i]).contains(t))
}

/// Index of the first token (in list order) occurring in `low`, searching from `k`.
pub open spec fn first_hit_from(low: Seq<char>, toks: Seq<Seq<char>>, k: int) -> Option<int>
    decreases toks.len() - k,
{
    if k < 0 || k >= toks.len() {
        None
    } else if contains(low, toks[k]) {
        Some(k)
    } else {
        first_hit_from(low, toks, k + 1)
    }
}

/// Scan texts for surviving identity tokens: the number of texts containing one (after
/// lowercasing) and the distinct first-found tokens in order of discovery.
pub open spec fn scan_hits(texts: Seq<Seq<char>>, toks: Seq<Seq<char>>) -> (nat, Seq<Seq<char>>)
    decreases texts.len(),
{
    if texts.len() == 0 {
        (0, Seq::empty())
    } else {
        let (h, f) = scan_hits(texts.drop_last(), toks);
        match first_hit_from(lowercase(texts.last()), toks, 0) {
            Some(j) => (h + 1, if f.contains(toks[j]) { f } else { f.push(toks[j]) }),
            None => (h, f),
        }
    }
}

fn add_if_long(tokens: &mut Vec<Vec<char>>, raw: &[char])
    requires
        strictly_sorted(views(old(tokens)@)),
    ensures
        strictly_sorted(views(final(tokens)@)),
        views(final(tokens)@).to_set() == (if utf8_len(lowercase(raw@)) >= 6 {
            views(old(tokens)@).to_set().insert(lowercase(raw@))
        } else {
            views(old(tokens)@).to_set()
        }),
{
    let low = chars_of(to_lower(string_of(raw).as_str()).as_str());
    if byte_len(&low) >= 6 {
        insert_sorted_unique(tokens, low);
    }
}

/// The sorted, duplicate-free residual-scan tokens of the roster.
pub fn residual_tokens(devs: &[DevCfg]) -> (tokens: Vec<Vec<char>>)
    ensures
        views(tokens@) == sorted_listing(roster_residual_tokens(devs@)),
        strictly_sorted(views(tokens@)),
{
    let mut tokens: Vec<Vec<char>> = Vec::new();
    let mut i: usize = 0;
    proof {
        assert(views(tokens@).to_set() =~= Set::<Seq<char>>::empty());
    }
    while i < devs.len()
        invariant
            i <= devs@.len(),
            strictly_sorted(views(tokens@)),
            views(tokens@).to_set() == Set::new(
                |t: Seq<char>| exists|k: int| 0 <= k < i && #[trigger] dev_residual_tokens(devs@[k]).contains(t),
            ),
        decreases devs@.len() - i,
    {
        let ghost before = views(tokens@).to_set();
        let d = &devs[i];
        let mut j: usize = 0;
        while j < d.logins.len()
            invariant
                j <= d.logins@.len(),
                strictly_sorted(views(tokens@)),
                views(tokens@).to_set() == before.union(Set::new(
                    |t: Seq<char>| utf8_len(t) >= 6 && exists|m: int| 0 <= m < j && t == lowercase(#[trigger] d.logins@[m]@),
                )),
            decreases d.logins@.len() - j,
        {
            let ghost prev = views(tokens@).to_set();
            add_if_long(&mut tokens, &chars_of(d.logins[j].as_str()));
            proof {
                assert(views(tokens@).to_set() =~= before.union(Set::new(
                    |t: Seq<char>| utf8_len(t) >= 6 && exists|m: int| 0 <= m < j + 1 && t == lowercase(#[trigger] d.logins@[m]@),
                ))) by {
                    assert forall|t: Seq<char>| (utf8_len(t) >= 6 && exists|m: int| 0 <= m < j + 1 && t == lowercase(#[trigger] d.logins@[m]@))
                        <==> ((utf8_len(t) >= 6 && exists|m: int| 0 <= m < j && t == lowercase(#[trigger] d.logins@[m]@))
                        || (utf8_len(t) >= 6 && t == lowercase(d.logins@[j as int]@))) by {
                        if utf8_len(t) >= 6 && t == lowercase(d.logins@[j as int]@) {
                            assert(0 <= j < j + 1);
                        }
                    }
                }
            }
            j += 1;
        }
        let parts = split_words(&chars_of(d.name.as_str()));
        let ghost after_logins = views(tokens@).to_set();
        let mut j: usize = 0;
        while j < parts.len()
            invariant
                j <= parts@.len(),
                parts@.map_values(|w: Vec<char>| w@) == words(d.name@),
                strictly_sorted(views(tokens@)),
                views(tokens@).to_set() == after_logins.union(Set::new(
                    |t: Seq<char>| utf8_len(t) >= 6 && exists|m: int| 0 <= m < j && t == lowercase(#[trigger] words(d.name@)[m]),
                )),
            decreases parts@.len() - j,
        {
            add_if_long(&mut tokens, parts[j].as_slice());
            proof {
                assert(parts@[j as int]@ == words(d.name@)[j as int]);
                assert(views(tokens@).to_set() =~= after_logins.union(Set::new(
                    |t: Seq<char>| utf8_len(t) >= 6 && exists|m: int| 0 <= m < j + 1 && t == lowercase(#[trigger] words(d.name@)[m]),
                ))) by {
                    assert forall|t: Seq<char>| (utf8_len(t) >= 6 && exists|m: int| 0 <= m < j + 1 && t == lowercase(#[trigger] words(d.name@)[m]))
                        <==> ((utf8_len(t) >= 6 && exists|m: int| 0 <= m < j && t == lowercase(#[trigger] words(d.name@)[m]))
                        || (utf8_len(t) >= 6 && t == lowercase(words(d.name@)[j as int]))) by {
                        if utf8_len(t) >= 6 && t == lowercase(words(d.name@)[j as int]) {
                            assert(0 <= j < j + 1);
                        }
                    }
                }
            }
            j += 1;
        }
        proof {
            assert(views(tokens@).to_set() =~= Set::new(
                |t: Seq<char>| exists|k: int| 0 <= k < i + 1 && #[trigger] dev_residual_tokens(devs@[k]).contains(t),
            )) by {
                assert forall|t: Seq<char>| #[trigger] views(tokens@).to_set().contains(t) <==> (exists|k: int| 0 <= k < i + 1 && #[trigger] dev_residual_tokens(devs@[k]).contains(t)) by {
                    if dev_residual_tokens(devs@[i as int]).contains(t) {
                        if is_lower_login(devs@[i as int], t) {
                            let m = choose|m: int| 0 <= m < d.logins@.len() && t == lowercase(#[trigger] d.logins@[m]@);
                        } else {
                            let m = choose|m: int| 0 <= m < words(d.name@).len() && t == lowercase(#[trigger] words(d.name@)[m]);
                        }
                    }
                    if views(tokens@).to_set().contains(t) && !before.contains(t) {
                        assert(dev_residual_tokens(devs@[i as int]).contains(t));
                    }
                }
            }
        }
        i += 1;
    }
    proof {
        assert(views(tokens@).to_set() =~= roster_residual_tokens(devs@));
        lemma_is_sorted_listing(views(tokens@));
    }
    tokens
}


fn first_hit(low: &[char], toks: &Vec<Vec<char>>) -> (r: Option<usize>)
    ensures
        r matches Some(j) ==> j < toks@.len(),
        match r {
            Some(j) => first_hit_from(low@, views(toks@), 0) == Some(j as int),
            None => first_hit_from(low@, views(toks@), 0) is None,
        },
{
    let ghost tv = views(toks@);
    let mut k: usize = 0;
    while k < toks.len()
        invariant
            k <= toks@.len(),
            tv == views(toks@),
            first_hit_from(low@, tv, 0) == first_hit_from(low@, tv, k as int),
        decreases toks@.len() - k,
    {
        if contains_chars(low, toks[k].as_slice()) {
            return Some(k);
        }
        k += 1;
    }
    None
}

/// Scan already-scrubbed texts for any roster identity token that survived scrubbing
/// (substring match on the lowercased text, tokens of at least 6 bytes). Returns the
/// number of texts with a hit and the distinct tokens found.
pub fn residual_identity_hits(cfg: &Config, texts: &[String]) -> (r: (usize, Vec<String>))
    ensures
        r.0 == scan_hits(texts@.map_values(|t: String| t@), sorted_listing(roster_residual_tokens(cfg.devs@))).0,
        r.1@.map_values(|t: String| t@) == scan_hits(
            texts@.map_values(|t: String| t@),
            sorted_listing(roster_residual_tokens(cfg.devs@)),
        ).1,
{
    let tokens = residual_tokens(cfg.devs.as_slice());
    let ghost tv = views(tokens@);
    let ghost txt = texts@.map_values(|t: String| t@);
    let mut hits: usize = 0;
    let mut found: Vec<String> = Vec::new();
    let mut i: usize = 0;
    while i < texts.len()
        invariant
            i <= texts@.len(),
            tv == views(tokens@),
            txt == texts@.map_values(|t: String| t@),
            hits == scan_hits(txt.take(i as int), tv).0,
            found@.map_values(|t: String| t@) == scan_hits(txt.take(i as int), tv).1,
            hits <= i,
        decreases texts@.len() - i,
    {
        proof {
            assert(txt.take(i as int + 1).drop_last() =~= txt.take(i as int));
            assert(txt.take(i as int + 1).last() == texts@[i as int]@);
        }
        let low = chars_of(to_lower(texts[i].as_str()).as_str());
        match first_hit(&low, &tokens) {
            Some(j) => {
                hits += 1;
                let ghost fv = found@.map_values(|t: String| t@);
                let mut present = false;
                let mut m: usize = 0;
                while m < found.len()
                    invariant
                        m <= found@.len(),
                        fv == found@.map_values(|t: String| t@),
                        j < tokens@.len(),
                        present <==> exists|q: int| 0 <= q < m && fv[q] == tokens@[j as int]@,
                    decreases found@.len() - m,
                {
                    assert(fv[m as int] == found@[m as int]@);
                    if crate::lex::chars_eq(&chars_of(found[m].as_str()), tokens[j].as_slice()) {
                        present = true;
                    }
                    m += 1;
                }
                proof {
                    assert(tv[j as int] == tokens@[j as int]@);
                    if present {
                        let q = choose|q: int| 0 <= q < m && fv[q] == tokens@[j as int]@;
                        assert(fv.contains(tv[j as int]));
                    } else {
                        assert(!fv.contains(tv[j as int]));
                    }
                }
                if !present {
                    let tok = string_of(tokens[j].as_slice());
                    found.push(tok);
                    proof {
                        assert(found@.map_values(|t: String| t@) =~= fv.push(tv[j as int]));
                    }
                }
            },
            None => {},
        }
        i += 1;
    }
    proof {
        assert(txt.take(i as int) =~= txt);
    }
    (hits, found)
}

} // verus!
