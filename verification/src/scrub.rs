//! Identity scrubbing of code passages: e-mail addresses, URLs and roster names are
//! replaced by placeholders, and a passage in which a distinctive roster token still
//! survives is flagged.

use vstd::prelude::*;

use crate::identity::DevCfg;
use crate::lex::{insert_sorted_unique, lemma_is_sorted_listing, sorted_listing, strictly_sorted, views};
use crate::pattern::{escape_literal, escaped, regex_accepts, regex_replace_all, Pattern, PatternError};
use crate::text::{
    byte_len, chars_of, contains, contains_chars, join, join_chars, lowercase, split_words,
    string_of, to_lower, trim, trim_chars, utf8_len, words,
};

verus! {

broadcast use vstd::string::group_string_axioms;

/// The views of a list of strings.
pub open spec fn string_views(v: Seq<String>) -> Seq<Seq<char>> {
    v.map_values(|s: String| s@)
}

/// The escaped forms of the items at least `min` bytes long.
pub open spec fn escaped_long(items: Seq<Seq<char>>, min: nat) -> Set<Seq<char>> {
    Set::new(|t: Seq<char>| exists|m: int| 0 <= m < items.len() && utf8_len(#[trigger] items[m]) >= min && t == escaped(items[m]))
}

/// The lowercased forms of the items at least `min` bytes long.
pub open spec fn lowered_long(items: Seq<Seq<char>>, min: nat) -> Set<Seq<char>> {
    Set::new(|t: Seq<char>| exists|m: int| 0 <= m < items.len() && utf8_len(#[trigger] items[m]) >= min && t == lowercase(items[m]))
}

/// The name alternatives one developer adds to the scrubbing regex: logins of at least
/// 3 bytes, name parts of at least 4 bytes (shorter ones would hit common words), and
/// the whole trimmed name, each escaped.
pub open spec fn dev_scrub_tokens(d: DevCfg) -> Set<Seq<char>> {
    escaped_long(string_views(d.logins@), 3).union(escaped_long(words(d.name@), 4)).insert(
        escaped(trim(d.name@)),
    )
}

/// The distinctive tokens of one developer that must not survive scrubbing: logins and
/// name parts of at least 6 bytes, lowercased.
pub open spec fn dev_leak_tokens(d: DevCfg) -> Set<Seq<char>> {
    lowered_long(string_views(d.logins@), 6).union(lowered_long(words(d.name@), 6))
}

/// The union of a per-developer token set over the first `n` developers.
pub open spec fn roster_union(devs: Seq<DevCfg>, n: int, f: spec_fn(DevCfg) -> Set<Seq<char>>) -> Set<Seq<char>> {
    Set::new(|t: Seq<char>| exists|k: int| 0 <= k < n && #[trigger] f(devs[k]).contains(t))
}

/// The scrubbing alternatives of the whole roster.
pub open spec fn roster_scrub_tokens(devs: Seq<DevCfg>) -> Set<Seq<char>> {
    roster_union(devs, devs.len() as int, |d: DevCfg| dev_scrub_tokens(d))
}

/// The leak tokens of the whole roster.
pub open spec fn roster_leak_tokens(devs: Seq<DevCfg>) -> Set<Seq<char>> {
    roster_union(devs, devs.len() as int, |d: DevCfg| dev_leak_tokens(d))
}

/// The regex that matches any of `alternatives` as a whole word, case-insensitively.
pub open spec fn ident_source(alternatives: Seq<Seq<char>>) -> Seq<char> {
    "(?i)\\b("@ + join(alternatives, "|"@) + ")\\b"@
}

/// The regex of e-mail addresses.
pub open spec fn email_source() -> Seq<char> {
    "[A-Za-z0-9._%+\\-]+@[A-Za-z0-9.\\-]+\\.[A-Za-z]{2,}"@
}

/// The regex of http(s) URLs.
pub open spec fn url_source() -> Seq<char> {
    "https?://[^\\s'\"<>)]+"@
}

/// The name regex of a roster: `None` for an empty roster, else the whole-word regex
/// over its sorted, duplicate-free alternatives.
pub open spec fn roster_ident_source(devs: Seq<DevCfg>) -> Option<Seq<char>> {
    if devs.len() == 0 {
        None
    } else {
        Some(ident_source(sorted_listing(roster_scrub_tokens(devs))))
    }
}

/// The scrubber of a roster.
pub struct Scrubber {
    pub email: Pattern,
    pub url: Pattern,
    pub ident: Option<Pattern>,
    /// Sorted, duplicate-free leak tokens.
    pub residual: Vec<Vec<char>>,
}

/// What `scrub` makes of `text`: e-mail addresses become `EMAIL`, then URLs `URL`, then
/// roster names `NAME`.
pub open spec fn scrub_spec(email: Seq<char>, url: Seq<char>, ident: Option<Seq<char>>, text: Seq<char>) -> Seq<char> {
    let t1 = regex_replace_all(email, text, "EMAIL"@);
    let t2 = regex_replace_all(url, t1, "URL"@);
    match ident {
        Some(p) => regex_replace_all(p, t2, "NAME"@),
        None => t2,
    }
}

/// Whether a text still holds one of `tokens` once lowercased.
pub open spec fn leaks_spec(tokens: Seq<Seq<char>>, text: Seq<char>) -> bool {
    exists|i: int| 0 <= i < tokens.len() && contains(lowercase(text), #[trigger] tokens[i])
}

/// Adds, for each item, its escaped form to `toks` when it is at least `tmin` bytes
/// long, and its lowercased form to `res` when it is at least 6 bytes long.
fn add_items(toks: &mut Vec<Vec<char>>, res: &mut Vec<Vec<char>>, items: &Vec<Vec<char>>, tmin: usize)
    requires
        strictly_sorted(views(old(toks)@)),
        strictly_sorted(views(old(res)@)),
    ensures
        strictly_sorted(views(final(toks)@)),
        strictly_sorted(views(final(res)@)),
        views(final(toks)@).to_set() == views(old(toks)@).to_set().union(escaped_long(views(items@), tmin as nat)),
        views(final(res)@).to_set() == views(old(res)@).to_set().union(lowered_long(views(items@), 6)),
{
    let ghost t0 = views(toks@).to_set();
    let ghost r0 = views(res@).to_set();
    let ghost iv = views(items@);
    let mut j: usize = 0;
    while j < items.len()
        invariant
            j <= items@.len(),
            iv == views(items@),
            strictly_sorted(views(toks@)),
            strictly_sorted(views(res@)),
            views(toks@).to_set() == t0.union(escaped_long(iv.take(j as int), tmin as nat)),
            views(res@).to_set() == r0.union(lowered_long(iv.take(j as int), 6)),
        decreases items@.len() - j,
    {
        let item = items[j].as_slice();
        let ghost x = iv[j as int];
        assert(item@ == x);
        let n = byte_len(item);
        let ghost tp = views(toks@).to_set();
        let ghost rp = views(res@).to_set();
        if n >= tmin {
            let e = chars_of(escape_literal(string_of(item).as_str()).as_str());
            insert_sorted_unique(toks, e);
        }
        if n >= 6 {
            let l = chars_of(to_lower(string_of(item).as_str()).as_str());
            insert_sorted_unique(res, l);
        }
        proof {
            let p = iv.take(j as int);
            let q = iv.take(j as int + 1);
            assert(q =~= p.push(x));
            assert(escaped_long(q, tmin as nat) =~= (if utf8_len(x) >= tmin {
                escaped_long(p, tmin as nat).insert(escaped(x))
            } else {
                escaped_long(p, tmin as nat)
            })) by {
                assert forall|t: Seq<char>| escaped_long(q, tmin as nat).contains(t) <==> (escaped_long(p, tmin as nat).contains(t) || (utf8_len(x) >= tmin && t == escaped(x))) by {
                    if escaped_long(q, tmin as nat).contains(t) {
                        let m = choose|m: int| 0 <= m < q.len() && utf8_len(#[trigger] q[m]) >= tmin && t == escaped(q[m]);
                        if m < p.len() {
                            assert(p[m] == q[m]);
                        }
                    }
                    if escaped_long(p, tmin as nat).contains(t) {
                        let m = choose|m: int| 0 <= m < p.len() && utf8_len(#[trigger] p[m]) >= tmin && t == escaped(p[m]);
                        assert(q[m] == p[m]);
                    }
                    if utf8_len(x) >= tmin && t == escaped(x) {
                        assert(q[p.len() as int] == x);
                    }
                }
            }
            assert(lowered_long(q, 6) =~= (if utf8_len(x) >= 6 {
                lowered_long(p, 6).insert(lowercase(x))
            } else {
                lowered_long(p, 6)
            })) by {
                assert forall|t: Seq<char>| lowered_long(q, 6).contains(t) <==> (lowered_long(p, 6).contains(t) || (utf8_len(x) >= 6 && t == lowercase(x))) by {
                    if lowered_long(q, 6).contains(t) {
                        let m = choose|m: int| 0 <= m < q.len() && utf8_len(#[trigger] q[m]) >= 6 && t == lowercase(q[m]);
                        if m < p.len() {
                            assert(p[m] == q[m]);
                        }
                    }
                    if lowered_long(p, 6).contains(t) {
                        let m = choose|m: int| 0 <= m < p.len() && utf8_len(#[trigger] p[m]) >= 6 && t == lowercase(p[m]);
                        assert(q[m] == p[m]);
                    }
                    if utf8_len(x) >= 6 && t == lowercase(x) {
                        assert(q[p.len() as int] == x);
                    }
                }
            }
            assert(views(toks@).to_set() =~= t0.union(escaped_long(q, tmin as nat)));
            assert(views(res@).to_set() =~= r0.union(lowered_long(q, 6)));
        }
        j += 1;
    }
    proof {
        assert(iv.take(j as int) =~= iv);
    }
}

/// The strings of `v` as character vectors.
fn char_vecs(v: &Vec<String>) -> (r: Vec<Vec<char>>)
    ensures
        views(r@) == string_views(v@),
{
    let mut r: Vec<Vec<char>> = Vec::new();
    let mut i: usize = 0;
    while i < v.len()
        invariant
            i <= v@.len(),
            views(r@) == string_views(v@).take(i as int),
        decreases v@.len() - i,
    {
        let c = chars_of(v[i].as_str());
        let ghost before = r@;
        r.push(c);
        proof {
            assert(r@ == before.push(c));
            assert(views(before).len() == i);
            assert(r@.len() == i + 1);
            assert forall|k: int| 0 <= k < i + 1 implies #[trigger] views(r@)[k] == string_views(v@)[k] by {
                assert(views(r@)[k] == r@[k]@);
                assert(string_views(v@)[k] == v@[k]@);
                if k < i {
                    assert(r@[k] == before[k]);
                    assert(views(before)[k] == before[k]@);
                    assert(views(before)[k] == string_views(v@).take(i as int)[k]);
                }
            }
            assert(views(r@) =~= string_views(v@).take(i as int + 1));
        }
        i += 1;
    }
    proof {
        assert(string_views(v@).take(i as int) =~= string_views(v@));
    }
    r
}

impl Scrubber {
    /// Builds the scrubber of a roster: the e-mail and URL regexes, the whole-word name
    /// regex over the roster's sorted, duplicate-free alternatives (none for an empty
    /// roster), and the sorted leak tokens. Fails only where the regex engine refuses
    /// one of the regexes.
    pub fn build(devs: &[DevCfg]) -> (r: Result<Scrubber, PatternError>)
        ensures
            r is Ok <==> (regex_accepts(email_source()) && regex_accepts(url_source())
                && (roster_ident_source(devs@) matches Some(p) ==> regex_accepts(p))),
            r matches Ok(s) ==> {
                &&& s.email.source() == email_source()
                &&& s.url.source() == url_source()
                &&& (match s.ident {
                    Some(p) => roster_ident_source(devs@) == Some(p.source()),
                    None => roster_ident_source(devs@) is None,
                })
                &&& views(s.residual@) == sorted_listing(roster_leak_tokens(devs@))
            },
    {
        let email = match Pattern::compile("[A-Za-z0-9._%+\\-]+@[A-Za-z0-9.\\-]+\\.[A-Za-z]{2,}") {
            Ok(p) => p,
            Err(e) => {
                return Err(e);
            },
        };
        let url = match Pattern::compile("https?://[^\\s'\"<>)]+") {
            Ok(p) => p,
            Err(e) => {
                return Err(e);
            },
        };
        let mut toks: Vec<Vec<char>> = Vec::new();
        let mut residual: Vec<Vec<char>> = Vec::new();
        proof {
            assert(views(toks@).to_set() =~= roster_union(devs@, 0, |d: DevCfg| dev_scrub_tokens(d)));
            assert(views(residual@).to_set() =~= roster_union(devs@, 0, |d: DevCfg| dev_leak_tokens(d)));
        }
        let mut i: usize = 0;
        while i < devs.len()
            invariant
                i <= devs@.len(),
                strictly_sorted(views(toks@)),
                strictly_sorted(views(residual@)),
                views(toks@).to_set() == roster_union(devs@, i as int, |d: DevCfg| dev_scrub_tokens(d)),
                views(residual@).to_set() == roster_union(devs@, i as int, |d: DevCfg| dev_leak_tokens(d)),
            decreases devs@.len() - i,
        {
            let d = &devs[i];
            let ghost t0 = views(toks@).to_set();
            let ghost r0 = views(residual@).to_set();
            let logins = char_vecs(&d.logins);
            add_items(&mut toks, &mut residual, &logins, 3);
            let name = chars_of(d.name.as_str());
            let parts = split_words(&name);
            proof {
                assert(views(parts@) =~= words(d.name@));
            }
            add_items(&mut toks, &mut residual, &parts, 4);
            let whole = chars_of(escape_literal(string_of(&trim_chars(&name)).as_str()).as_str());
            insert_sorted_unique(&mut toks, whole);
            proof {
                let fs = |d: DevCfg| dev_scrub_tokens(d);
                let fl = |d: DevCfg| dev_leak_tokens(d);
                assert(views(toks@).to_set() =~= t0.union(dev_scrub_tokens(devs@[i as int])));
                assert(views(residual@).to_set() =~= r0.union(dev_leak_tokens(devs@[i as int])));
                assert(roster_union(devs@, i as int + 1, fs) =~= roster_union(devs@, i as int, fs).union(fs(devs@[i as int]))) by {
                    assert forall|t: Seq<char>| roster_union(devs@, i as int + 1, fs).contains(t) <==> (roster_union(devs@, i as int, fs).contains(t) || fs(devs@[i as int]).contains(t)) by {
                        if fs(devs@[i as int]).contains(t) {
                            assert(0 <= i < i + 1);
                        }
                        if roster_union(devs@, i as int + 1, fs).contains(t) {
                            let k = choose|k: int| 0 <= k < i + 1 && #[trigger] fs(devs@[k]).contains(t);
                            if k < i {
                                assert(roster_union(devs@, i as int, fs).contains(t));
                            }
                        }
                    }
                }
                assert(roster_union(devs@, i as int + 1, fl) =~= roster_union(devs@, i as int, fl).union(fl(devs@[i as int]))) by {
                    assert forall|t: Seq<char>| roster_union(devs@, i as int + 1, fl).contains(t) <==> (roster_union(devs@, i as int, fl).contains(t) || fl(devs@[i as int]).contains(t)) by {
                        if fl(devs@[i as int]).contains(t) {
                            assert(0 <= i < i + 1);
                        }
                        if roster_union(devs@, i as int + 1, fl).contains(t) {
                            let k = choose|k: int| 0 <= k < i + 1 && #[trigger] fl(devs@[k]).contains(t);
                            if k < i {
                                assert(roster_union(devs@, i as int, fl).contains(t));
                            }
                        }
                    }
                }
            }
            i += 1;
        }
        proof {
            lemma_is_sorted_listing(views(toks@));
            lemma_is_sorted_listing(views(residual@));
        }
        let ident = if devs.len() == 0 {
            None
        } else {
            let mut src: Vec<char> = chars_of("(?i)\\b(");
            let body = join_chars(&toks, &chars_of("|"));
            crate::text::append_chars(&mut src, &body);
            crate::text::append_chars(&mut src, &chars_of(")\\b"));
            match Pattern::compile(string_of(&src).as_str()) {
                Ok(p) => Some(p),
                Err(e) => {
                    return Err(e);
                },
            }
        };
        Ok(Scrubber { email, url, ident, residual })
    }

    /// Replaces e-mail addresses by `EMAIL`, then URLs by `URL`, then roster names by
    /// `NAME`.
    pub fn scrub(&self, text: &str) -> (r: String)
        ensures
            r@ == scrub_spec(
                self.email.source(),
                self.url.source(),
                match self.ident {
                    Some(p) => Some(p.source()),
                    None => None,
                },
                text@,
            ),
    {
        let t1 = self.email.replace_all_raw(text, "EMAIL");
        let t2 = self.url.replace_all_raw(t1.as_str(), "URL");
        match &self.ident {
            Some(re) => re.replace_all_raw(t2.as_str(), "NAME"),
            None => t2,
        }
    }

    /// True when a leak token survives in `text` (compared lowercased): such a passage
    /// is dropped.
    pub fn leaks(&self, text: &str) -> (b: bool)
        ensures
            b == leaks_spec(views(self.residual@), text@),
    {
        let low = chars_of(to_lower(text).as_str());
        let mut i: usize = 0;
        while i < self.residual.len()
            invariant
                i <= self.residual@.len(),
                low@ == lowercase(text@),
                forall|k: int| 0 <= k < i ==> !contains(low@, #[trigger] views(self.residual@)[k]),
            decreases self.residual@.len() - i,
        {
            if contains_chars(&low, self.residual[i].as_slice()) {
                proof {
                    assert(views(self.residual@)[i as int] == self.residual@[i as int]@);
                }
                return true;
            }
            proof {
                assert(views(self.residual@)[i as int] == self.residual@[i as int]@);
            }
            i += 1;
        }
        false
    }
}

} // verus!
