//! Which code counts as a coder's own writing: path filters for vendored / generated
//! files, `+++` diff headers, trivial or whitespace-variant lines, and commit times.

use vstd::prelude::*;

use crate::attributes::distinct;
use crate::identity::{after_last, DevCfg};
use crate::lex::chars_eq;
use crate::model::Trait;
use crate::text::{
    alphabetic, alphanumeric, byte_len, chars_of, char_is_alphabetic, contains, contains_any,
    contains_chars, ends_with, ends_with_any, is_alphanumeric, join, join_chars, lowercase,
    slice_chars, split_words, starts_with, starts_with_chars, string_of, to_lower, trim, trim_chars,
    utf8_len, words,
};

verus! {

/// Path segments of vendored, generated or build output.
pub open spec fn bad_segments() -> Seq<Seq<char>> {
    seq![
        "vendor/"@, "node_modules/"@, "third_party/"@, "third-party/"@, "deps/"@, "external/"@,
        "testdata/"@, "fixtures/"@, "/dist/"@, "/build/"@, "/target/"@, "generated/"@, ".min."@,
    ]
}

/// Suffixes of minified, source-map and generated protobuf files.
pub open spec fn bad_suffixes() -> Seq<Seq<char>> {
    seq![".min.js"@, ".min.css"@, ".map"@, ".pb.go"@, "_pb2.py"@]
}

/// Lock files.
pub open spec fn lock_files() -> Seq<Seq<char>> {
    seq![
        "package-lock.json"@, "yarn.lock"@, "pnpm-lock.yaml"@, "cargo.lock"@, "poetry.lock"@,
        "composer.lock"@, "go.sum"@,
    ]
}

/// Some pattern of `pats` occurs in `h`.
pub open spec fn contains_some(h: Seq<char>, pats: Seq<Seq<char>>) -> bool {
    exists|k: int| 0 <= k < pats.len() && contains(h, #[trigger] pats[k])
}

/// `h` ends with some pattern of `pats`.
pub open spec fn ends_with_some(h: Seq<char>, pats: Seq<Seq<char>>) -> bool {
    exists|k: int| 0 <= k < pats.len() && ends_with(h, #[trigger] pats[k])
}

/// Path filter: the (lowercased) path has no vendored/generated segment, no excluded
/// substring, no minified/generated/lock-file suffix, and its extension is one of the
/// (lowercased) allowed languages.
pub open spec fn keep_file_spec(path: Seq<char>, langs: Seq<Seq<char>>, exclude: Seq<Seq<char>>) -> bool {
    let p = lowercase(path);
    &&& !contains_some(p, bad_segments())
    &&& !contains_some(p, exclude.map_values(|e: Seq<char>| lowercase(e)))
    &&& !ends_with_some(p, bad_suffixes())
    &&& !ends_with_some(p, lock_files())
    &&& contains(p, "."@)
    &&& langs.contains(after_last(p, '.'))
}

fn literal_list(lits: &[&str]) -> (v: Vec<Vec<char>>)
    ensures
        v@.len() == lits@.len(),
        forall|k: int| 0 <= k < lits@.len() ==> #[trigger] v@[k]@ == lits@[k]@,
{
    let mut v: Vec<Vec<char>> = Vec::new();
    let mut k: usize = 0;
    while k < lits.len()
        invariant
            k <= lits@.len(),
            v@.len() == k,
            forall|j: int| 0 <= j < k ==> #[trigger] v@[j]@ == lits@[j]@,
        decreases lits@.len() - k,
    {
        v.push(chars_of(lits[k]));
        k += 1;
    }
    v
}

/// Whether a changed file counts as source in one of the allowed languages (`langs`
/// holds lowercased extensions).
pub fn keep_file(path: &str, langs: &[String], exclude: &[String]) -> (b: bool)
    ensures
        b == keep_file_spec(
            path@,
            langs@.map_values(|l: String| l@),
            exclude@.map_values(|e: String| e@),
        ),
{
    let p = chars_of(to_lower(path).as_str());
    let segs = literal_list(
        &[
            "vendor/", "node_modules/", "third_party/", "third-party/", "deps/", "external/",
            "testdata/", "fixtures/", "/dist/", "/build/", "/target/", "generated/", ".min.",
        ],
    );
    proof {
        assert(segs@.map_values(|w: Vec<char>| w@) =~= bad_segments());
    }
    if contains_any(&p, &segs) {
        proof {
            let k = choose|k: int| 0 <= k < segs@.len() && contains(p@, #[trigger] segs@[k]@);
            assert(bad_segments()[k] == segs@[k]@);
        }
        return false;
    }
    assert(!contains_some(p@, bad_segments())) by {
        if contains_some(p@, bad_segments()) {
            let k = choose|k: int| 0 <= k < bad_segments().len() && contains(p@, #[trigger] bad_segments()[k]);
            assert(bad_segments()[k] == segs@[k]@);
        }
    }
    let mut ex: Vec<Vec<char>> = Vec::new();
    let mut j: usize = 0;
    while j < exclude.len()
        invariant
            j <= exclude@.len(),
            ex@.len() == j,
            forall|l: int| 0 <= l < j ==> #[trigger] ex@[l]@ == lowercase(exclude@[l]@),
        decreases exclude@.len() - j,
    {
        ex.push(chars_of(to_lower(exclude[j].as_str()).as_str()));
        j += 1;
    }
    let ghost exl = exclude@.map_values(|e: String| e@).map_values(|e: Seq<char>| lowercase(e));
    assert forall|l: int| 0 <= l < exl.len() implies #[trigger] exl[l] == ex@[l]@ by {}
    if contains_any(&p, &ex) {
        proof {
            let k = choose|k: int| 0 <= k < ex@.len() && contains(p@, #[trigger] ex@[k]@);
            assert(exl[k] == ex@[k]@);
        }
        return false;
    }
    assert(!contains_some(p@, exl)) by {
        if contains_some(p@, exl) {
            let k = choose|k: int| 0 <= k < exl.len() && contains(p@, #[trigger] exl[k]);
            assert(exl[k] == ex@[k]@);
        }
    }
    let sufs = literal_list(&[".min.js", ".min.css", ".map", ".pb.go", "_pb2.py"]);
    if ends_with_any(&p, &sufs) {
        proof {
            let k = choose|k: int| 0 <= k < sufs@.len() && ends_with(p@, #[trigger] sufs@[k]@);
            assert(bad_suffixes()[k] == sufs@[k]@);
        }
        return false;
    }
    assert(!ends_with_some(p@, bad_suffixes())) by {
        if ends_with_some(p@, bad_suffixes()) {
            let k = choose|k: int| 0 <= k < bad_suffixes().len() && ends_with(p@, #[trigger] bad_suffixes()[k]);
            assert(bad_suffixes()[k] == sufs@[k]@);
        }
    }
    let locks = literal_list(
        &[
            "package-lock.json", "yarn.lock", "pnpm-lock.yaml", "cargo.lock", "poetry.lock",
            "composer.lock", "go.sum",
        ],
    );
    if ends_with_any(&p, &locks) {
        proof {
            let k = choose|k: int| 0 <= k < locks@.len() && ends_with(p@, #[trigger] locks@[k]@);
            assert(lock_files()[k] == locks@[k]@);
        }
        return false;
    }
    assert(!ends_with_some(p@, lock_files())) by {
        if ends_with_some(p@, lock_files()) {
            let k = choose|k: int| 0 <= k < lock_files().len() && ends_with(p@, #[trigger] lock_files()[k]);
            assert(lock_files()[k] == locks@[k]@);
        }
    }
    if !contains_chars(&p, &chars_of(".")) {
        return false;
    }
    let start = crate::identity::after_last_index(&p, '.');
    let ext = slice_chars(&p, start, p.len());
    assert(ext@ =~= after_last(p@, '.'));
    let mut k: usize = 0;
    while k < langs.len()
        invariant
            k <= langs@.len(),
            forall|l: int| 0 <= l < k ==> langs@[l]@ != ext@,
            p@ == lowercase(path@),
            ext@ == after_last(p@, '.'),
            contains(p@, "."@),
            !contains_some(p@, bad_segments()),
            !contains_some(p@, exl),
            exl == exclude@.map_values(|e: String| e@).map_values(|e: Seq<char>| lowercase(e)),
            !ends_with_some(p@, bad_suffixes()),
            !ends_with_some(p@, lock_files()),
        decreases langs@.len() - k,
    {
        if chars_eq(&chars_of(langs[k].as_str()), &ext) {
            assert(langs@.map_values(|l: String| l@)[k as int] == ext@);
            return true;
        }
        k += 1;
    }
    let ghost lv = langs@.map_values(|l: String| l@);
    assert(!lv.contains(ext@)) by {
        if lv.contains(ext@) {
            let l = choose|l: int| 0 <= l < lv.len() && #[trigger] lv[l] == ext@;
            assert(langs@[l]@ == ext@);
        }
    }
    false
}


/// The new-file path of a `+++ b/<path>` diff header (`None` for `/dev/null` or a line
/// that is not a `+++ ` header).
pub open spec fn plus_path_spec(line: Seq<char>) -> Option<Seq<char>> {
    if starts_with(line, "+++ "@) {
        let p = line.skip(4);
        let p2 = if starts_with(p, "b/"@) { p.skip(2) } else { p };
        if p2 == "/dev/null"@ {
            None
        } else {
            Some(p2)
        }
    } else {
        None
    }
}

/// Extract the new-file path from a `+++ b/<path>` diff line.
pub fn plus_path(line: &str) -> (r: Option<String>)
    ensures
        match r {
            Some(p) => plus_path_spec(line@) == Some(p@),
            None => plus_path_spec(line@) is None,
        },
{
    let l = chars_of(line);
    proof {
        reveal_strlit("+++ ");
        reveal_strlit("b/");
    }
    let head = chars_of("+++ ");
    if !starts_with_chars(&l, &head) {
        return None;
    }
    let p = slice_chars(&l, 4, l.len());
    assert(p@ =~= l@.skip(4));
    let p2 = if starts_with_chars(&p, &chars_of("b/")) {
        let q = slice_chars(&p, 2, p.len());
        assert(q@ =~= p@.skip(2));
        q
    } else {
        p
    };
    if chars_eq(&p2, &chars_of("/dev/null")) {
        None
    } else {
        Some(string_of(&p2))
    }
}

/// A line with its whitespace normalized: words joined by single spaces.
pub open spec fn norm_line_spec(l: Seq<char>) -> Seq<char> {
    join(words(l), seq![' '])
}

/// Collapse every run of whitespace to one space and drop leading/trailing whitespace.
pub fn norm_line(l: &str) -> (r: String)
    ensures
        r@ == norm_line_spec(l@),
{
    let ws = split_words(&chars_of(l));
    let mut sep: Vec<char> = Vec::new();
    sep.push(' ');
    assert(sep@ =~= seq![' ']);
    string_of(&join_chars(&ws, &sep))
}

/// Identifier-token separators: anything but alphanumerics and `_`.
pub open spec fn is_token_sep(c: char) -> bool {
    !(alphanumeric(c) || c == '_')
}

/// The pieces of `s` between separators (empty pieces included), as a left-to-right scan.
pub open spec fn pieces_acc(s: Seq<char>, cur: Seq<char>, acc: Seq<Seq<char>>) -> Seq<Seq<char>>
    decreases s.len(),
{
    if s.len() == 0 {
        acc.push(cur)
    } else if is_token_sep(s[0]) {
        pieces_acc(s.drop_first(), Seq::empty(), acc.push(cur))
    } else {
        pieces_acc(s.drop_first(), cur.push(s[0]), acc)
    }
}

/// The pieces of `s` split on token separators (what `str::split` with that predicate yields).
pub open spec fn token_pieces(s: Seq<char>) -> Seq<Seq<char>> {
    pieces_acc(s, Seq::empty(), Seq::empty())
}

/// An identifier-like token: at least 3 bytes, starting with a letter or `_`.
pub open spec fn is_word_token(t: Seq<char>) -> bool {
    utf8_len(t) >= 3 && t.len() > 0 && (alphabetic(t[0]) || t[0] == '_')
}

/// The word tokens among `ps`, in order.
pub open spec fn word_tokens(ps: Seq<Seq<char>>) -> Seq<Seq<char>>
    decreases ps.len(),
{
    if ps.len() == 0 {
        Seq::empty()
    } else if is_word_token(ps.last()) {
        word_tokens(ps.drop_last()).push(ps.last())
    } else {
        word_tokens(ps.drop_last())
    }
}

/// A passage too trivial to keep: under 20 bytes once trimmed, or fewer than 5
/// distinct identifier-like tokens.
pub open spec fn is_trivial_spec(text: Seq<char>) -> bool {
    utf8_len(trim(text)) < 20 || distinct(word_tokens(token_pieces(text))).len() < 5
}

fn split_tokens(s: &[char]) -> (ps: Vec<Vec<char>>)
    ensures
        ps@.map_values(|w: Vec<char>| w@) == token_pieces(s@),
{
    let mut ps: Vec<Vec<char>> = Vec::new();
    let mut cur: Vec<char> = Vec::new();
    let mut i: usize = 0;
    proof {
        assert(s@.skip(0) =~= s@);
        assert(ps@.map_values(|w: Vec<char>| w@) =~= Seq::<Seq<char>>::empty());
        assert(cur@ =~= Seq::<char>::empty());
    }
    while i < s.len()
        invariant
            i <= s@.len(),
            token_pieces(s@) == pieces_acc(s@.skip(i as int), cur@, ps@.map_values(|w: Vec<char>| w@)),
        decreases s@.len() - i,
    {
        proof {
            assert(s@.skip(i as int).drop_first() =~= s@.skip(i as int + 1));
        }
        let c = s[i];
        if !(is_alphanumeric(c) || c == '_') {
            let w = cur;
            cur = Vec::new();
            proof {
                assert(ps@.push(w).map_values(|w: Vec<char>| w@) =~= ps@.map_values(|w: Vec<char>| w@).push(w@));
            }
            ps.push(w);
            assert(cur@ =~= Seq::<char>::empty());
        } else {
            cur.push(c);
        }
        i += 1;
    }
    proof {
        assert(s@.skip(i as int) =~= Seq::<char>::empty());
        assert(ps@.push(cur).map_values(|w: Vec<char>| w@) =~= ps@.map_values(|w: Vec<char>| w@).push(cur@));
    }
    ps.push(cur);
    ps
}

/// Whether a passage is too trivial to keep.
pub fn is_trivial(text: &str) -> (b: bool)
    ensures
        b == is_trivial_spec(text@),
{
    let cs = chars_of(text);
    if byte_len(&trim_chars(&cs)) < 20 {
        return true;
    }
    let ps = split_tokens(&cs);
    let ghost pv = ps@.map_values(|w: Vec<char>| w@);
    let mut distinct_toks: Vec<Vec<char>> = Vec::new();
    let mut i: usize = 0;
    while i < ps.len()
        invariant
            i <= ps@.len(),
            pv == ps@.map_values(|w: Vec<char>| w@),
            distinct_toks@.map_values(|w: Vec<char>| w@) == distinct(word_tokens(pv.take(i as int))),
        decreases ps@.len() - i,
    {
        let t = &ps[i];
        proof {
            assert(pv.take(i as int + 1).drop_last() =~= pv.take(i as int));
            assert(pv[i as int] == t@);
        }
        let first_ok = t.len() > 0 && (char_is_alphabetic(t[0]) || t[0] == '_');
        let ghost wt = word_tokens(pv.take(i as int));
        proof {
            assert(wt.push(t@).drop_last() =~= wt);
        }
        if byte_len(t.as_slice()) >= 3 && first_ok {
            let ghost dv = distinct_toks@.map_values(|w: Vec<char>| w@);
            let mut present = false;
            let mut j: usize = 0;
            while j < distinct_toks.len()
                invariant
                    j <= distinct_toks@.len(),
                    dv == distinct_toks@.map_values(|w: Vec<char>| w@),
                    present <==> exists|q: int| 0 <= q < j && dv[q] == t@,
                decreases distinct_toks@.len() - j,
            {
                assert(dv[j as int] == distinct_toks@[j as int]@);
                if chars_eq(distinct_toks[j].as_slice(), t.as_slice()) {
                    present = true;
                }
                j += 1;
            }
            proof {
                if present {
                    let q = choose|q: int| 0 <= q < j && dv[q] == t@;
                    assert(dv.contains(t@));
                } else {
                    assert(!dv.contains(t@));
                }
            }
            if !present {
                distinct_toks.push(t.clone());
                assert(distinct_toks@.map_values(|w: Vec<char>| w@) =~= dv.push(t@));
            }
        }
        i += 1;
    }
    proof {
        assert(pv.take(i as int) =~= pv);
    }
    distinct_toks.len() < 5
}


/// `s` is in non-decreasing order.
pub open spec fn sorted_i64(s: Seq<i64>) -> bool {
    forall|i: int, j: int| 0 <= i <= j < s.len() ==> s[i] <= s[j]
}

proof fn lemma_insert_multiset(s: Seq<i64>, i: int, x: i64)
    requires
        0 <= i <= s.len(),
    ensures
        s.insert(i, x).to_multiset() == s.to_multiset().insert(x),
{
    broadcast use vstd::seq_lib::group_to_multiset_ensures;
    let t = s.insert(i, x);
    assert(t.remove(i) =~= s);
    assert(t.remove(i).to_multiset() == t.to_multiset().remove(t[i]));
    assert(t.to_multiset().count(x) > 0) by {
        assert(t.contains(x)) by {
            assert(t[i] == x);
        }
    }
    assert(t.to_multiset() =~= t.to_multiset().remove(x).insert(x));
}

/// Sort `times` ascending in place.
pub fn sort_times(times: &mut Vec<i64>)
    ensures
        sorted_i64(final(times)@),
        final(times)@.to_multiset() == old(times)@.to_multiset(),
{
    broadcast use vstd::seq_lib::group_to_multiset_ensures;
    let mut out: Vec<i64> = Vec::new();
    let mut i: usize = 0;
    while i < times.len()
        invariant
            i <= times@.len(),
            times@ == old(times)@,
            sorted_i64(out@),
            out@.to_multiset() == times@.take(i as int).to_multiset(),
        decreases times@.len() - i,
    {
        let x = times[i];
        let mut p: usize = 0;
        while p < out.len() && out[p] <= x
            invariant
                p <= out@.len(),
                forall|q: int| 0 <= q < p ==> out@[q] <= x,
            decreases out@.len() - p,
        {
            p += 1;
        }
        let ghost before = out@;
        out.insert(p, x);
        proof {
            lemma_insert_multiset(before, p as int, x);
            assert(out@ == before.insert(p as int, x));
            assert(times@.take(i as int + 1) =~= times@.take(i as int).push(x));
            vstd::seq_lib::to_multiset_build(times@.take(i as int), x);
            assert forall|a: int, b: int| 0 <= a <= b < out@.len() implies out@[a] <= out@[b] by {
                if a < p && b > p {
                    assert(out@[b] == before[b - 1]);
                } else if a == p && b > p {
                    assert(out@[b] == before[b - 1]);
                    assert(before[p as int] > x);
                } else if a > p {
                    assert(out@[a] == before[a - 1]);
                    assert(out@[b] == before[b - 1]);
                }
            }
        }
        i += 1;
    }
    proof {
        assert(times@.take(i as int) =~= times@);
    }
    *times = out;
}

/// Median authored time of a passage's lines: the element at position `len/2` of the
/// sorted times (0 when there are none). Sorts `times` in place.
pub fn median_time(times: &mut Vec<i64>) -> (m: i64)
    ensures
        sorted_i64(final(times)@),
        final(times)@.to_multiset() == old(times)@.to_multiset(),
        m == (if old(times)@.len() == 0 { 0 } else { final(times)@[(final(times)@.len() / 2) as int] }),
{
    broadcast use vstd::seq_lib::group_to_multiset_ensures;
    if times.len() == 0 {
        return 0;
    }
    sort_times(times);
    assert(times@.len() == times@.to_multiset().len());
    assert(old(times)@.len() == old(times)@.to_multiset().len());
    times[times.len() / 2]
}

/// A non-blank trait value, trimmed.
pub open spec fn pushed_trait(v: Seq<Trait>, name: Seq<char>, val: Seq<char>) -> Seq<(Seq<char>, Seq<char>)> {
    let tv = v.map_values(|t: Trait| (t.name@, t.value@));
    if trim(val).len() == 0 {
        tv
    } else {
        tv.push((name, trim(val)))
    }
}

/// Append trait `name` = trimmed `val`, unless `val` is blank.
pub fn push_trait(v: &mut Vec<Trait>, name: &str, val: &str)
    ensures
        final(v)@.map_values(|t: Trait| (t.name@, t.value@)) == pushed_trait(old(v)@, name@, val@),
{
    let t = trim_chars(&chars_of(val));
    if t.len() > 0 {
        let ghost before = v@;
        v.push(Trait { name: name.to_string(), value: string_of(&t) });
        assert(v@.map_values(|t: Trait| (t.name@, t.value@)) =~= before.map_values(|t: Trait| (t.name@, t.value@)).push((name@, t@)));
    }
}

/// `--author` patterns for a developer: their emails, their logins, and their full name.
pub open spec fn author_patterns_spec(d: DevCfg) -> Seq<Seq<char>> {
    d.emails@.map_values(|e: String| e@) + d.logins@.map_values(|l: String| l@) + seq![d.name@]
}

fn append_strings(p: &mut Vec<String>, items: &Vec<String>)
    ensures
        final(p)@.map_values(|s: String| s@) == old(p)@.map_values(|s: String| s@) + items@.map_values(|s: String| s@),
{
    let mut j: usize = 0;
    while j < items.len()
        invariant
            j <= items@.len(),
            p@.map_values(|s: String| s@) == old(p)@.map_values(|s: String| s@) + items@.take(j as int).map_values(|s: String| s@),
        decreases items@.len() - j,
    {
        let ghost before = p@;
        p.push(items[j].clone());
        assert(p@.map_values(|s: String| s@) =~= before.map_values(|s: String| s@).push(items@[j as int]@));
        assert(items@.take(j as int + 1).map_values(|s: String| s@) =~= items@.take(j as int).map_values(|s: String| s@).push(items@[j as int]@));
        j += 1;
    }
    assert(items@.take(j as int) =~= items@);
}

/// `--author` regex patterns for a developer: their emails, logins, and full name.
pub fn author_patterns(d: &DevCfg) -> (p: Vec<String>)
    ensures
        p@.map_values(|s: String| s@) == author_patterns_spec(*d),
{
    let mut p: Vec<String> = Vec::new();
    append_strings(&mut p, &d.emails);
    append_strings(&mut p, &d.logins);
    let ghost before = p@;
    p.push(d.name.clone());
    assert(p@.map_values(|s: String| s@) =~= before.map_values(|s: String| s@).push(d.name@));
    assert(Seq::<String>::empty().map_values(|s: String| s@) =~= Seq::<Seq<char>>::empty());
    p
}

} // verus!
