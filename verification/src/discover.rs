//! Seeding the roster: a tally of every non-bot committer's added code lines in a
//! repository (with the first and last year they added any), and its top rows.

use vstd::prelude::*;

use crate::codefilter::{keep_file, keep_file_spec, plus_path, plus_path_spec};
use crate::identity::{is_bot, is_bot_spec};
use crate::lex::chars_eq;
use crate::numparse::{parse_i64, parse_i64_spec};
use crate::scan::{split_on, split_on_char};
use crate::scrub::string_views;
use crate::text::{append_chars, chars_of, slice_chars, starts_with, starts_with_chars, string_of};

verus! {

broadcast use vstd::string::group_string_axioms;

/// Seconds in a Julian year, the unit of the rough commit year.
pub const SECONDS_PER_YEAR: i64 = 31_557_600;

/// The rough year of a commit time (1970 plus whole Julian years, truncated toward
/// zero); 0 when the time field does not parse.
pub open spec fn rough_year(ct: Seq<char>) -> i64 {
    match parse_i64_spec(ct) {
        Some(t) => if t >= 0 {
            (1970 + t / SECONDS_PER_YEAR) as i64
        } else {
            (1970 - (-(t as int)) / (SECONDS_PER_YEAR as int)) as i64
        },
        None => 0,
    }
}

/// Added lines, first year and last year of one committer. A year of 0 (unknown) does
/// not move the span.
pub open spec fn bump(st: (u64, i64, i64), year: i64) -> (u64, i64, i64) {
    let n = if st.0 == u64::MAX { st.0 } else { (st.0 + 1) as u64 };
    if year != 0 {
        (n, if year < st.1 { year } else { st.1 }, if year > st.2 { year } else { st.2 })
    } else {
        (n, st.1, st.2)
    }
}

/// The tally as (key, stats) entries in order of first appearance.
pub open spec fn tally_add(t: Seq<(Seq<char>, (u64, i64, i64))>, k: Seq<char>, year: i64) -> Seq<(Seq<char>, (u64, i64, i64))> {
    if exists|i: int| 0 <= i < t.len() && t[i].0 == k {
        let i = choose|i: int| 0 <= i < t.len() && t[i].0 == k;
        t.update(i, (k, bump(t[i].1, year)))
    } else {
        t.push((k, bump((0, year, year), year)))
    }
}

/// No key occurs twice.
pub open spec fn keys_distinct(t: Seq<(Seq<char>, (u64, i64, i64))>) -> bool {
    forall|i: int, j: int| 0 <= i < j < t.len() ==> #[trigger] t[i].0 != #[trigger] t[j].0
}

/// The state of the scan.
pub struct DiscoverModel {
    pub cur_key: Option<Seq<char>>,
    pub cur_year: i64,
    pub cur_keep: bool,
    pub tally: Seq<(Seq<char>, (u64, i64, i64))>,
}

/// One line of `git log -p` output: a non-bot commit header sets the current committer
/// (`name\temail`) and year, a bot header clears the committer; `+++ ` decides whether
/// the file counts as code; `diff --git ` stops counting; an added line counts for the
/// current committer while the file counts.
pub open spec fn discover_step(s: DiscoverModel, line: Seq<char>, langs: Seq<Seq<char>>, exclude: Seq<Seq<char>>) -> DiscoverModel {
    if line.len() > 0 && line[0] == '\u{1}' {
        let f = split_on(line.skip(1), '\u{1f}');
        let an = if f.len() > 1 { f[1] } else { Seq::empty() };
        let ae = if f.len() > 2 { f[2] } else { Seq::empty() };
        let ct = if f.len() > 3 { f[3] } else { Seq::empty() };
        if is_bot_spec(an, ae) {
            DiscoverModel { cur_key: None, ..s }
        } else {
            DiscoverModel { cur_key: Some(an + seq!['\t'] + ae), cur_year: rough_year(ct), ..s }
        }
    } else if starts_with(line, "+++ "@) {
        let keep = match plus_path_spec(line) {
            Some(p) => keep_file_spec(p, langs, exclude),
            None => false,
        };
        DiscoverModel { cur_keep: keep, ..s }
    } else if starts_with(line, "diff --git "@) {
        DiscoverModel { cur_keep: false, ..s }
    } else if starts_with(line, "+++"@) {
        s
    } else if starts_with(line, "+"@) && s.cur_keep {
        match s.cur_key {
            Some(k) => DiscoverModel { tally: tally_add(s.tally, k, s.cur_year), ..s },
            None => s,
        }
    } else {
        s
    }
}

/// The committer tally of one repository's log.
pub struct DiscoverScan {
    pub cur_key: Option<Vec<char>>,
    pub cur_year: i64,
    pub cur_keep: bool,
    pub keys: Vec<Vec<char>>,
    pub stats: Vec<(u64, i64, i64)>,
}

/// The tally entries of parallel key and stats lists.
pub open spec fn tally_view(keys: Seq<Vec<char>>, stats: Seq<(u64, i64, i64)>) -> Seq<(Seq<char>, (u64, i64, i64))> {
    Seq::new(keys.len(), |i: int| (keys[i]@, stats[i]))
}

impl DiscoverScan {
    pub open spec fn model(&self) -> DiscoverModel {
        DiscoverModel {
            cur_key: match self.cur_key {
                Some(k) => Some(k@),
                None => None,
            },
            cur_year: self.cur_year,
            cur_keep: self.cur_keep,
            tally: tally_view(self.keys@, self.stats@),
        }
    }

    pub open spec fn wf(&self) -> bool {
        &&& self.keys@.len() == self.stats@.len()
        &&& keys_distinct(tally_view(self.keys@, self.stats@))
    }

    /// A scan before the first line.
    pub fn new() -> (s: DiscoverScan)
        ensures
            s.wf(),
            s.model() == (DiscoverModel { cur_key: None, cur_year: 0, cur_keep: false, tally: Seq::empty() }),
    {
        let s = DiscoverScan { cur_key: None, cur_year: 0, cur_keep: false, keys: Vec::new(), stats: Vec::new() };
        assert(tally_view(s.keys@, s.stats@) =~= Seq::<(Seq<char>, (u64, i64, i64))>::empty());
        s
    }

    fn add(&mut self, k: &Vec<char>)
        requires
            old(self).wf(),
        ensures
            final(self).wf(),
            final(self).cur_key == old(self).cur_key,
            final(self).cur_year == old(self).cur_year,
            final(self).cur_keep == old(self).cur_keep,
            tally_view(final(self).keys@, final(self).stats@) == tally_add(
                tally_view(old(self).keys@, old(self).stats@),
                k@,
                old(self).cur_year,
            ),
    {
        let ghost t = tally_view(self.keys@, self.stats@);
        let year = self.cur_year;
        let mut i: usize = 0;
        while i < self.keys.len()
            invariant
                i <= self.keys@.len(),
                self.keys@ == old(self).keys@,
                self.stats@ == old(self).stats@,
                self.keys@.len() == self.stats@.len(),
                self.cur_key == old(self).cur_key,
                self.cur_year == old(self).cur_year,
                self.cur_keep == old(self).cur_keep,
                year == old(self).cur_year,
                t == tally_view(self.keys@, self.stats@),
                keys_distinct(t),
                forall|j: int| 0 <= j < i ==> t[j].0 != k@,
            decreases self.keys@.len() - i,
        {
            if chars_eq(self.keys[i].as_slice(), k.as_slice()) {
                let st = self.stats[i];
                let n: u64 = if st.0 == u64::MAX { st.0 } else { st.0 + 1 };
                let first = if year != 0 && year < st.1 { year } else { st.1 };
                let last = if year != 0 && year > st.2 { year } else { st.2 };
                self.stats.set(i, (n, first, last));
                proof {
                    assert(t[i as int].0 == k@);
                    let c = choose|c: int| 0 <= c < t.len() && t[c].0 == k@;
                    if c != i {
                        if c < i {
                            assert(t[c].0 != k@);
                        } else {
                            assert(t[i as int].0 != t[c].0);
                        }
                    }
                    assert(tally_view(self.keys@, self.stats@) =~= t.update(i as int, (k@, bump(t[i as int].1, year))));
                    assert forall|a: int, b: int| 0 <= a < b < self.keys@.len() implies #[trigger] tally_view(self.keys@, self.stats@)[a].0 != #[trigger] tally_view(self.keys@, self.stats@)[b].0 by {
                        assert(t[a].0 != t[b].0);
                    }
                }
                return;
            }
            i += 1;
        }
        let ghost kv = k@;
        self.keys.push(k.clone());
        self.stats.push((1, year, year));
        proof {
            assert(!(exists|c: int| 0 <= c < t.len() && t[c].0 == kv));
            assert(bump((0, year, year), year) == (1u64, year, year));
            assert(tally_view(self.keys@, self.stats@) =~= t.push((kv, (1u64, year, year))));
            assert forall|a: int, b: int| 0 <= a < b < self.keys@.len() implies #[trigger] tally_view(self.keys@, self.stats@)[a].0 != #[trigger] tally_view(self.keys@, self.stats@)[b].0 by {
                if b == t.len() {
                    assert(t[a].0 != kv);
                } else {
                    assert(t[a].0 != t[b].0);
                }
            }
        }
    }

    /// Feeds one line of the log (`langs`: lowercased allowed extensions; `exclude`: the
    /// repository's excluded path substrings).
    pub fn step(&mut self, line: &str, langs: &[String], exclude: &[String])
        requires
            old(self).wf(),
        ensures
            final(self).wf(),
            final(self).model() == discover_step(old(self).model(), line@, string_views(langs@), string_views(exclude@)),
    {
        let cs = chars_of(line);
        if cs.len() > 0 && cs[0] == '\u{1}' {
            let rest = slice_chars(&cs, 1, cs.len());
            proof {
                assert(rest@ == line@.skip(1));
            }
            let f = split_on_char(&rest, '\u{1f}');
            let ghost fv = f@.map_values(|w: Vec<char>| w@);
            let an: Vec<char> = if f.len() > 1 { f[1].clone() } else { Vec::new() };
            let ae: Vec<char> = if f.len() > 2 { f[2].clone() } else { Vec::new() };
            let ct: Vec<char> = if f.len() > 3 { f[3].clone() } else { Vec::new() };
            proof {
                if f@.len() > 1 { assert(fv[1] == f@[1]@); }
                if f@.len() > 2 { assert(fv[2] == f@[2]@); }
                if f@.len() > 3 { assert(fv[3] == f@[3]@); }
            }
            if is_bot(string_of(&an).as_str(), string_of(&ae).as_str()) {
                self.cur_key = None;
                return;
            }
            self.cur_year = match parse_i64(&ct) {
                Some(t) => if t >= 0 {
                    1970 + t / SECONDS_PER_YEAR
                } else {
                    1970 - (-(t + 1) / SECONDS_PER_YEAR + if (-(t + 1)) % SECONDS_PER_YEAR == SECONDS_PER_YEAR - 1 { 1 } else { 0 })
                },
                None => 0,
            };
            let mut key = an;
            key.push('\t');
            append_chars(&mut key, &ae);
            proof {
                assert(key@ =~= an@ + seq!['\t'] + ae@);
            }
            self.cur_key = Some(key);
            return;
        }
        if starts_with_chars(&cs, &chars_of("+++ ")) {
            self.cur_keep = match plus_path(line) {
                Some(p) => keep_file(p.as_str(), langs, exclude),
                None => false,
            };
        } else if starts_with_chars(&cs, &chars_of("diff --git ")) {
            self.cur_keep = false;
        } else if starts_with_chars(&cs, &chars_of("+++")) {
        } else if starts_with_chars(&cs, &chars_of("+")) && self.cur_keep {
            match &self.cur_key {
                Some(k) => {
                    let k2 = k.clone();
                    self.add(&k2);
                },
                None => {},
            }
        }
    }
}

/// Entry `i` of the tally ranks before entry `j`: more added lines, or as many and
/// seen earlier.
pub open spec fn heavier(t: Seq<(Seq<char>, (u64, i64, i64))>, i: int, j: int) -> bool {
    t[i].1.0 > t[j].1.0 || (t[i].1.0 == t[j].1.0 && i < j)
}

/// `order` lists the `limit` heaviest entries of `t` (all when there are fewer),
/// heaviest first.
pub open spec fn is_top_order(t: Seq<(Seq<char>, (u64, i64, i64))>, limit: nat, order: Seq<int>) -> bool {
    &&& order.len() == (if limit < t.len() { limit } else { t.len() })
    &&& forall|a: int| 0 <= a < order.len() ==> 0 <= #[trigger] order[a] < t.len()
    &&& forall|a: int, b: int| 0 <= a < b < order.len() ==> heavier(t, #[trigger] order[a], #[trigger] order[b])
    &&& forall|j: int, a: int| #![trigger order[a], t[j]]
        0 <= j < t.len() && !order.contains(j) && 0 <= a < order.len() ==> heavier(t, order[a], j)
}

/// A tally key split back into name and email at its first tab (all name when there
/// is no tab).
pub open spec fn split_key(k: Seq<char>) -> (Seq<char>, Seq<char>) {
    if exists|i: int| 0 <= i < k.len() && k[i] == '\t' {
        let i = choose|i: int| 0 <= i < k.len() && k[i] == '\t' && forall|j: int| 0 <= j < i ==> k[j] != '\t';
        (k.take(i), k.skip(i + 1))
    } else {
        (k, Seq::empty())
    }
}

/// The row of a tally entry: name, email, added lines, first and last year.
pub open spec fn row_of(e: (Seq<char>, (u64, i64, i64))) -> (Seq<char>, Seq<char>, u64, i64, i64) {
    (split_key(e.0).0, split_key(e.0).1, e.1.0, e.1.1, e.1.2)
}

/// The view of an output row.
pub open spec fn row_view(r: (String, String, u64, i64, i64)) -> (Seq<char>, Seq<char>, u64, i64, i64) {
    (r.0@, r.1@, r.2, r.3, r.4)
}

fn split_tab(k: &Vec<char>) -> (r: (String, String))
    ensures
        (r.0@, r.1@) == split_key(k@),
{
    let mut i: usize = 0;
    while i < k.len()
        invariant
            i <= k@.len(),
            forall|j: int| 0 <= j < i ==> k@[j] != '\t',
        decreases k@.len() - i,
    {
        if k[i] == '\t' {
            proof {
                let c = choose|c: int| 0 <= c < k@.len() && k@[c] == '\t' && forall|j: int| 0 <= j < c ==> k@[j] != '\t';
                assert(0 <= i < k@.len() && k@[i as int] == '\t' && forall|j: int| 0 <= j < i ==> k@[j] != '\t');
                if c < i {
                } else if c > i {
                    assert(k@[i as int] != '\t');
                }
            }
            let name = string_of(&slice_chars(k, 0, i));
            let email = string_of(&slice_chars(k, i + 1, k.len()));
            proof {
                assert(k@.subrange(0, i as int) =~= k@.take(i as int));
                assert(k@.subrange(i as int + 1, k@.len() as int) =~= k@.skip(i as int + 1));
            }
            return (name, email);
        }
        i += 1;
    }
    (string_of(k), String::new())
}

impl DiscoverScan {
    /// The `limit` committers with the most added lines, most first (ties in order of
    /// first appearance), as (name, email, added lines, first year, last year).
    pub fn top_rows(&self, limit: usize) -> (r: Vec<(String, String, u64, i64, i64)>)
        requires
            self.wf(),
        ensures
            exists|order: Seq<int>| {
                &&& is_top_order(tally_view(self.keys@, self.stats@), limit as nat, order)
                &&& r@.len() == order.len()
                &&& forall|a: int| 0 <= a < order.len() ==> row_view(#[trigger] r@[a]) == row_of(
                    tally_view(self.keys@, self.stats@)[order[a]],
                )
            },
    {
        let ghost t = tally_view(self.keys@, self.stats@);
        let n = self.keys.len();
        let lim: usize = if limit < n { limit } else { n };
        let mut chosen: Vec<bool> = Vec::new();
        let mut q: usize = 0;
        while q < n
            invariant
                q <= n,
                chosen@.len() == q,
                forall|j: int| 0 <= j < q ==> !#[trigger] chosen@[j],
            decreases n - q,
        {
            chosen.push(false);
            q += 1;
        }
        let mut out: Vec<(String, String, u64, i64, i64)> = Vec::new();
        let ghost mut order: Seq<int> = Seq::empty();
        while out.len() < lim
            invariant
                lim <= n,
                n == self.keys@.len(),
                n == self.stats@.len(),
                t == tally_view(self.keys@, self.stats@),
                lim == (if limit < n { limit } else { n }),
                chosen@.len() == n,
                out@.len() == order.len(),
                out@.len() <= lim,
                forall|a: int| 0 <= a < order.len() ==> 0 <= #[trigger] order[a] < n && chosen@[order[a]],
                forall|a: int| 0 <= a < order.len() ==> row_view(#[trigger] out@[a]) == row_of(t[order[a]]),
                forall|j: int| 0 <= j < n && #[trigger] chosen@[j] ==> order.contains(j),
                forall|a: int, b: int| 0 <= a < b < order.len() ==> heavier(t, #[trigger] order[a], #[trigger] order[b]),
                forall|j: int, a: int| 0 <= j < n && !#[trigger] chosen@[j] && 0 <= a < order.len() ==> heavier(t, #[trigger] order[a], j),
            decreases lim - out@.len(),
        {
            proof {
                if forall|j: int| 0 <= j < n ==> #[trigger] chosen@[j] {
                    let f = |j: int| choose|a: int| 0 <= a < order.len() && order[a] == j;
                    assert forall|j: int| 0 <= j < n implies 0 <= #[trigger] f(j) < order.len() && order[f(j)] == j by {
                        assert(chosen@[j]);
                        assert(order.contains(j));
                    }
                    assert forall|j1: int, j2: int| 0 <= j1 < n && 0 <= j2 < n && j1 != j2 implies #[trigger] f(j1) != #[trigger] f(j2) by {}
                    crate::ranking::lemma_injective_bound(f, n as int, order.len() as int);
                    assert(false);
                }
            }
            let mut best: usize = 0;
            while best < n && chosen[best]
                invariant
                    best <= n,
                    chosen@.len() == n,
                    forall|j: int| 0 <= j < best ==> #[trigger] chosen@[j],
                    exists|j: int| 0 <= j < n && !#[trigger] chosen@[j],
                decreases n - best,
            {
                best += 1;
            }
            let mut j: usize = best + 1;
            while j < n
                invariant
                    best < j <= n,
                    n == self.stats@.len(),
                    n == self.keys@.len(),
                    t == tally_view(self.keys@, self.stats@),
                    chosen@.len() == n,
                    !chosen@[best as int],
                    forall|i: int| 0 <= i < j && i != best && !#[trigger] chosen@[i] ==> heavier(t, best as int, i),
                decreases n - j,
            {
                if !chosen[j] && self.stats[j].0 > self.stats[best].0 {
                    proof {
                        assert forall|i: int| 0 <= i < j + 1 && i != j && !#[trigger] chosen@[i] implies heavier(t, j as int, i) by {
                            if i != best {
                                assert(heavier(t, best as int, i));
                            }
                        }
                    }
                    best = j;
                }
                j += 1;
            }
            let (name, email) = split_tab(&self.keys[best]);
            let st = self.stats[best];
            proof {
                assert(t[best as int] == (self.keys@[best as int]@, st));
            }
            let ghost old_chosen = chosen@;
            let ghost old_order = order;
            let ghost old_out = out@;
            out.push((name, email, st.0, st.1, st.2));
            chosen.set(best, true);
            proof {
                order = order.push(best as int);
                assert forall|jj: int| 0 <= jj < n && #[trigger] chosen@[jj] implies order.contains(jj) by {
                    if jj == best {
                        assert(order[order.len() - 1] == jj);
                    } else {
                        assert(old_chosen[jj]);
                        assert(old_order.contains(jj));
                        let a = choose|a: int| 0 <= a < old_order.len() && old_order[a] == jj;
                        assert(order[a] == jj);
                    }
                }
                assert forall|a: int| 0 <= a < order.len() implies row_view(#[trigger] out@[a]) == row_of(t[order[a]]) by {
                    if a < old_order.len() {
                        assert(out@[a] == old_out[a]);
                        assert(order[a] == old_order[a]);
                    }
                }
            }
        }
        proof {
            assert forall|jj: int, a: int| #![trigger order[a], t[jj]]
                0 <= jj < t.len() && !order.contains(jj) && 0 <= a < order.len() implies heavier(t, order[a], jj) by {
                if chosen@[jj] {
                    assert(order.contains(jj));
                }
            }
            assert(is_top_order(t, limit as nat, order));
        }
        out
    }
}

} // verus!
