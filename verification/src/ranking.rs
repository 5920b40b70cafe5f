//! The most common classes of a categorical author field: counted over the roster,
//! ordered by count (descending) and then by name.

use vstd::prelude::*;

use crate::attributes::{author_classes, author_values, distinct, field_of, field_value, AttrField};
use crate::lex::{chars_eq, lemma_lex_irrefl, lemma_lex_total, lemma_lex_trans, lex_less, lex_lt};
use crate::model::AuthorMeta;
use crate::text::string_of;

verus! {

broadcast use vstd::string::group_string_axioms;

/// How many entries of `vals` equal `v`.
pub open spec fn value_count(vals: Seq<Seq<char>>, v: Seq<char>) -> nat
    decreases vals.len(),
{
    if vals.len() == 0 {
        0
    } else {
        value_count(vals.drop_last(), v) + if vals.last() == v { 1nat } else { 0nat }
    }
}

/// `a` ranks before `b`: it is more common, or as common and lexicographically smaller.
pub open spec fn ranks_before(vals: Seq<Seq<char>>, a: Seq<char>, b: Seq<char>) -> bool {
    value_count(vals, a) > value_count(vals, b) || (value_count(vals, a) == value_count(vals, b) && lex_lt(a, b))
}

/// The non-empty entries of `s`, in order.
pub open spec fn nonempty(s: Seq<Seq<char>>) -> Seq<Seq<char>>
    decreases s.len(),
{
    if s.len() == 0 {
        Seq::empty()
    } else if s.last().len() > 0 {
        nonempty(s.drop_last()).push(s.last())
    } else {
        nonempty(s.drop_last())
    }
}

/// A class that can be ranked: a non-empty value that occurs.
pub open spec fn is_class(vals: Seq<Seq<char>>, v: Seq<char>) -> bool {
    v.len() > 0 && vals.contains(v)
}

/// `r` is the list of the `k` top-ranked classes of `vals` (all of them when there are
/// fewer), best first.
pub open spec fn is_top_classes(vals: Seq<Seq<char>>, k: nat, r: Seq<Seq<char>>) -> bool {
    let n = nonempty(distinct(vals)).len();
    &&& r.len() == (if k < n { k } else { n })
    &&& forall|i: int| 0 <= i < r.len() ==> is_class(vals, #[trigger] r[i])
    &&& forall|i: int, j: int| 0 <= i < j < r.len() ==> ranks_before(vals, #[trigger] r[i], #[trigger] r[j])
    &&& forall|v: Seq<char>, i: int| #![trigger r[i], is_class(vals, v)]
        is_class(vals, v) && !r.contains(v) && 0 <= i < r.len() ==> ranks_before(vals, r[i], v)
}

proof fn lemma_distinct(vals: Seq<Seq<char>>)
    ensures
        distinct(vals).no_duplicates(),
        forall|v: Seq<char>| #[trigger] distinct(vals).contains(v) <==> vals.contains(v),
    decreases vals.len(),
{
    if vals.len() > 0 {
        lemma_distinct(vals.drop_last());
        let prev = distinct(vals.drop_last());
        assert forall|v: Seq<char>| #[trigger] distinct(vals).contains(v) <==> vals.contains(v) by {
            if vals.contains(v) {
                let i = choose|i: int| 0 <= i < vals.len() && vals[i] == v;
                if i < vals.len() - 1 {
                    assert(vals.drop_last().contains(v)) by {
                        assert(vals.drop_last()[i] == v);
                    }
                    assert(prev.contains(v));
                    if !prev.contains(vals.last()) {
                        assert(prev.push(vals.last()).contains(v)) by {
                            let j = choose|j: int| 0 <= j < prev.len() && prev[j] == v;
                            assert(prev.push(vals.last())[j] == v);
                        }
                    }
                } else {
                    if !prev.contains(vals.last()) {
                        assert(prev.push(vals.last())[prev.len() as int] == v);
                    }
                }
            }
            if distinct(vals).contains(v) {
                let j = choose|j: int| 0 <= j < distinct(vals).len() && distinct(vals)[j] == v;
                if j < prev.len() {
                    assert(prev[j] == v);
                    assert(prev.contains(v));
                    let i = choose|i: int| 0 <= i < vals.drop_last().len() && vals.drop_last()[i] == v;
                    assert(vals[i] == v);
                } else {
                    assert(vals[vals.len() - 1] == v);
                }
            }
        }
    }
}

proof fn lemma_nonempty(s: Seq<Seq<char>>)
    ensures
        forall|v: Seq<char>| #[trigger] nonempty(s).contains(v) <==> (s.contains(v) && v.len() > 0),
        s.no_duplicates() ==> nonempty(s).no_duplicates(),
    decreases s.len(),
{
    if s.len() > 0 {
        lemma_nonempty(s.drop_last());
        let p = nonempty(s.drop_last());
        assert forall|v: Seq<char>| #[trigger] nonempty(s).contains(v) <==> (s.contains(v) && v.len() > 0) by {
            if s.contains(v) && v.len() > 0 {
                let i = choose|i: int| 0 <= i < s.len() && s[i] == v;
                if i < s.len() - 1 {
                    assert(s.drop_last()[i] == v);
                    assert(p.contains(v));
                    let j = choose|j: int| 0 <= j < p.len() && p[j] == v;
                    if s.last().len() > 0 {
                        assert(p.push(s.last())[j] == v);
                    }
                } else {
                    assert(p.push(s.last())[p.len() as int] == v);
                }
            }
            if nonempty(s).contains(v) {
                let j = choose|j: int| 0 <= j < nonempty(s).len() && nonempty(s)[j] == v;
                if j < p.len() {
                    assert(p[j] == v);
                    assert(p.contains(v));
                    let i = choose|i: int| 0 <= i < s.drop_last().len() && s.drop_last()[i] == v;
                    assert(s[i] == v);
                } else {
                    assert(s[s.len() - 1] == v);
                }
            }
        }
        if s.no_duplicates() {
            assert(s.drop_last().no_duplicates()) by {
                assert forall|i: int, j: int| 0 <= i < s.drop_last().len() && 0 <= j < s.drop_last().len() && i != j implies s.drop_last()[i] != s.drop_last()[j] by {
                    assert(s.drop_last()[i] == s[i]);
                    assert(s.drop_last()[j] == s[j]);
                }
            }
            if s.last().len() > 0 {
                assert(!p.contains(s.last())) by {
                    if p.contains(s.last()) {
                        let i = choose|i: int| 0 <= i < s.drop_last().len() && s.drop_last()[i] == s.last();
                        assert(s[i] == s[s.len() - 1]);
                    }
                }
                let q = p.push(s.last());
                assert forall|i: int, j: int| 0 <= i < q.len() && 0 <= j < q.len() && i != j implies q[i] != q[j] by {
                    if i == p.len() {
                        if q[i] == q[j] {
                            assert(p[j] == s.last());
                        }
                    } else if j == p.len() {
                        if q[i] == q[j] {
                            assert(p[i] == s.last());
                        }
                    } else {
                        assert(q[i] == p[i] && q[j] == p[j]);
                    }
                }
            }
        }
    }
}

proof fn lemma_rank_total(vals: Seq<Seq<char>>, a: Seq<char>, b: Seq<char>)
    requires
        a != b,
    ensures
        ranks_before(vals, a, b) || ranks_before(vals, b, a),
{
    lemma_lex_total(a, b);
}

proof fn lemma_rank_trans(vals: Seq<Seq<char>>, a: Seq<char>, b: Seq<char>, c: Seq<char>)
    requires
        ranks_before(vals, a, b),
        ranks_before(vals, b, c),
    ensures
        ranks_before(vals, a, c),
{
    if value_count(vals, a) == value_count(vals, b) && value_count(vals, b) == value_count(vals, c) {
        lemma_lex_trans(a, b, c);
    }
}

/// Number of authors whose field value equals `v`.
fn count_value(authors: &[AuthorMeta], field: &AttrField, v: &[char]) -> (n: usize)
    ensures
        n == value_count(author_values(authors@, *field), v@),
{
    let ghost vals = author_values(authors@, *field);
    let mut n: usize = 0;
    let mut i: usize = 0;
    while i < authors.len()
        invariant
            i <= authors@.len(),
            vals == author_values(authors@, *field),
            n == value_count(vals.take(i as int), v@),
            n <= i,
        decreases authors@.len() - i,
    {
        proof {
            assert(vals.take(i as int + 1).drop_last() =~= vals.take(i as int));
            assert(vals.take(i as int + 1).last() == field_of(authors@[i as int], *field));
        }
        let x = field_value(&authors[i], field);
        if chars_eq(&x, v) {
            n += 1;
        }
        i += 1;
    }
    proof {
        assert(vals.take(i as int) =~= vals);
    }
    n
}

/// The `k` most common non-empty values of `field` over the roster, most common first,
/// ties broken by name.
pub fn top_classes(authors: &[AuthorMeta], field: &AttrField, k: usize) -> (r: Vec<String>)
    ensures
        is_top_classes(author_values(authors@, *field), k as nat, r@.map_values(|s: String| s@)),
{
    let ghost vals = author_values(authors@, *field);
    let (classes, _) = author_classes(authors, field);
    let ghost dv = classes@.map_values(|c: String| c@);
    proof {
        lemma_distinct(vals);
        lemma_nonempty(dv);
    }
    // Candidates: the non-empty distinct values with their counts.
    let mut cands: Vec<Vec<char>> = Vec::new();
    let mut counts: Vec<usize> = Vec::new();
    let mut c: usize = 0;
    proof {
        assert(dv.take(0) =~= Seq::<Seq<char>>::empty());
        assert(cands@.map_values(|w: Vec<char>| w@) =~= Seq::<Seq<char>>::empty());
    }
    while c < classes.len()
        invariant
            c <= classes@.len(),
            dv == classes@.map_values(|s: String| s@),
            dv == distinct(vals),
            vals == author_values(authors@, *field),
            cands@.map_values(|w: Vec<char>| w@) == nonempty(dv.take(c as int)),
            counts@.len() == cands@.len(),
            forall|j: int| 0 <= j < cands@.len() ==> #[trigger] counts@[j] == value_count(vals, cands@[j]@),
        decreases classes@.len() - c,
    {
        proof {
            assert(dv.take(c as int + 1).drop_last() =~= dv.take(c as int));
            assert(dv.take(c as int + 1).last() == classes@[c as int]@);
        }
        let v = crate::text::chars_of(classes[c].as_str());
        if v.len() > 0 {
            let n = count_value(authors, field, &v);
            let ghost before = cands@;
            cands.push(v);
            counts.push(n);
            proof {
                assert(cands@.map_values(|w: Vec<char>| w@) =~= before.map_values(|w: Vec<char>| w@).push(
                    classes@[c as int]@,
                ));
            }
        }
        c += 1;
    }
    proof {
        assert(dv.take(c as int) =~= dv);
    }
    let ghost cv = cands@.map_values(|w: Vec<char>| w@);
    let ncand = cands.len();
    proof {
        assert(cv == nonempty(distinct(vals)));
        assert(cv.no_duplicates());
        assert forall|v: Seq<char>| #[trigger] cv.contains(v) <==> is_class(vals, v) by {
            assert(dv.contains(v) <==> vals.contains(v));
        }
    }
    let lim: usize = if k < ncand { k } else { ncand };
    let mut chosen: Vec<bool> = Vec::new();
    let mut q: usize = 0;
    while q < ncand
        invariant
            q <= ncand,
            chosen@.len() == q,
            forall|j: int| 0 <= j < q ==> !#[trigger] chosen@[j],
        decreases ncand - q,
    {
        chosen.push(false);
        q += 1;
    }
    let mut out: Vec<Vec<char>> = Vec::new();
    let ghost mut picked: Seq<int> = Seq::empty();
    while out.len() < lim
        invariant
            lim <= ncand,
            ncand == cands@.len(),
            cv == cands@.map_values(|w: Vec<char>| w@),
            cv.no_duplicates(),
            counts@.len() == ncand,
            forall|j: int| 0 <= j < ncand ==> #[trigger] counts@[j] == value_count(vals, cv[j]),
            chosen@.len() == ncand,
            out@.len() == picked.len(),
            out@.len() <= lim,
            forall|t: int| 0 <= t < picked.len() ==> 0 <= #[trigger] picked[t] < ncand && chosen@[picked[t]]
                && out@[t]@ == cv[picked[t]],
            forall|j: int| 0 <= j < ncand && #[trigger] chosen@[j] ==> exists|t: int| 0 <= t < picked.len() && picked[t] == j,
            forall|t: int, u: int| 0 <= t < u < out@.len() ==> ranks_before(vals, #[trigger] out@[t]@, #[trigger] out@[u]@),
            forall|j: int, t: int| 0 <= j < ncand && !#[trigger] chosen@[j] && 0 <= t < out@.len() ==> ranks_before(vals, #[trigger] out@[t]@, cv[j]),
        decreases lim - out@.len(),
    {
        // Some candidate is still unchosen.
        proof {
            if forall|j: int| 0 <= j < ncand ==> #[trigger] chosen@[j] {
                // every candidate is picked, at distinct positions, so out is as long as cands
                let f = |j: int| choose|t: int| 0 <= t < picked.len() && picked[t] == j;
                assert forall|j: int| 0 <= j < ncand implies 0 <= #[trigger] f(j) < picked.len() by {
                    assert(chosen@[j]);
                }
                assert forall|j1: int, j2: int| 0 <= j1 < ncand && 0 <= j2 < ncand && j1 != j2 implies #[trigger] f(j1) != #[trigger] f(j2) by {
                    assert(chosen@[j1] && chosen@[j2]);
                }
                lemma_injective_bound(f, ncand as int, picked.len() as int);
                assert(false);
            }
        }
        let mut best: usize = 0;
        while best < ncand && chosen[best]
            invariant
                best <= ncand,
                chosen@.len() == ncand,
                forall|j: int| 0 <= j < best ==> #[trigger] chosen@[j],
                exists|j: int| 0 <= j < ncand && !#[trigger] chosen@[j],
            decreases ncand - best,
        {
            best += 1;
        }
        let mut j: usize = best + 1;
        while j < ncand
            invariant
                best < j <= ncand,
                ncand == cands@.len(),
                cv == cands@.map_values(|w: Vec<char>| w@),
                cv.no_duplicates(),
                counts@.len() == ncand,
                forall|i: int| 0 <= i < ncand ==> #[trigger] counts@[i] == value_count(vals, cv[i]),
                chosen@.len() == ncand,
                !chosen@[best as int],
                forall|i: int| 0 <= i < j && i != best && !#[trigger] chosen@[i] ==> ranks_before(vals, cv[best as int], cv[i]),
            decreases ncand - j,
        {
            if !chosen[j] {
                let better = counts[j] > counts[best]
                    || (counts[j] == counts[best] && lex_less(cands[j].as_slice(), cands[best].as_slice()));
                if better {
                    proof {
                        assert(ranks_before(vals, cv[j as int], cv[best as int]));
                        assert forall|i: int| 0 <= i < j + 1 && i != j && !#[trigger] chosen@[i] implies ranks_before(vals, cv[j as int], cv[i]) by {
                            if i != best {
                                lemma_rank_trans(vals, cv[j as int], cv[best as int], cv[i]);
                            }
                        }
                    }
                    best = j;
                } else {
                    proof {
                        assert(cv[j as int] != cv[best as int]);
                        lemma_rank_total(vals, cv[j as int], cv[best as int]);
                    }
                }
            }
            j += 1;
        }
        proof {
            let b = best as int;
            assert forall|t: int| 0 <= t < out@.len() implies ranks_before(vals, #[trigger] out@[t]@, cv[b]) by {}
            assert forall|i: int, t: int| 0 <= i < ncand && !#[trigger] chosen@[i] && i != b && 0 <= t < out@.len() + 1
                implies ranks_before(vals, #[trigger] out@.push(cands@[b])[t]@, cv[i]) by {
                if t == out@.len() {
                    assert(out@.push(cands@[b])[t] == cands@[b]);
                } else {
                    assert(out@.push(cands@[b])[t] == out@[t]);
                }
            }
        }
        let pick = cands[best].clone();
        assert(pick@ == cv[best as int]);
        let ghost old_chosen = chosen@;
        out.push(pick);
        chosen.set(best, true);
        proof {
            let old_picked = picked;
            picked = picked.push(best as int);
            assert forall|jj: int| 0 <= jj < ncand && #[trigger] chosen@[jj] implies exists|t: int| 0 <= t < picked.len() && picked[t] == jj by {
                if jj == best {
                    assert(picked[picked.len() - 1] == jj);
                } else {
                    assert(old_chosen[jj]);
                    let t = choose|t: int| 0 <= t < old_picked.len() && old_picked[t] == jj;
                    assert(picked[t] == jj);
                }
            }
        }
    }
    // Every unchosen candidate ranks after every output; classes are exactly candidates.
    let mut r: Vec<String> = Vec::new();
    let mut t: usize = 0;
    while t < out.len()
        invariant
            t <= out@.len(),
            r@.len() == t,
            forall|u: int| 0 <= u < t ==> #[trigger] r@[u]@ == out@[u]@,
        decreases out@.len() - t,
    {
        r.push(string_of(out[t].as_slice()));
        t += 1;
    }
    proof {
        let rv = r@.map_values(|s: String| s@);
        assert forall|i: int| 0 <= i < rv.len() implies is_class(vals, #[trigger] rv[i]) by {
            assert(rv[i] == out@[i]@);
            assert(cv.contains(cv[picked[i]]));
        }
        assert forall|i: int, j: int| 0 <= i < j < rv.len() implies ranks_before(vals, #[trigger] rv[i], #[trigger] rv[j]) by {
            assert(rv[i] == out@[i]@ && rv[j] == out@[j]@);
        }
        assert forall|v: Seq<char>, i: int| #![trigger rv[i], is_class(vals, v)]
            is_class(vals, v) && !rv.contains(v) && 0 <= i < rv.len() implies ranks_before(vals, rv[i], v) by {
            assert(cv.contains(v));
            let j = choose|j: int| 0 <= j < cv.len() && cv[j] == v;
            if chosen@[j] {
                let tt = choose|tt: int| 0 <= tt < picked.len() && picked[tt] == j;
                assert(rv[tt] == v);
                assert(rv.contains(v));
            }
            assert(rv[i] == out@[i]@);
        }
    }
    r
}

/// An injective map from `0..n` into `0..m` needs `n <= m`.
pub proof fn lemma_injective_bound(f: spec_fn(int) -> int, n: int, m: int)
    requires
        0 <= n,
        0 <= m,
        forall|j: int| 0 <= j < n ==> 0 <= #[trigger] f(j) < m,
        forall|j1: int, j2: int| 0 <= j1 < n && 0 <= j2 < n && j1 != j2 ==> #[trigger] f(j1) != #[trigger] f(j2),
    ensures
        n <= m,
{
    let dom = vstd::set_lib::set_int_range(0, n);
    let rng = vstd::set_lib::set_int_range(0, m);
    let img = dom.map(f);
    vstd::set_lib::lemma_int_range(0, n);
    vstd::set_lib::lemma_int_range(0, m);
    assert(img.subset_of(rng)) by {
        assert forall|t: int| img.contains(t) implies rng.contains(t) by {
            let j = choose|j: int| dom.contains(j) && f(j) == t;
        }
    }
    assert(vstd::relations::injective_on(f, dom));
    vstd::set_lib::lemma_map_size(dom, img, f);
    vstd::set_lib::lemma_len_subset(img, rng);
}

} // verus!
