//! Choosing representative items: evenly spread token positions and one example
//! passage per spread-out author.

use vstd::prelude::*;

use crate::model::Passage;

verus! {

/// `s` with runs of equal adjacent items collapsed to one (what `Vec::dedup` keeps).
pub open spec fn dedup_adjacent(s: Seq<usize>) -> Seq<usize>
    decreases s.len(),
{
    if s.len() <= 1 {
        s
    } else if s.last() == s[s.len() - 2] {
        dedup_adjacent(s.drop_last())
    } else {
        dedup_adjacent(s.drop_last()).push(s.last())
    }
}

/// Collapsing equal neighbours keeps the last item.
pub proof fn lemma_dedup_last(s: Seq<usize>)
    requires
        s.len() > 0,
    ensures
        dedup_adjacent(s).len() > 0,
        dedup_adjacent(s).last() == s.last(),
    decreases s.len(),
{
    if s.len() > 1 && s.last() == s[s.len() - 2] {
        lemma_dedup_last(s.drop_last());
    }
}

/// `k` evenly spread token positions in `[1, t_len-2]` (skipping the two special
/// tokens), duplicates removed; `[0]` for a sequence of at most two tokens and `[1]`
/// when only one inner position exists.
pub open spec fn spread_positions_spec(t_len: nat, k: nat) -> Seq<usize> {
    if t_len <= 2 {
        seq![0usize]
    } else if t_len - 2 <= 1 {
        seq![1usize]
    } else {
        let span = t_len - 3;
        let d = if k >= 2 { k - 1 } else { 1 };
        dedup_adjacent(Seq::new(k, |i: int| (1 + i * (span as int) / (d as int)) as usize))
    }
}

/// `k` evenly spread token positions in `[1, t_len-2]`.
pub fn spread_positions(t_len: usize, k: usize) -> (v: Vec<usize>)
    requires
        (k as int) * (t_len as int) <= usize::MAX,
    ensures
        v@ == spread_positions_spec(t_len as nat, k as nat),
{
    if t_len <= 2 {
        let mut v: Vec<usize> = Vec::new();
        v.push(0);
        return v;
    }
    let lo: usize = 1;
    let hi: usize = t_len - 2;
    if hi <= lo {
        let mut v: Vec<usize> = Vec::new();
        v.push(lo);
        return v;
    }
    let span = hi - lo;
    let d: usize = if k >= 2 { k - 1 } else { 1 };
    let ghost raw = Seq::new(k as nat, |i: int| (1 + i * (span as int) / (d as int)) as usize);
    let mut v: Vec<usize> = Vec::new();
    let mut i: usize = 0;
    while i < k
        invariant
            i <= k,
            (k as int) * (t_len as int) <= usize::MAX,
            span < t_len,
            lo == 1,
            span == hi - lo,
            d == (if k >= 2 { k - 1 } else { 1 }),
            raw == Seq::new(k as nat, |j: int| (1 + j * (span as int) / (d as int)) as usize),
            v@ == dedup_adjacent(raw.take(i as int)),
            hi == t_len - 2,
        decreases k - i,
    {
        assert(i * span <= k * t_len) by (nonlinear_arith)
            requires
                i < k,
                span < t_len,
        ;
        assert(((i * span) as int) / (d as int) <= span as int) by (nonlinear_arith)
            requires
                i <= d,
                d >= 1,
        ;
        let p = lo + (i * span) / d;
        assert(p == raw[i as int]);
        proof {
            assert(raw.take(i as int + 1) =~= raw.take(i as int).push(p));
        }
        if p <= hi {
            let ghost f = raw.take(i as int);
            proof {
                if f.len() > 0 {
                    lemma_dedup_last(f);
                }
            }
            if v.len() == 0 || v[v.len() - 1] != p {
                v.push(p);
                proof {
                    assert(f.push(p).drop_last() =~= f);
                }
            } else {
                proof {
                    assert(f.push(p).drop_last() =~= f);
                }
            }
        }
        i += 1;
    }
    proof {
        assert(raw.take(k as int) =~= raw);
    }
    v
}

/// Index of the first passage at or after `j` by `author` that is not held out.
pub open spec fn first_training_passage_from(ps: Seq<Passage>, author: usize, j: int) -> Option<int>
    decreases ps.len() - j,
{
    if j < 0 || j >= ps.len() {
        None
    } else if ps[j].author_id == author && !ps[j].is_mystery {
        Some(j)
    } else {
        first_training_passage_from(ps, author, j + 1)
    }
}

/// The example passages for `k` authors spread across a roster of `n_authors`:
/// for each `a < k`, the first training passage of author `a * n_authors / k`, if any.
pub open spec fn pick_examples_spec(ps: Seq<Passage>, n_authors: nat, k: nat) -> Seq<usize>
    decreases k,
{
    if k == 0 {
        Seq::empty()
    } else {
        pick_examples_upto(ps, n_authors, k, k)
    }
}

/// The picks for the first `m` of `k` spread positions.
pub open spec fn pick_examples_upto(ps: Seq<Passage>, n_authors: nat, k: nat, m: nat) -> Seq<usize>
    decreases m,
{
    if m == 0 || k == 0 {
        Seq::empty()
    } else {
        let prev = pick_examples_upto(ps, n_authors, k, (m - 1) as nat);
        match first_training_passage_from(ps, (((m - 1) * n_authors) / (k as int)) as usize, 0) {
            Some(i) => prev.push(i as usize),
            None => prev,
        }
    }
}

fn first_training_passage(passages: &[Passage], author: usize) -> (r: Option<usize>)
    ensures
        match r {
            Some(i) => first_training_passage_from(passages@, author, 0) == Some(i as int),
            None => first_training_passage_from(passages@, author, 0) is None,
        },
{
    let mut j: usize = 0;
    while j < passages.len()
        invariant
            j <= passages@.len(),
            first_training_passage_from(passages@, author, 0) == first_training_passage_from(
                passages@,
                author,
                j as int,
            ),
        decreases passages@.len() - j,
    {
        if passages[j].author_id == author && !passages[j].is_mystery {
            return Some(j);
        }
        j += 1;
    }
    None
}

/// One representative (training) passage for each of `k` authors spread across the roster.
pub fn pick_examples(n_authors: usize, passages: &[Passage], k: usize) -> (v: Vec<usize>)
    requires
        (k as int) * (n_authors as int) <= usize::MAX,
    ensures
        v@ == pick_examples_spec(passages@, n_authors as nat, k as nat),
{
    let mut out: Vec<usize> = Vec::new();
    let mut a: usize = 0;
    while a < k
        invariant
            a <= k,
            (k as int) * (n_authors as int) <= usize::MAX,
            out@ == pick_examples_upto(passages@, n_authors as nat, k as nat, a as nat),
        decreases k - a,
    {
        assert(a * n_authors <= k * n_authors) by (nonlinear_arith)
            requires
                a < k,
        ;
        let author = a * n_authors / k;
        if let Some(i) = first_training_passage(passages, author) {
            out.push(i);
        }
        a += 1;
    }
    out
}

} // verus!
