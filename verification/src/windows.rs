//! Windowing one coder's pooled lines of one file into passages: about
//! `CODE_PASSAGE_TOKENS` whitespace-separated tokens per passage, each tagged with the
//! median authored time of its lines.

use vstd::prelude::*;

use crate::codefilter::{median_time, sorted_i64};
use crate::text::{chars_of, join, join_chars, lemma_words_join, split_words, string_of, word_total, words};

verus! {

broadcast use vstd::string::group_string_axioms;

/// Tokens at which a passage is cut.
pub const CODE_PASSAGE_TOKENS: usize = 160;

/// Tokens a trailing passage needs to be kept.
pub const MIN_PASSAGE_TOKENS: usize = 60;

/// Two sorted sequences with the same elements (counted with multiplicity) are equal.
pub proof fn lemma_sorted_unique(a: Seq<i64>, b: Seq<i64>)
    requires
        sorted_i64(a),
        sorted_i64(b),
        a.to_multiset() == b.to_multiset(),
    ensures
        a == b,
    decreases a.len(),
{
    broadcast use vstd::seq_lib::group_to_multiset_ensures;
    broadcast use vstd::multiset::group_multiset_axioms;

    assert(a.len() == a.to_multiset().len());
    assert(b.len() == b.to_multiset().len());
    if a.len() == 0 {
        assert(a =~= b);
    } else {
        let x = a.last();
        let y = b.last();
        assert(a.contains(x)) by {
            assert(a[a.len() - 1] == x);
        }
        assert(a.to_multiset().count(x) > 0);
        assert(b.contains(x));
        let j = choose|j: int| 0 <= j < b.len() && b[j] == x;
        assert(x <= y);
        assert(b.contains(y)) by {
            assert(b[b.len() - 1] == y);
        }
        assert(b.to_multiset().count(y) > 0);
        assert(a.contains(y));
        let k = choose|k: int| 0 <= k < a.len() && a[k] == y;
        assert(y <= x);
        let a0 = a.drop_last();
        let b0 = b.drop_last();
        assert(a =~= a0.push(x));
        assert(b =~= b0.push(x));
        assert(a0.to_multiset() =~= b0.to_multiset()) by {
            assert(a0.push(x).to_multiset() =~= a0.to_multiset().insert(x));
            assert(b0.push(x).to_multiset() =~= b0.to_multiset().insert(x));
            assert forall|z: i64| a0.to_multiset().count(z) == b0.to_multiset().count(z) by {
                assert(a0.to_multiset().insert(x).count(z) == b0.to_multiset().insert(x).count(z));
            }
        }
        lemma_sorted_unique(a0, b0);
    }
}

/// The elements of `s` in ascending order.
pub open spec fn sorted_of(s: Seq<i64>) -> Seq<i64> {
    choose|t: Seq<i64>| sorted_i64(t) && t.to_multiset() == s.to_multiset()
}

/// The median used for passage times: the upper middle element of the sorted times,
/// 0 when there are none.
pub open spec fn median_of(s: Seq<i64>) -> i64 {
    if s.len() == 0 {
        0
    } else {
        sorted_of(s)[(s.len() / 2) as int]
    }
}

proof fn lemma_filter_to_multiset(s: Seq<i64>, p: spec_fn(i64) -> bool)
    ensures
        s.filter(p).to_multiset() =~= s.to_multiset().filter(p),
    decreases s.len(),
{
    broadcast use vstd::seq_lib::group_to_multiset_ensures;
    broadcast use vstd::multiset::group_multiset_axioms;
    broadcast use vstd::seq_lib::group_filter_ensures;

    if s.len() == 0 {
        assert(s.filter(p).len() == 0);
        assert(s.filter(p) =~= Seq::<i64>::empty());
        assert(s.to_multiset() =~= vstd::multiset::Multiset::<i64>::empty());
        assert forall|v: i64| s.to_multiset().filter(p).count(v) == 0 by {}
    } else {
        let s0 = s.drop_last();
        let x = s.last();
        assert(s =~= s0.push(x));
        lemma_filter_to_multiset(s0, p);
        s0.lemma_filter_push(x, p);
        assert forall|v: i64| s.filter(p).to_multiset().count(v) == s.to_multiset().filter(p).count(v) by {
            assert(s.to_multiset() =~= s0.to_multiset().insert(x));
            if p(x) {
                assert(s.filter(p) == s0.filter(p).push(x));
                assert(s.filter(p).to_multiset() =~= s0.filter(p).to_multiset().insert(x));
            } else {
                assert(s.filter(p) == s0.filter(p));
            }
        }
    }
}

/// Filtering keeps a sequence whose elements all pass.
proof fn lemma_filter_all_pass(s: Seq<i64>, p: spec_fn(i64) -> bool)
    requires
        forall|i: int| 0 <= i < s.len() ==> p(#[trigger] s[i]),
    ensures
        s.filter(p) == s,
    decreases s.len(),
{
    if s.len() == 0 {
        assert(s.filter(p).len() <= 0) by {
            s.lemma_filter_len(p);
        }
        assert(s.filter(p) =~= s);
    } else {
        let s0 = s.drop_last();
        assert(s =~= s0.push(s.last()));
        assert forall|i: int| 0 <= i < s0.len() implies p(#[trigger] s0[i]) by {
            assert(s0[i] == s[i]);
        }
        lemma_filter_all_pass(s0, p);
        s0.lemma_filter_push(s.last(), p);
        assert(p(s[s.len() - 1]));
    }
}

/// The median of a non-empty list is one of its elements, with at most half of the
/// list (rounded down) strictly below it and more than that at or below it: the upper
/// middle element once the list is sorted.
pub proof fn law_median_is_upper_middle(s: Seq<i64>)
    requires
        s.len() > 0,
    ensures
        s.contains(median_of(s)),
        s.filter(|x: i64| x < median_of(s)).len() <= s.len() / 2,
        s.filter(|x: i64| x <= median_of(s)).len() > s.len() / 2,
{
    broadcast use vstd::seq_lib::group_to_multiset_ensures;
    broadcast use vstd::multiset::group_multiset_axioms;

    let leq = |a: i64, b: i64| a <= b;
    assert(vstd::relations::total_ordering(leq));
    s.lemma_sort_by_ensures(leq);
    let w = s.sort_by(leq);
    assert(sorted_i64(w)) by {
        assert forall|i: int, j: int| 0 <= i <= j < w.len() implies w[i] <= w[j] by {
            if i < j {
                assert(leq(w[i], w[j]));
            }
        }
    }
    assert(w.to_multiset() == s.to_multiset());
    let t = sorted_of(s);
    assert(sorted_i64(t) && t.to_multiset() == s.to_multiset());
    assert(t.len() == s.len()) by {
        assert(t.len() == t.to_multiset().len());
        assert(s.len() == s.to_multiset().len());
    }
    let h = s.len() / 2;
    let m = t[h as int];
    assert(median_of(s) == m);
    assert(s.contains(m)) by {
        assert(t.contains(m)) by {
            assert(t[h as int] == m);
        }
        assert(t.to_multiset().count(m) > 0);
    }
    let lt = |x: i64| x < m;
    let le = |x: i64| x <= m;
    lemma_filter_to_multiset(s, lt);
    lemma_filter_to_multiset(t, lt);
    lemma_filter_to_multiset(s, le);
    lemma_filter_to_multiset(t, le);
    assert(s.filter(lt).len() == t.filter(lt).len()) by {
        assert(s.filter(lt).len() == s.filter(lt).to_multiset().len());
        assert(t.filter(lt).len() == t.filter(lt).to_multiset().len());
    }
    assert(s.filter(le).len() == t.filter(le).len()) by {
        assert(s.filter(le).len() == s.filter(le).to_multiset().len());
        assert(t.filter(le).len() == t.filter(le).to_multiset().len());
    }
    let lo = t.take(h as int);
    let hi = t.skip(h as int);
    assert(t =~= lo + hi);
    Seq::filter_distributes_over_add(lo, hi, lt);
    lo.lemma_filter_len(lt);
    assert(hi.all(|x: i64| !lt(x))) by {
        assert forall|i: int| 0 <= i < hi.len() implies !lt(#[trigger] hi[i]) by {
            assert(hi[i] == t[h + i]);
        }
    }
    hi.lemma_all_neg_filter_empty(lt);
    let lo1 = t.take(h as int + 1);
    let hi1 = t.skip(h as int + 1);
    assert(t =~= lo1 + hi1);
    Seq::filter_distributes_over_add(lo1, hi1, le);
    assert forall|i: int| 0 <= i < lo1.len() implies le(#[trigger] lo1[i]) by {
        assert(lo1[i] == t[i]);
    }
    lemma_filter_all_pass(lo1, le);
    assert(s.filter(|x: i64| x < median_of(s)) == s.filter(lt));
    assert(s.filter(|x: i64| x <= median_of(s)) == s.filter(le));
}

/// The median of `times` (which it sorts in place).
pub fn median(times: &mut Vec<i64>) -> (m: i64)
    ensures
        m == median_of(old(times)@),
        final(times)@ == sorted_of(old(times)@),
{
    broadcast use vstd::seq_lib::group_to_multiset_ensures;

    let m = median_time(times);
    proof {
        let t = sorted_of(old(times)@);
        assert(sorted_i64(times@) && times@.to_multiset() == old(times)@.to_multiset());
        assert(sorted_i64(t) && t.to_multiset() == old(times)@.to_multiset());
        lemma_sorted_unique(t, times@);
        assert(times@.len() == old(times)@.len()) by {
            assert(times@.len() == times@.to_multiset().len());
            assert(old(times)@.len() == old(times)@.to_multiset().len());
        }
    }
    m
}

/// The scan over a file's lines: (lines of the open passage, their positive times,
/// its token count, finished passages).
pub open spec fn window_fold(lines: Seq<(Seq<char>, i64)>) -> (Seq<Seq<char>>, Seq<i64>, nat, Seq<(Seq<char>, i64)>)
    decreases lines.len(),
{
    if lines.len() == 0 {
        (Seq::empty(), Seq::empty(), 0, Seq::empty())
    } else {
        let (b, t, k, o) = window_fold(lines.drop_last());
        let l = lines.last();
        let b1 = b.push(l.0);
        let t1 = if l.1 > 0 { t.push(l.1) } else { t };
        let k1 = k + words(l.0).len();
        if k1 >= CODE_PASSAGE_TOKENS {
            (Seq::empty(), Seq::empty(), 0, o.push((join(b1, seq!['\n']), median_of(t1))))
        } else {
            (b1, t1, k1, o)
        }
    }
}

/// The passages of one file's lines: a passage is closed as soon as it reaches
/// `CODE_PASSAGE_TOKENS` tokens; a trailing one is kept when it has at least
/// `MIN_PASSAGE_TOKENS`. Each passage is its lines joined by newlines, with the median
/// of their positive authored times.
pub open spec fn file_windows(lines: Seq<(Seq<char>, i64)>) -> Seq<(Seq<char>, i64)> {
    let (b, t, k, o) = window_fold(lines);
    if k >= MIN_PASSAGE_TOKENS {
        o.push((join(b, seq!['\n']), median_of(t)))
    } else {
        o
    }
}

/// The view of a list of (text, time) pairs.
pub open spec fn passages_view(v: Seq<(String, i64)>) -> Seq<(Seq<char>, i64)> {
    v.map_values(|p: (String, i64)| (p.0@, p.1))
}

/// Cuts one file's pooled (line, authored time) pairs into passages.
pub fn emit_file(lines: &Vec<(String, i64)>) -> (out: Vec<(String, i64)>)
    ensures
        passages_view(out@) == file_windows(passages_view(lines@)),
{
    let ghost lv = passages_view(lines@);
    let mut buf: Vec<Vec<char>> = Vec::new();
    let mut times: Vec<i64> = Vec::new();
    let mut toks: usize = 0;
    let mut out: Vec<(String, i64)> = Vec::new();
    let mut nl: Vec<char> = Vec::new();
    nl.push('\n');
    let mut i: usize = 0;
    proof {
        assert(lv.take(0) =~= Seq::<(Seq<char>, i64)>::empty());
        assert(buf@.map_values(|w: Vec<char>| w@) =~= Seq::<Seq<char>>::empty());
        assert(passages_view(out@) =~= Seq::<(Seq<char>, i64)>::empty());
    }
    while i < lines.len()
        invariant
            i <= lines@.len(),
            lv == passages_view(lines@),
            nl@ == seq!['\n'],
            toks < CODE_PASSAGE_TOKENS,
            window_fold(lv.take(i as int)) == (
                buf@.map_values(|w: Vec<char>| w@),
                times@,
                toks as nat,
                passages_view(out@),
            ),
        decreases lines@.len() - i,
    {
        proof {
            assert(lv.take(i as int + 1).drop_last() =~= lv.take(i as int));
            assert(lv.take(i as int + 1).last() == lv[i as int]);
        }
        let l = chars_of(lines[i].0.as_str());
        let t = lines[i].1;
        let ws = split_words(&l);
        let count = ws.len();
        proof {
            assert(ws@.map_values(|w: Vec<char>| w@).len() == ws@.len());
        }
        let ghost bprev = buf@;
        buf.push(l);
        proof {
            assert(buf@.map_values(|w: Vec<char>| w@) =~= bprev.map_values(|w: Vec<char>| w@).push(lines@[i as int].0@));
        }
        if t > 0 {
            times.push(t);
        }
        if count >= CODE_PASSAGE_TOKENS - toks {
            let text = string_of(&join_chars(&buf, &nl));
            let m = median(&mut times);
            let ghost oprev = out@;
            out.push((text, m));
            buf = Vec::new();
            times = Vec::new();
            toks = 0;
            proof {
                assert(passages_view(out@) =~= passages_view(oprev).push((text@, m)));
                assert(buf@.map_values(|w: Vec<char>| w@) =~= Seq::<Seq<char>>::empty());
                assert(times@ =~= Seq::<i64>::empty());
            }
        } else {
            toks = toks + count;
        }
        i += 1;
    }
    proof {
        assert(lv.take(i as int) =~= lv);
    }
    if toks >= MIN_PASSAGE_TOKENS {
        let text = string_of(&join_chars(&buf, &nl));
        let m = median(&mut times);
        let ghost oprev = out@;
        out.push((text, m));
        proof {
            assert(passages_view(out@) =~= passages_view(oprev).push((text@, m)));
        }
    }
    out
}

proof fn lemma_window_fold(lines: Seq<(Seq<char>, i64)>)
    ensures
        window_fold(lines).2 == word_total(window_fold(lines).0),
        forall|i: int| 0 <= i < window_fold(lines).3.len() ==> words(#[trigger] window_fold(lines).3[i].0).len() >= CODE_PASSAGE_TOKENS,
    decreases lines.len(),
{
    if lines.len() > 0 {
        lemma_window_fold(lines.drop_last());
        let (b, t, k, o) = window_fold(lines.drop_last());
        let l = lines.last();
        let b1 = b.push(l.0);
        assert(b1.drop_last() =~= b);
        assert(word_total(b1) == k + words(l.0).len());
        if k + words(l.0).len() >= CODE_PASSAGE_TOKENS {
            lemma_words_join(b1, '\n');
            assert forall|i: int| 0 <= i < window_fold(lines).3.len() implies words(#[trigger] window_fold(lines).3[i].0).len() >= CODE_PASSAGE_TOKENS by {
                if i < o.len() {
                    assert(window_fold(lines).3[i] == o[i]);
                }
            }
            assert(word_total(Seq::<Seq<char>>::empty()) == 0);
        }
    } else {
        assert(word_total(Seq::<Seq<char>>::empty()) == 0);
    }
}

/// Every passage cut from a file has at least `MIN_PASSAGE_TOKENS` whitespace-separated
/// tokens.
pub proof fn lemma_windows_long_enough(lines: Seq<(Seq<char>, i64)>)
    ensures
        forall|i: int| 0 <= i < file_windows(lines).len() ==> words(#[trigger] file_windows(lines)[i].0).len() >= MIN_PASSAGE_TOKENS,
{
    lemma_window_fold(lines);
    let (b, t, k, o) = window_fold(lines);
    if k >= MIN_PASSAGE_TOKENS {
        lemma_words_join(b, '\n');
        assert forall|i: int| 0 <= i < file_windows(lines).len() implies words(#[trigger] file_windows(lines)[i].0).len() >= MIN_PASSAGE_TOKENS by {
            if i < o.len() {
                assert(file_windows(lines)[i] == o[i]);
            }
        }
    }
}

/// The text lines of `ls`.
pub open spec fn line_texts(ls: Seq<(Seq<char>, i64)>) -> Seq<Seq<char>> {
    ls.map_values(|l: (Seq<char>, i64)| l.0)
}

/// The positive authored times of `ls`, in order.
pub open spec fn positive_times(ls: Seq<(Seq<char>, i64)>) -> Seq<i64>
    decreases ls.len(),
{
    if ls.len() == 0 {
        Seq::empty()
    } else if ls.last().1 > 0 {
        positive_times(ls.drop_last()).push(ls.last().1)
    } else {
        positive_times(ls.drop_last())
    }
}

/// The passage made of lines `s..e`: their texts joined by newlines, tagged with the
/// median of their positive times.
pub open spec fn window_of(lines: Seq<(Seq<char>, i64)>, s: int, e: int) -> (Seq<char>, i64) {
    let w = lines.subrange(s, e);
    (join(line_texts(w), seq!['\n']), median_of(positive_times(w)))
}

/// `out` is made of consecutive, non-empty runs of `lines` from the first line on, cut
/// at `bounds`: passage `j` is lines `bounds[j]..bounds[j + 1]`.
pub open spec fn cut_at(lines: Seq<(Seq<char>, i64)>, bounds: Seq<int>, out: Seq<(Seq<char>, i64)>) -> bool {
    &&& bounds.len() == out.len() + 1
    &&& bounds[0] == 0
    &&& bounds.last() <= lines.len()
    &&& forall|i: int, j: int| 0 <= i < j < bounds.len() ==> #[trigger] bounds[i] < #[trigger] bounds[j]
    &&& forall|j: int| 0 <= j < out.len() ==> #[trigger] out[j] == window_of(lines, bounds[j], bounds[j + 1])
}

proof fn lemma_window_fold_cuts(lines: Seq<(Seq<char>, i64)>) -> (bounds: Seq<int>)
    ensures
        cut_at(lines, bounds, window_fold(lines).3),
        window_fold(lines).0 == line_texts(lines.subrange(bounds.last(), lines.len() as int)),
        window_fold(lines).1 == positive_times(lines.subrange(bounds.last(), lines.len() as int)),
    decreases lines.len(),
{
    if lines.len() == 0 {
        let bounds = seq![0int];
        assert(line_texts(lines.subrange(0, 0)) =~= Seq::<Seq<char>>::empty());
        assert(lines.subrange(0, 0).len() == 0);
        bounds
    } else {
        let l0 = lines.drop_last();
        let b0 = lemma_window_fold_cuts(l0);
        let (b, t, k, o) = window_fold(l0);
        let l = lines.last();
        let st = b0.last();
        let w0 = l0.subrange(st, l0.len() as int);
        let w = lines.subrange(st, lines.len() as int);
        assert(w.drop_last() =~= w0);
        assert(w.last() == l);
        assert(line_texts(w) =~= line_texts(w0).push(l.0));
        let b1 = b.push(l.0);
        let t1 = if l.1 > 0 { t.push(l.1) } else { t };
        assert(t1 == positive_times(w));
        assert(b1 == line_texts(w));
        assert forall|j: int| 0 <= j < o.len() implies #[trigger] window_of(lines, b0[j], b0[j + 1]) == window_of(l0, b0[j], b0[j + 1]) by {
            if j + 1 < b0.len() - 1 {
                assert(b0[j + 1] < b0[b0.len() - 1]);
            }
            assert(lines.subrange(b0[j], b0[j + 1]) =~= l0.subrange(b0[j], b0[j + 1]));
        }
        if k + words(l.0).len() >= CODE_PASSAGE_TOKENS {
            let bounds = b0.push(lines.len() as int);
            let o1 = o.push((join(b1, seq!['\n']), median_of(t1)));
            assert(window_fold(lines).3 == o1);
            assert(o1[o.len() as int] == window_of(lines, st, lines.len() as int));
            assert forall|j: int| 0 <= j < o1.len() implies #[trigger] o1[j] == window_of(lines, bounds[j], bounds[j + 1]) by {
                if j < o.len() {
                    assert(o1[j] == o[j]);
                    assert(bounds[j] == b0[j] && bounds[j + 1] == b0[j + 1]);
                }
            }
            assert forall|i: int, j: int| 0 <= i < j < bounds.len() implies #[trigger] bounds[i] < #[trigger] bounds[j] by {
                if j < b0.len() {
                    assert(bounds[i] == b0[i] && bounds[j] == b0[j]);
                } else {
                    if i < b0.len() - 1 {
                        assert(b0[i] < b0[b0.len() - 1]);
                    }
                }
            }
            let e = lines.subrange(lines.len() as int, lines.len() as int);
            assert(e.len() == 0);
            assert(line_texts(e) =~= Seq::<Seq<char>>::empty());
            bounds
        } else {
            assert(window_fold(lines).3 == o);
            b0
        }
    }
}

/// How a file's lines become passages: the passages are consecutive, non-empty runs of
/// the file's lines from the first line on, each the run's texts joined by newlines and
/// tagged with the median (upper middle) of exactly that run's positive times.
pub proof fn law_window_times(lines: Seq<(Seq<char>, i64)>) -> (bounds: Seq<int>)
    ensures
        cut_at(lines, bounds, file_windows(lines)),
{
    let b0 = lemma_window_fold_cuts(lines);
    lemma_window_fold(lines);
    let (b, t, k, o) = window_fold(lines);
    if k >= MIN_PASSAGE_TOKENS {
        let st = b0.last();
        if st == lines.len() {
            assert(lines.subrange(st, lines.len() as int).len() == 0);
            assert(b =~= Seq::<Seq<char>>::empty());
            assert(word_total(b) == 0);
            assert(false);
        }
        let bounds = b0.push(lines.len() as int);
        let o1 = o.push((join(b, seq!['\n']), median_of(t)));
        assert(file_windows(lines) == o1);
        assert(o1[o.len() as int] == window_of(lines, st, lines.len() as int));
        assert forall|j: int| 0 <= j < o1.len() implies #[trigger] o1[j] == window_of(lines, bounds[j], bounds[j + 1]) by {
            if j < o.len() {
                assert(o1[j] == o[j]);
                assert(bounds[j] == b0[j] && bounds[j + 1] == b0[j + 1]);
            }
        }
        assert forall|i: int, j: int| 0 <= i < j < bounds.len() implies #[trigger] bounds[i] < #[trigger] bounds[j] by {
            if j < b0.len() {
                assert(bounds[i] == b0[i] && bounds[j] == b0[j]);
            } else {
                if i < b0.len() - 1 {
                    assert(b0[i] < b0[b0.len() - 1]);
                }
            }
        }
        bounds
    } else {
        b0
    }
}

} // verus!
