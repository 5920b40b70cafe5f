//! Lexicographic order on character sequences (the order of `String`'s `Ord`, since
//! UTF-8 preserves code-point order) and sorted, duplicate-free lists of strings.

use vstd::prelude::*;

verus! {

/// `a` sorts strictly before `b`.
pub open spec fn lex_lt(a: Seq<char>, b: Seq<char>) -> bool
    decreases a.len(),
{
    if a.len() == 0 {
        b.len() > 0
    } else if b.len() == 0 {
        false
    } else if (a[0] as int) < (b[0] as int) {
        true
    } else if (a[0] as int) > (b[0] as int) {
        false
    } else {
        lex_lt(a.drop_first(), b.drop_first())
    }
}

/// No string is lexicographically below itself.
pub proof fn lemma_lex_irrefl(a: Seq<char>)
    ensures
        !lex_lt(a, a),
    decreases a.len(),
{
    if a.len() > 0 {
        lemma_lex_irrefl(a.drop_first());
    }
}

/// Lexicographic order is transitive.
pub proof fn lemma_lex_trans(a: Seq<char>, b: Seq<char>, c: Seq<char>)
    requires
        lex_lt(a, b),
        lex_lt(b, c),
    ensures
        lex_lt(a, c),
    decreases a.len(),
{
    if a.len() > 0 && b.len() > 0 && c.len() > 0 {
        if a[0] == b[0] && b[0] == c[0] {
            lemma_lex_trans(a.drop_first(), b.drop_first(), c.drop_first());
        }
    }
}

/// Two different strings are ordered one way or the other.
pub proof fn lemma_lex_total(a: Seq<char>, b: Seq<char>)
    ensures
        lex_lt(a, b) || lex_lt(b, a) || a == b,
    decreases a.len(),
{
    if a.len() > 0 && b.len() > 0 {
        lemma_lex_total(a.drop_first(), b.drop_first());
        if a[0] == b[0] && a.drop_first() == b.drop_first() {
            assert(a.len() == b.len());
            assert(a =~= b) by {
                assert forall|k: int| 0 <= k < a.len() implies a[k] == b[k] by {
                    if k > 0 {
                        assert(a[k] == a.drop_first()[k - 1]);
                        assert(b[k] == b.drop_first()[k - 1]);
                    }
                }
            }
        }
    } else if a.len() == 0 && b.len() == 0 {
        assert(a =~= b);
    }
}

/// Lexicographic order is asymmetric.
pub proof fn lemma_lex_asym(a: Seq<char>, b: Seq<char>)
    requires
        lex_lt(a, b),
    ensures
        !lex_lt(b, a),
        a != b,
{
    if lex_lt(b, a) {
        lemma_lex_trans(a, b, a);
        lemma_lex_irrefl(a);
    }
    if a == b {
        lemma_lex_irrefl(a);
    }
}

/// Whether `a` sorts strictly before `b`.
pub fn lex_less(a: &[char], b: &[char]) -> (r: bool)
    ensures
        r == lex_lt(a@, b@),
{
    let mut i: usize = 0;
    proof {
        assert(a@.skip(0) =~= a@);
        assert(b@.skip(0) =~= b@);
        assert(a@.take(0) =~= b@.take(0));
    }
    while i < a.len() && i < b.len()
        invariant
            i <= a@.len(),
            i <= b@.len(),
            a@.take(i as int) == b@.take(i as int),
            lex_lt(a@, b@) == lex_lt(a@.skip(i as int), b@.skip(i as int)),
        decreases a@.len() - i,
    {
        let (x, y) = (a[i], b[i]);
        if x < y {
            return true;
        }
        if x > y {
            return false;
        }
        proof {
            assert(a@.skip(i as int).drop_first() =~= a@.skip(i as int + 1));
            assert(b@.skip(i as int).drop_first() =~= b@.skip(i as int + 1));
            assert(a@.take(i as int + 1) =~= a@.take(i as int).push(x));
            assert(b@.take(i as int + 1) =~= b@.take(i as int).push(y));
        }
        i += 1;
    }
    i == a.len() && i < b.len()
}

/// Whether two character sequences are equal.
pub fn chars_eq(a: &[char], b: &[char]) -> (r: bool)
    ensures
        r == (a@ == b@),
{
    if a.len() != b.len() {
        return false;
    }
    let mut i: usize = 0;
    while i < a.len()
        invariant
            a@.len() == b@.len(),
            i <= a@.len(),
            forall|j: int| 0 <= j < i ==> a@[j] == b@[j],
        decreases a@.len() - i,
    {
        if a[i] != b[i] {
            return false;
        }
        i += 1;
    }
    assert(a@ =~= b@);
    true
}

/// The views of a list of strings held as character vectors.
pub open spec fn views(v: Seq<Vec<char>>) -> Seq<Seq<char>> {
    v.map_values(|w: Vec<char>| w@)
}

/// `s` is in strictly increasing lexicographic order (hence free of duplicates).
pub open spec fn strictly_sorted(s: Seq<Seq<char>>) -> bool {
    forall|i: int, j: int| 0 <= i < j < s.len() ==> lex_lt(#[trigger] s[i], #[trigger] s[j])
}

/// Insert `w` into the sorted, duplicate-free list `v` (no change when already present).
pub fn insert_sorted_unique(v: &mut Vec<Vec<char>>, w: Vec<char>)
    requires
        strictly_sorted(views(old(v)@)),
    ensures
        strictly_sorted(views(final(v)@)),
        views(final(v)@).to_set() == views(old(v)@).to_set().insert(w@),
{
    let ghost old_views = views(v@);
    let mut i: usize = 0;
    while i < v.len()
        invariant
            i <= v@.len(),
            v@ == old(v)@,
            old_views == views(v@),
            strictly_sorted(old_views),
            forall|j: int| 0 <= j < i ==> lex_lt(#[trigger] old_views[j], w@),
        ensures
            i <= v@.len(),
            v@ == old(v)@,
            forall|j: int| 0 <= j < i ==> lex_lt(#[trigger] old_views[j], w@),
            i < v@.len() ==> !lex_lt(old_views[i as int], w@),
        decreases v@.len() - i,
    {
        if !lex_less(v[i].as_slice(), w.as_slice()) {
            break;
        }
        i += 1;
    }
    if i < v.len() && chars_eq(v[i].as_slice(), w.as_slice()) {
        proof {
            assert(old_views[i as int] == w@);
            assert(old_views.to_set().insert(w@) =~= old_views.to_set()) by {
                assert(old_views.contains(w@));
            }
        }
        return;
    }
    proof {
        if i < v@.len() {
            lemma_lex_total(old_views[i as int], w@);
            assert(lex_lt(w@, old_views[i as int]));
        }
        assert forall|j: int| i <= j < old_views.len() implies lex_lt(w@, #[trigger] old_views[j]) by {
            if j > i {
                lemma_lex_trans(w@, old_views[i as int], old_views[j]);
            }
        }
    }
    v.insert(i, w);
    proof {
        let nv = views(v@);
        assert(nv =~= old_views.insert(i as int, w@));
        assert forall|a: int, b: int| 0 <= a < b < nv.len() implies lex_lt(#[trigger] nv[a], #[trigger] nv[b]) by {
            if b == i {
            } else if a == i {
                assert(nv[b] == old_views[b - 1]);
            } else if a < i && b > i {
                assert(nv[b] == old_views[b - 1]);
                lemma_lex_trans(old_views[a], w@, nv[b]);
            }
        }
        assert(nv.to_set() =~= old_views.to_set().insert(w@)) by {
            assert forall|x: Seq<char>| nv.contains(x) <==> (old_views.contains(x) || x == w@) by {
                if nv.contains(x) {
                    let k = choose|k: int| 0 <= k < nv.len() && nv[k] == x;
                    if k < i {
                        assert(old_views[k] == x);
                    } else if k > i {
                        assert(old_views[k - 1] == x);
                    }
                }
                if old_views.contains(x) {
                    let k = choose|k: int| 0 <= k < old_views.len() && old_views[k] == x;
                    if k < i {
                        assert(nv[k] == x);
                    } else {
                        assert(nv[k + 1] == x);
                    }
                }
                if x == w@ {
                    assert(nv[i as int] == x);
                }
            }
        }
    }
}


/// A set of strings has exactly one strictly sorted listing.
pub proof fn lemma_sorted_listing_unique(s1: Seq<Seq<char>>, s2: Seq<Seq<char>>)
    requires
        strictly_sorted(s1),
        strictly_sorted(s2),
        s1.to_set() == s2.to_set(),
    ensures
        s1 == s2,
    decreases s1.len(),
{
    if s1.len() == 0 {
        if s2.len() > 0 {
            assert(s2.to_set().contains(s2[0]));
            assert(s1.to_set().contains(s2[0]));
        }
        assert(s1 =~= s2);
    } else {
        assert(s1.to_set().contains(s1[0]));
        assert(s2.to_set().contains(s1[0]));
        let k = choose|k: int| 0 <= k < s2.len() && s2[k] == s1[0];
        assert(s2.to_set().contains(s2[0]));
        assert(s1.to_set().contains(s2[0]));
        let m = choose|m: int| 0 <= m < s1.len() && s1[m] == s2[0];
        if k > 0 {
            assert(lex_lt(s2[0], s2[k]));
            if m > 0 {
                assert(lex_lt(s1[0], s1[m]));
                lemma_lex_asym(s1[0], s2[0]);
            } else {
                lemma_lex_irrefl(s1[0]);
            }
        }
        assert(s1[0] == s2[0]);
        let t1 = s1.drop_first();
        let t2 = s2.drop_first();
        assert forall|i: int, j: int| 0 <= i < j < t1.len() implies lex_lt(#[trigger] t1[i], #[trigger] t1[j]) by {
            assert(t1[i] == s1[i + 1] && t1[j] == s1[j + 1]);
        }
        assert forall|i: int, j: int| 0 <= i < j < t2.len() implies lex_lt(#[trigger] t2[i], #[trigger] t2[j]) by {
            assert(t2[i] == s2[i + 1] && t2[j] == s2[j + 1]);
        }
        assert(t1.to_set() =~= t2.to_set()) by {
            assert forall|x: Seq<char>| t1.contains(x) implies t2.contains(x) by {
                let i = choose|i: int| 0 <= i < t1.len() && t1[i] == x;
                assert(s1[i + 1] == x);
                assert(lex_lt(s1[0], x));
                assert(s2.to_set().contains(x));
                let j = choose|j: int| 0 <= j < s2.len() && s2[j] == x;
                if j == 0 {
                    lemma_lex_irrefl(x);
                }
                assert(t2[j - 1] == x);
            }
            assert forall|x: Seq<char>| t2.contains(x) implies t1.contains(x) by {
                let i = choose|i: int| 0 <= i < t2.len() && t2[i] == x;
                assert(s2[i + 1] == x);
                assert(lex_lt(s2[0], x));
                assert(s1.to_set().contains(x));
                let j = choose|j: int| 0 <= j < s1.len() && s1[j] == x;
                if j == 0 {
                    lemma_lex_irrefl(x);
                }
                assert(t1[j - 1] == x);
            }
        }
        lemma_sorted_listing_unique(t1, t2);
        assert(s1 =~= s2) by {
            assert forall|i: int| 0 <= i < s1.len() implies s1[i] == s2[i] by {
                if i > 0 {
                    assert(s1[i] == t1[i - 1]);
                    assert(s2[i] == t2[i - 1]);
                }
            }
        }
    }
}

/// The strictly sorted listing of a finite set of strings.
pub open spec fn sorted_listing(s: Set<Seq<char>>) -> Seq<Seq<char>> {
    choose|l: Seq<Seq<char>>| strictly_sorted(l) && l.to_set() == s
}

/// A strictly sorted list is the sorted listing of its own set.
pub proof fn lemma_is_sorted_listing(l: Seq<Seq<char>>)
    requires
        strictly_sorted(l),
    ensures
        sorted_listing(l.to_set()) == l,
{
    let c = sorted_listing(l.to_set());
    assert(strictly_sorted(l) && l.to_set() == l.to_set());
    lemma_sorted_listing_unique(c, l);
}

} // verus!
