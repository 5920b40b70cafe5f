//! How cross-validation splits the passages: held-out groups (a book or a series of
//! one author), the held-out "mystery" passages per author, and the fixed test/train
//! split of the familiarity curve.

use vstd::prelude::*;

use crate::lex::chars_eq;
use crate::model::{author_rank, count_author, Passage};
use crate::text::chars_of;

verus! {

/// What a held-out group is.
#[derive(PartialEq, Eq, Structural, Clone, Copy)]
pub enum GroupBy {
    /// One book (prose) or one file (code).
    Book,
    /// One series (prose) or one repository (code).
    Series,
}

/// The group name of a passage.
pub open spec fn group_name(p: Passage, by: GroupBy) -> Seq<char> {
    match by {
        GroupBy::Book => p.book_title@,
        GroupBy::Series => p.series@,
    }
}

/// Index of the group of author `a` named `name`, if it exists.
pub open spec fn slot_of(groups: Seq<(usize, Seq<char>, Seq<usize>)>, a: usize, name: Seq<char>) -> Option<int>
    decreases groups.len(),
{
    if groups.len() == 0 {
        None
    } else {
        match slot_of(groups.drop_last(), a, name) {
            Some(s) => Some(s),
            None => if groups.last().0 == a && groups.last().1 == name {
                Some(groups.len() - 1)
            } else {
                None
            },
        }
    }
}

/// The groups formed by the first `k` passages: each training passage joins the group
/// of its (author, group name), groups listed in order of first appearance, members in
/// passage order. Held-out ("mystery") passages belong to no group.
pub open spec fn groups_upto(ps: Seq<Passage>, by: GroupBy, k: int) -> Seq<(usize, Seq<char>, Seq<usize>)>
    decreases k,
{
    if k <= 0 {
        Seq::empty()
    } else {
        let prev = groups_upto(ps, by, k - 1);
        let p = ps[k - 1];
        if p.is_mystery {
            prev
        } else {
            match slot_of(prev, p.author_id, group_name(p, by)) {
                Some(s) => prev.update(s, (prev[s].0, prev[s].1, prev[s].2.push((k - 1) as usize))),
                None => prev.push((p.author_id, group_name(p, by), seq![(k - 1) as usize])),
            }
        }
    }
}

/// The held-out groups: `(author, member passage indices)`.
pub open spec fn groups_spec(ps: Seq<Passage>, by: GroupBy) -> Seq<(usize, Seq<usize>)> {
    groups_upto(ps, by, ps.len() as int).map_values(|g: (usize, Seq<char>, Seq<usize>)| (g.0, g.2))
}

proof fn lemma_slot_of_bound(groups: Seq<(usize, Seq<char>, Seq<usize>)>, a: usize, name: Seq<char>)
    ensures
        slot_of(groups, a, name) matches Some(s) ==> 0 <= s < groups.len() && groups[s].0 == a
            && groups[s].1 == name,
        slot_of(groups, a, name) is None ==> forall|j: int|
            0 <= j < groups.len() ==> !(#[trigger] groups[j].0 == a && groups[j].1 == name),
    decreases groups.len(),
{
    if groups.len() > 0 {
        lemma_slot_of_bound(groups.drop_last(), a, name);
        if slot_of(groups.drop_last(), a, name) is None {
            assert forall|j: int| 0 <= j < groups.len() - 1 implies !(#[trigger] groups[j].0 == a
                && groups[j].1 == name) by {
                assert(groups[j] == groups.drop_last()[j]);
            }
        }
    }
}

proof fn lemma_slot_of_first(groups: Seq<(usize, Seq<char>, Seq<usize>)>, a: usize, name: Seq<char>, s: int)
    requires
        0 <= s < groups.len(),
        groups[s].0 == a && groups[s].1 == name,
        forall|j: int| 0 <= j < s ==> !(#[trigger] groups[j].0 == a && groups[j].1 == name),
    ensures
        slot_of(groups, a, name) == Some(s),
    decreases groups.len(),
{
    if s < groups.len() - 1 {
        lemma_slot_of_first(groups.drop_last(), a, name, s);
    } else {
        lemma_slot_of_bound(groups.drop_last(), a, name);
        if slot_of(groups.drop_last(), a, name) is Some {
            let t = slot_of(groups.drop_last(), a, name)->0;
            assert(groups.drop_last()[t] == groups[t]);
        }
    }
}

fn group_name_chars(p: &Passage, by: GroupBy) -> (r: Vec<char>)
    ensures
        r@ == group_name(*p, by),
{
    match by {
        GroupBy::Book => chars_of(p.book_title.as_str()),
        GroupBy::Series => chars_of(p.series.as_str()),
    }
}

/// Partition the training passages into held-out groups of one author (by book or by
/// series), in order of first appearance.
pub fn group_passages(passages: &[Passage], by: GroupBy) -> (groups: Vec<(usize, Vec<usize>)>)
    ensures
        groups@.map_values(|g: (usize, Vec<usize>)| (g.0, g.1@)) == groups_spec(passages@, by),
{
    let mut names: Vec<Vec<char>> = Vec::new();
    let mut groups: Vec<(usize, Vec<usize>)> = Vec::new();
    let mut i: usize = 0;
    while i < passages.len()
        invariant
            i <= passages@.len(),
            names@.len() == groups@.len(),
            groups_upto(passages@, by, i as int) == Seq::new(
                groups@.len(),
                |j: int| (groups@[j].0, names@[j]@, groups@[j].1@),
            ),
        decreases passages@.len() - i,
    {
        let ghost prev = groups_upto(passages@, by, i as int);
        let p = &passages[i];
        if !p.is_mystery {
            let key = group_name_chars(p, by);
            let mut s: usize = 0;
            while s < groups.len() && !(groups[s].0 == p.author_id && chars_eq(
                names[s].as_slice(),
                key.as_slice(),
            ))
                invariant
                    s <= groups@.len(),
                    names@.len() == groups@.len(),
                    prev == Seq::new(groups@.len(), |j: int| (groups@[j].0, names@[j]@, groups@[j].1@)),
                    forall|j: int|
                        0 <= j < s ==> !(#[trigger] prev[j].0 == p.author_id && prev[j].1 == key@),
                decreases groups@.len() - s,
            {
                s += 1;
            }
            if s < groups.len() {
                proof {
                    lemma_slot_of_first(prev, p.author_id, key@, s as int);
                }
                let ghost old_groups = groups@;
                let (a, mut members) = groups.remove(s);
                members.push(i);
                groups.insert(s, (a, members));
                proof {
                    assert(groups_upto(passages@, by, i as int + 1) =~= Seq::new(
                        groups@.len(),
                        |j: int| (groups@[j].0, names@[j]@, groups@[j].1@),
                    ));
                }
            } else {
                proof {
                    lemma_slot_of_bound(prev, p.author_id, key@);
                    if slot_of(prev, p.author_id, key@) is Some {
                        let t = slot_of(prev, p.author_id, key@)->0;
                        assert(prev[t].0 == p.author_id && prev[t].1 == key@);
                    }
                }
                let mut members: Vec<usize> = Vec::new();
                members.push(i);
                names.push(key);
                groups.push((p.author_id, members));
                proof {
                    assert(groups_upto(passages@, by, i as int + 1) =~= Seq::new(
                        groups@.len(),
                        |j: int| (groups@[j].0, names@[j]@, groups@[j].1@),
                    ));
                }
            }
        }
        i += 1;
    }
    proof {
        assert(groups@.map_values(|g: (usize, Vec<usize>)| (g.0, g.1@)) =~= groups_spec(passages@, by));
    }
    groups
}


/// Indices among the first `k` passages of held-out passages by author `a`, in order.
pub open spec fn mystery_indices(ps: Seq<Passage>, a: usize, k: int) -> Seq<usize>
    decreases k,
{
    if k <= 0 {
        Seq::empty()
    } else if ps[k - 1].is_mystery && ps[k - 1].author_id == a {
        mystery_indices(ps, a, k - 1).push((k - 1) as usize)
    } else {
        mystery_indices(ps, a, k - 1)
    }
}

/// Some held-out passage among the first `k` is by author `a`.
pub open spec fn has_mystery(ps: Seq<Passage>, a: usize, k: int) -> bool {
    exists|i: int| 0 <= i < k && #[trigger] ps[i].is_mystery && ps[i].author_id == a
}

/// `r` lists, by increasing author, every author with held-out passages among the first
/// `k` together with those passages' indices.
pub open spec fn is_mystery_grouping(ps: Seq<Passage>, k: int, r: Seq<(usize, Seq<usize>)>) -> bool {
    &&& forall|j: int, l: int| 0 <= j < l < r.len() ==> #[trigger] r[j].0 < #[trigger] r[l].0
    &&& forall|j: int| 0 <= j < r.len() ==> #[trigger] r[j].1 == mystery_indices(ps, r[j].0, k)
    &&& forall|j: int| 0 <= j < r.len() ==> has_mystery(ps, #[trigger] r[j].0, k)
    &&& forall|a: usize| #[trigger] has_mystery(ps, a, k) ==> exists|j: int| 0 <= j < r.len() && #[trigger] r[j].0 == a
}

proof fn lemma_mystery_indices_other(ps: Seq<Passage>, a: usize, k: int)
    requires
        0 <= k < ps.len(),
        !(ps[k].is_mystery && ps[k].author_id == a),
    ensures
        mystery_indices(ps, a, k + 1) == mystery_indices(ps, a, k),
{
}

proof fn lemma_no_mystery_empty(ps: Seq<Passage>, a: usize, k: int)
    requires
        0 <= k <= ps.len(),
        !has_mystery(ps, a, k),
    ensures
        mystery_indices(ps, a, k) == Seq::<usize>::empty(),
    decreases k,
{
    if k > 0 {
        assert(!has_mystery(ps, a, k - 1)) by {
            if has_mystery(ps, a, k - 1) {
                let i = choose|i: int| 0 <= i < k - 1 && #[trigger] ps[i].is_mystery && ps[i].author_id == a;
                assert(0 <= i < k && ps[i].is_mystery && ps[i].author_id == a);
            }
        }
        lemma_no_mystery_empty(ps, a, k - 1);
        if ps[k - 1].is_mystery && ps[k - 1].author_id == a {
            assert(has_mystery(ps, a, k));
        }
    }
}

/// The held-out passages grouped by author, authors in increasing order.
pub fn mystery_by_author(passages: &[Passage]) -> (r: Vec<(usize, Vec<usize>)>)
    ensures
        is_mystery_grouping(
            passages@,
            passages@.len() as int,
            r@.map_values(|g: (usize, Vec<usize>)| (g.0, g.1@)),
        ),
{
    let ghost ps = passages@;
    let mut r: Vec<(usize, Vec<usize>)> = Vec::new();
    let mut i: usize = 0;
    while i < passages.len()
        invariant
            ps == passages@,
            i <= ps.len(),
            is_mystery_grouping(ps, i as int, r@.map_values(|g: (usize, Vec<usize>)| (g.0, g.1@))),
        decreases ps.len() - i,
    {
        let ghost rv = r@.map_values(|g: (usize, Vec<usize>)| (g.0, g.1@));
        let a = passages[i].author_id;
        if passages[i].is_mystery {
            let mut s: usize = 0;
            while s < r.len() && r[s].0 < a
                invariant
                    s <= r@.len(),
                    rv == r@.map_values(|g: (usize, Vec<usize>)| (g.0, g.1@)),
                    forall|j: int| 0 <= j < s ==> #[trigger] rv[j].0 < a,
                decreases r@.len() - s,
            {
                s += 1;
            }
            if s < r.len() && r[s].0 == a {
                let (aa, mut members) = r.remove(s);
                members.push(i);
                r.insert(s, (aa, members));
                proof {
                    let nv = r@.map_values(|g: (usize, Vec<usize>)| (g.0, g.1@));
                    assert(nv =~= rv.update(s as int, (a, rv[s as int].1.push(i))));
                    assert forall|j: int| 0 <= j < nv.len() implies #[trigger] nv[j].1 == mystery_indices(ps, nv[j].0, i as int + 1) by {
                        if j != s {
                            assert(rv[j].0 != a) by {
                                if j < s {} else { assert(rv[s as int].0 < rv[j].0); }
                            }
                            lemma_mystery_indices_other(ps, rv[j].0, i as int);
                        }
                    }
                    assert forall|j: int| 0 <= j < nv.len() implies has_mystery(ps, #[trigger] nv[j].0, i as int + 1) by {
                        let w = choose|w: int| 0 <= w < i && #[trigger] ps[w].is_mystery && ps[w].author_id == rv[j].0;
                        assert(0 <= w < i + 1);
                    }
                    assert forall|b: usize| #[trigger] has_mystery(ps, b, i as int + 1) implies exists|j: int| 0 <= j < nv.len() && #[trigger] nv[j].0 == b by {
                        let w = choose|w: int| 0 <= w < i + 1 && #[trigger] ps[w].is_mystery && ps[w].author_id == b;
                        if w < i {
                            assert(has_mystery(ps, b, i as int));
                            let j = choose|j: int| 0 <= j < rv.len() && #[trigger] rv[j].0 == b;
                            assert(nv[j].0 == b);
                        } else {
                            assert(nv[s as int].0 == b);
                        }
                    }
                    assert(is_mystery_grouping(ps, i as int + 1, nv));
                }
            } else {
                let mut members: Vec<usize> = Vec::new();
                members.push(i);
                r.insert(s, (a, members));
                proof {
                    let nv = r@.map_values(|g: (usize, Vec<usize>)| (g.0, g.1@));
                    assert(!has_mystery(ps, a, i as int)) by {
                        if has_mystery(ps, a, i as int) {
                            let j = choose|j: int| 0 <= j < rv.len() && #[trigger] rv[j].0 == a;
                            if j < s {
                            } else if j > s {
                                assert(rv[s as int].0 < rv[j].0);
                            }
                        }
                    }
                    lemma_no_mystery_empty(ps, a, i as int);
                    assert(nv =~= rv.insert(s as int, (a, seq![i])));
                    assert forall|j: int, l: int| 0 <= j < l < nv.len() implies #[trigger] nv[j].0 < #[trigger] nv[l].0 by {
                        if s < rv.len() {
                            assert(a < rv[s as int].0);
                        }
                        if j < s && l > s {
                            assert(nv[l].0 == rv[l - 1].0);
                        }
                        if j == s && l > s + 1 {
                            assert(rv[s as int].0 < rv[l - 1].0);
                        }
                    }
                    assert forall|j: int| 0 <= j < nv.len() implies #[trigger] nv[j].1 == mystery_indices(ps, nv[j].0, i as int + 1) by {
                        if j < s {
                            lemma_mystery_indices_other(ps, rv[j].0, i as int);
                        } else if j > s {
                            if s < rv.len() {
                                assert(a < rv[s as int].0);
                            }
                            if j - 1 > s {
                                assert(rv[s as int].0 < rv[j - 1].0);
                            }
                            lemma_mystery_indices_other(ps, rv[j - 1].0, i as int);
                        } else {
                            assert(mystery_indices(ps, a, i as int + 1) =~= seq![i]);
                        }
                    }
                    assert forall|j: int| 0 <= j < nv.len() implies has_mystery(ps, #[trigger] nv[j].0, i as int + 1) by {
                        if j == s {
                            assert(ps[i as int].is_mystery && ps[i as int].author_id == a);
                        } else {
                            let jj = if j < s { j } else { j - 1 };
                            assert(nv[j] == rv[jj]);
                            let w = choose|w: int| 0 <= w < i && #[trigger] ps[w].is_mystery && ps[w].author_id == rv[jj].0;
                            assert(0 <= w < i + 1);
                        }
                    }
                    assert forall|b: usize| #[trigger] has_mystery(ps, b, i as int + 1) implies exists|j: int| 0 <= j < nv.len() && #[trigger] nv[j].0 == b by {
                        let w = choose|w: int| 0 <= w < i + 1 && #[trigger] ps[w].is_mystery && ps[w].author_id == b;
                        if w < i {
                            assert(has_mystery(ps, b, i as int));
                            let j = choose|j: int| 0 <= j < rv.len() && #[trigger] rv[j].0 == b;
                            if j < s {
                                assert(nv[j].0 == b);
                            } else {
                                assert(nv[j + 1].0 == b);
                            }
                        } else {
                            assert(nv[s as int].0 == b);
                        }
                    }
                }
            }
        } else {
            proof {
                assert forall|j: int| 0 <= j < rv.len() implies #[trigger] rv[j].1 == mystery_indices(ps, rv[j].0, i as int + 1) by {
                    lemma_mystery_indices_other(ps, rv[j].0, i as int);
                }
                assert forall|j: int| 0 <= j < rv.len() implies has_mystery(ps, #[trigger] rv[j].0, i as int + 1) by {
                    let w = choose|w: int| 0 <= w < i && #[trigger] ps[w].is_mystery && ps[w].author_id == rv[j].0;
                    assert(0 <= w < i + 1);
                }
                assert forall|b: usize| #[trigger] has_mystery(ps, b, i as int + 1) implies exists|j: int| 0 <= j < rv.len() && #[trigger] rv[j].0 == b by {
                    let w = choose|w: int| 0 <= w < i + 1 && #[trigger] ps[w].is_mystery && ps[w].author_id == b;
                    assert(w < i);
                    assert(has_mystery(ps, b, i as int));
                }
            }
        }
        i += 1;
    }
    r
}


/// Test passages of the familiarity curve among the first `k`: every 5th passage of
/// each author (its 1st, 6th, 11th, …), in order.
pub open spec fn curve_test_indices(ps: Seq<Passage>, k: int) -> Seq<usize>
    decreases k,
{
    if k <= 0 {
        Seq::empty()
    } else if author_rank(ps, k - 1) % 5 == 0 {
        curve_test_indices(ps, k - 1).push((k - 1) as usize)
    } else {
        curve_test_indices(ps, k - 1)
    }
}

/// Training pool of author `a` among the first `k` passages: the author's passages that
/// are not test passages, in order.
pub open spec fn curve_pool_indices(ps: Seq<Passage>, a: usize, k: int) -> Seq<usize>
    decreases k,
{
    if k <= 0 {
        Seq::empty()
    } else if ps[k - 1].author_id == a && author_rank(ps, k - 1) % 5 != 0 {
        curve_pool_indices(ps, a, k - 1).push((k - 1) as usize)
    } else {
        curve_pool_indices(ps, a, k - 1)
    }
}

/// The fixed test/train split of the familiarity curve: every 5th passage of each author
/// is a test passage, the rest form that author's training pool.
pub fn familiarity_split(passages: &[Passage], n_authors: usize) -> (r: (Vec<usize>, Vec<Vec<usize>>))
    requires
        forall|i: int| 0 <= i < passages@.len() ==> #[trigger] passages@[i].author_id < n_authors,
    ensures
        r.0@ == curve_test_indices(passages@, passages@.len() as int),
        r.1@.len() == n_authors,
        forall|a: int| 0 <= a < n_authors ==> #[trigger] r.1@[a]@ == curve_pool_indices(
            passages@,
            a as usize,
            passages@.len() as int,
        ),
{
    let ghost ps = passages@;
    let mut test: Vec<usize> = Vec::new();
    let mut pool: Vec<Vec<usize>> = Vec::new();
    let mut local: Vec<usize> = Vec::new();
    let mut a: usize = 0;
    while a < n_authors
        invariant
            a <= n_authors,
            pool@.len() == a,
            local@.len() == a,
            forall|b: int| 0 <= b < a ==> #[trigger] pool@[b]@ == Seq::<usize>::empty(),
            forall|b: int| 0 <= b < a ==> #[trigger] local@[b] == 0,
        decreases n_authors - a,
    {
        pool.push(Vec::new());
        local.push(0);
        a += 1;
    }
    let mut i: usize = 0;
    while i < passages.len()
        invariant
            ps == passages@,
            i <= ps.len(),
            forall|j: int| 0 <= j < ps.len() ==> #[trigger] ps[j].author_id < n_authors,
            pool@.len() == n_authors,
            local@.len() == n_authors,
            test@ == curve_test_indices(ps, i as int),
            forall|b: int| 0 <= b < n_authors ==> #[trigger] local@[b] == count_author(ps, b as usize, i as int),
            forall|b: int| 0 <= b < n_authors ==> #[trigger] pool@[b]@ == curve_pool_indices(ps, b as usize, i as int),
            forall|b: int| 0 <= b < n_authors ==> #[trigger] local@[b] <= i,
        decreases ps.len() - i,
    {
        let a = passages[i].author_id;
        assert(local@[a as int] == author_rank(ps, i as int));
        if local[a] % 5 == 0 {
            test.push(i);
        } else {
            let ghost before = pool@;
            pool[a].push(i);
            proof {
                assert forall|b: int| 0 <= b < n_authors implies #[trigger] pool@[b]@ == curve_pool_indices(ps, b as usize, i as int + 1) by {
                    if b != a {
                        assert(pool@[b] == before[b]);
                    }
                }
            }
        }
        let c = local[a];
        local.set(a, c + 1);
        i += 1;
    }
    (test, pool)
}

proof fn lemma_curve_indices_membership(ps: Seq<Passage>, a: usize, k: int, i: int)
    requires
        0 <= k <= ps.len(),
        ps.len() <= usize::MAX,
        0 <= i < ps.len(),
    ensures
        curve_test_indices(ps, k).contains(i as usize) <==> (i < k && count_author(ps, ps[i].author_id, i) % 5 == 0),
        curve_pool_indices(ps, a, k).contains(i as usize) <==> (i < k && ps[i].author_id == a && count_author(
            ps,
            a,
            i,
        ) % 5 != 0),
    decreases k,
{
    if k == 0 {
        assert(curve_test_indices(ps, k).len() == 0);
        assert(curve_pool_indices(ps, a, k).len() == 0);
    } else {
        lemma_curve_indices_membership(ps, a, k - 1, i);
        let t0 = curve_test_indices(ps, k - 1);
        let p0 = curve_pool_indices(ps, a, k - 1);
        let last = (k - 1) as usize;
        assert(last as int == k - 1);
        assert((i as usize == last) <==> i == k - 1);
        if author_rank(ps, k - 1) % 5 == 0 {
            assert(curve_test_indices(ps, k) == t0.push(last));
            assert(t0.push(last)[t0.len() as int] == last);
            assert(t0.push(last).contains(i as usize) <==> (t0.contains(i as usize) || i as usize == last)) by {
                if t0.contains(i as usize) {
                    let j = choose|j: int| 0 <= j < t0.len() && t0[j] == i as usize;
                    assert(t0.push(last)[j] == i as usize);
                }
                if t0.push(last).contains(i as usize) {
                    let j = choose|j: int| 0 <= j < t0.push(last).len() && t0.push(last)[j] == i as usize;
                    if j < t0.len() {
                        assert(t0[j] == i as usize);
                    }
                }
            }
        } else {
            assert(curve_test_indices(ps, k) == t0);
        }
        if ps[k - 1].author_id == a && author_rank(ps, k - 1) % 5 != 0 {
            assert(curve_pool_indices(ps, a, k) == p0.push(last));
            assert(p0.push(last)[p0.len() as int] == last);
            assert(p0.push(last).contains(i as usize) <==> (p0.contains(i as usize) || i as usize == last)) by {
                if p0.contains(i as usize) {
                    let j = choose|j: int| 0 <= j < p0.len() && p0[j] == i as usize;
                    assert(p0.push(last)[j] == i as usize);
                }
                if p0.push(last).contains(i as usize) {
                    let j = choose|j: int| 0 <= j < p0.push(last).len() && p0.push(last)[j] == i as usize;
                    if j < p0.len() {
                        assert(p0[j] == i as usize);
                    }
                }
            }
        } else {
            assert(curve_pool_indices(ps, a, k) == p0);
        }
    }
}

/// The familiarity split tests a passage exactly when the number of earlier passages by
/// the same author is a multiple of 5 (so every author's first passage is tested), and
/// puts every other passage in its own author's training pool.
pub proof fn law_familiarity_split_by_author_rank(ps: Seq<Passage>, a: usize, i: int)
    requires
        ps.len() <= usize::MAX,
        0 <= i < ps.len(),
    ensures
        curve_test_indices(ps, ps.len() as int).contains(i as usize) <==> count_author(ps, ps[i].author_id, i) % 5 == 0,
        curve_pool_indices(ps, a, ps.len() as int).contains(i as usize) <==> (ps[i].author_id == a && count_author(ps, a, i) % 5 != 0),
        count_author(ps, ps[i].author_id, i) == 0 ==> curve_test_indices(ps, ps.len() as int).contains(i as usize),
{
    lemma_curve_indices_membership(ps, a, ps.len() as int, i);
}

} // verus!
