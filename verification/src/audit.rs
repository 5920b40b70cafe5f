//! Honesty audit of the coders dataset: the label-shuffle control (a fixed
//! pseudo-random permutation of the author labels) and the repositories shared by
//! several roster developers, where vocabulary is held constant.

use vstd::prelude::*;

use crate::lex::{insert_sorted_unique, lemma_is_sorted_listing, sorted_listing, strictly_sorted, views};
use crate::model::Passage;
use crate::text::{chars_of, string_of};

verus! {

broadcast use vstd::string::group_string_axioms;

/// The seed of the label shuffle.
pub const SHUFFLE_SEED: u64 = 0x9E37_79B9_7F4A_7C15;

/// One xorshift64 step (shifts 13, 7, 17).
pub open spec fn xorshift(r: u64) -> u64 {
    let a = r ^ (r << 13u64);
    let b = a ^ (a >> 7u64);
    b ^ (b << 17u64)
}

/// `s` with the entries at `i` and `j` exchanged.
pub open spec fn swap_at(s: Seq<usize>, i: int, j: int) -> Seq<usize> {
    s.update(i, s[j]).update(j, s[i])
}

/// The Fisher–Yates shuffle of `s` from position `i` down to 1, drawing from the
/// xorshift generator in state `rng`: at each position `i` the entry is exchanged with
/// the one at `next % (i + 1)`.
pub open spec fn shuffle_down(s: Seq<usize>, rng: u64, i: nat) -> Seq<usize>
    decreases i,
{
    if i == 0 {
        s
    } else {
        let r = xorshift(rng);
        let j = (r % ((i + 1) as u64)) as int;
        shuffle_down(swap_at(s, i as int, j), r, (i - 1) as nat)
    }
}

/// The shuffled labels: the whole sequence shuffled from its last position.
pub open spec fn shuffled_spec(labels: Seq<usize>) -> Seq<usize> {
    if labels.len() <= 1 {
        labels
    } else {
        shuffle_down(labels, SHUFFLE_SEED, (labels.len() - 1) as nat)
    }
}

proof fn lemma_shuffle_down_perm(s: Seq<usize>, rng: u64, i: nat)
    requires
        i < s.len(),
        s.len() <= u64::MAX,
    ensures
        shuffle_down(s, rng, i).len() == s.len(),
        shuffle_down(s, rng, i).to_multiset() == s.to_multiset(),
    decreases i,
{
    broadcast use vstd::seq_lib::group_to_multiset_ensures;

    if i > 0 {
        let r = xorshift(rng);
        let j = (r % ((i + 1) as u64)) as int;
        assert(0 <= j < i + 1);
        let t = swap_at(s, i as int, j);
        assert(t.to_multiset() =~= s.to_multiset()) by {
            vstd::seq_lib::to_multiset_update(s, i as int, s[j]);
            vstd::seq_lib::to_multiset_update(s.update(i as int, s[j]), j, s[i as int]);
            broadcast use vstd::multiset::group_multiset_axioms;
        }
        lemma_shuffle_down_perm(t, r, (i - 1) as nat);
    }
}

fn xorshift_step(r: u64) -> (n: u64)
    ensures
        n == xorshift(r),
{
    let a = r ^ (r << 13u64);
    let b = a ^ (a >> 7u64);
    b ^ (b << 17u64)
}

/// The author labels after the fixed pseudo-random shuffle of the label-shuffle
/// control; a permutation of the input.
pub fn shuffled_labels(labels: Vec<usize>) -> (r: Vec<usize>)
    ensures
        r@ == shuffled_spec(labels@),
        r@.to_multiset() == labels@.to_multiset(),
{
    let mut v = labels;
    let ghost orig = v@;
    if v.len() <= 1 {
        return v;
    }
    proof {
        assert(orig.len() <= u64::MAX) by {
            assert(v.len() <= usize::MAX);
        }
        lemma_shuffle_down_perm(orig, SHUFFLE_SEED, (orig.len() - 1) as nat);
    }
    let n: usize = v.len();
    let mut rng: u64 = SHUFFLE_SEED;
    let mut i: usize = n - 1;
    while i >= 1
        invariant
            n == v@.len(),
            v@.len() == orig.len(),
            i < v@.len(),
            shuffle_down(v@, rng, i as nat) == shuffled_spec(orig),
        decreases i,
    {
        let ghost before = v@;
        rng = xorshift_step(rng);
        let j = (rng % ((i as u64) + 1)) as usize;
        let x = v[i];
        let y = v[j];
        v.set(i, y);
        v.set(j, x);
        proof {
            assert(v@ =~= swap_at(before, i as int, j as int));
        }
        i -= 1;
    }
    v
}

/// The repository names of the training passages among the first `m`.
pub open spec fn series_upto(ps: Seq<Passage>, m: int) -> Set<Seq<char>> {
    Set::new(|name: Seq<char>| exists|i: int| 0 <= i < m && !ps[i].is_mystery && #[trigger] ps[i].series@ == name)
}

/// The training passages of repository `name` among the first `m`, in order.
pub open spec fn members_upto(ps: Seq<Passage>, name: Seq<char>, m: int) -> Seq<usize>
    decreases m,
{
    if m <= 0 {
        Seq::empty()
    } else if !ps[m - 1].is_mystery && ps[m - 1].series@ == name {
        members_upto(ps, name, m - 1).push((m - 1) as usize)
    } else {
        members_upto(ps, name, m - 1)
    }
}

/// The distinct authors of a list of passages.
pub open spec fn authors_of(ps: Seq<Passage>, idxs: Seq<usize>) -> Set<usize> {
    Set::new(|a: usize| exists|k: int| 0 <= k < idxs.len() && #[trigger] ps[idxs[k] as int].author_id == a)
}

/// The repositories of the training passages, sorted by name, each with its passages
/// in order and its number of distinct authors.
pub open spec fn repo_groups_spec(ps: Seq<Passage>) -> Seq<(Seq<char>, Seq<usize>, nat)> {
    let names = sorted_listing(series_upto(ps, ps.len() as int));
    names.map_values(|name: Seq<char>| {
        let idxs = members_upto(ps, name, ps.len() as int);
        (name, idxs, authors_of(ps, idxs).len())
    })
}

proof fn lemma_authors_push(ps: Seq<Passage>, idxs: Seq<usize>, i: usize)
    ensures
        authors_of(ps, idxs.push(i)) == authors_of(ps, idxs).insert(ps[i as int].author_id),
{
    let n = idxs.push(i);
    assert forall|a: usize| authors_of(ps, n).contains(a) <==> (authors_of(ps, idxs).contains(a) || a == ps[i as int].author_id) by {
        if authors_of(ps, n).contains(a) {
            let k = choose|k: int| 0 <= k < n.len() && #[trigger] ps[n[k] as int].author_id == a;
            if k < idxs.len() {
                assert(n[k] == idxs[k]);
                assert(ps[idxs[k] as int].author_id == a);
            }
        }
        if authors_of(ps, idxs).contains(a) {
            let k = choose|k: int| 0 <= k < idxs.len() && #[trigger] ps[idxs[k] as int].author_id == a;
            assert(n[k] == idxs[k]);
            assert(ps[n[k] as int].author_id == a);
        }
        if a == ps[i as int].author_id {
            assert(n[idxs.len() as int] == i);
            assert(ps[n[idxs.len() as int] as int].author_id == a);
        }
    }
    assert(authors_of(ps, n) =~= authors_of(ps, idxs).insert(ps[i as int].author_id));
}

fn members_of(passages: &[Passage], name: &[char]) -> (r: (Vec<usize>, usize))
    ensures
        r.0@ == members_upto(passages@, name@, passages@.len() as int),
        r.1 == authors_of(passages@, r.0@).len(),
{
    let mut idxs: Vec<usize> = Vec::new();
    let mut devs: Vec<usize> = Vec::new();
    let mut i: usize = 0;
    while i < passages.len()
        invariant
            i <= passages@.len(),
            idxs@ == members_upto(passages@, name@, i as int),
            forall|k: int| 0 <= k < idxs@.len() ==> #[trigger] idxs@[k] < i,
            devs@.no_duplicates(),
            devs@.to_set() == authors_of(passages@, idxs@),
        decreases passages@.len() - i,
    {
        let p = &passages[i];
        if !p.is_mystery && crate::lex::chars_eq(&chars_of(p.series.as_str()), name) {
            let ghost old_idxs = idxs@;
            let ghost old_devs = devs@;
            let mut present = false;
            let mut q: usize = 0;
            while q < devs.len()
                invariant
                    q <= devs@.len(),
                    devs@ == old_devs,
                    idxs@ == old_idxs,
                    present <==> exists|t: int| 0 <= t < q && devs@[t] == p.author_id,
                decreases devs@.len() - q,
            {
                if devs[q] == p.author_id {
                    present = true;
                }
                q += 1;
            }
            if !present {
                devs.push(p.author_id);
            }
            idxs.push(i);
            proof {
                assert(idxs@ == old_idxs.push(i));
                assert(passages@[i as int].author_id == p.author_id);
                old_devs.lemma_push_to_set_commute(p.author_id);
                lemma_authors_push(passages@, old_idxs, i);
                if present {
                    let t = choose|t: int| 0 <= t < devs@.len() && devs@[t] == p.author_id;
                    assert(devs@.to_set().contains(p.author_id));
                    assert(devs@.to_set() =~= devs@.to_set().insert(p.author_id));
                } else {
                    assert forall|x: int, y: int| 0 <= x < devs@.len() && 0 <= y < devs@.len() && x != y implies devs@[x] != devs@[y] by {
                        if x == old_devs.len() {
                            assert(devs@[y] == old_devs[y]);
                        } else if y == old_devs.len() {
                            assert(devs@[x] == old_devs[x]);
                        }
                    }
                }
            }
        } else {
            proof {
                if !p.is_mystery {
                    assert(p.series@ != name@) by {
                        if p.series@ == name@ {
                        }
                    }
                }
            }
        }
        i += 1;
    }
    proof {
        devs@.unique_seq_to_set();
    }
    let n = devs.len();
    (idxs, n)
}

/// The repositories of the training passages, sorted by name, with their passages and
/// number of distinct authors (a repository with two or more roster developers holds
/// the vocabulary constant across them).
pub fn repo_groups(passages: &[Passage]) -> (r: Vec<(String, Vec<usize>, usize)>)
    ensures
        r@.map_values(|g: (String, Vec<usize>, usize)| (g.0@, g.1@, g.2 as nat)) == repo_groups_spec(passages@),
{
    let mut names: Vec<Vec<char>> = Vec::new();
    let mut i: usize = 0;
    proof {
        assert(views(names@).to_set() =~= series_upto(passages@, 0));
    }
    while i < passages.len()
        invariant
            i <= passages@.len(),
            strictly_sorted(views(names@)),
            views(names@).to_set() == series_upto(passages@, i as int),
        decreases passages@.len() - i,
    {
        if !passages[i].is_mystery {
            insert_sorted_unique(&mut names, chars_of(passages[i].series.as_str()));
        }
        proof {
            assert(views(names@).to_set() =~= series_upto(passages@, i as int + 1)) by {
                assert forall|nm: Seq<char>| series_upto(passages@, i as int + 1).contains(nm) <==> (series_upto(passages@, i as int).contains(nm)
                    || (!passages@[i as int].is_mystery && nm == passages@[i as int].series@)) by {
                    if series_upto(passages@, i as int + 1).contains(nm) {
                        let k = choose|k: int| 0 <= k < i + 1 && !passages@[k].is_mystery && #[trigger] passages@[k].series@ == nm;
                    }
                    if !passages@[i as int].is_mystery && nm == passages@[i as int].series@ {
                        assert(0 <= i < i + 1);
                    }
                }
            }
        }
        i += 1;
    }
    proof {
        lemma_is_sorted_listing(views(names@));
    }
    let ghost nv = views(names@);
    let mut out: Vec<(String, Vec<usize>, usize)> = Vec::new();
    let mut k: usize = 0;
    while k < names.len()
        invariant
            k <= names@.len(),
            nv == views(names@),
            nv == sorted_listing(series_upto(passages@, passages@.len() as int)),
            out@.map_values(|g: (String, Vec<usize>, usize)| (g.0@, g.1@, g.2 as nat)) == repo_groups_spec(passages@).take(k as int),
        decreases names@.len() - k,
    {
        let (idxs, n) = members_of(passages, names[k].as_slice());
        let ghost before = out@;
        let item = (string_of(names[k].as_slice()), idxs, n);
        let ghost iv = (item.0@, item.1@, item.2 as nat);
        out.push(item);
        proof {
            assert(nv[k as int] == names@[k as int]@);
            assert(out@.map_values(|g: (String, Vec<usize>, usize)| (g.0@, g.1@, g.2 as nat)) =~= before.map_values(
                |g: (String, Vec<usize>, usize)| (g.0@, g.1@, g.2 as nat),
            ).push(iv));
            assert(repo_groups_spec(passages@)[k as int] == iv);
            assert(out@.map_values(|g: (String, Vec<usize>, usize)| (g.0@, g.1@, g.2 as nat)) =~= repo_groups_spec(passages@).take(k as int + 1));
        }
        k += 1;
    }
    proof {
        assert(repo_groups_spec(passages@).take(k as int) =~= repo_groups_spec(passages@));
    }
    out
}

/// The book titles of author `a` among the first `m` passages (held-out ones too).
pub open spec fn titles_upto(ps: Seq<Passage>, a: usize, m: int) -> Set<Seq<char>> {
    Set::new(|t: Seq<char>| exists|i: int| 0 <= i < m && ps[i].author_id == a && #[trigger] ps[i].book_title@ == t)
}

/// The passages of author `a`'s book `t` among the first `m`, in order.
pub open spec fn book_members(ps: Seq<Passage>, a: usize, t: Seq<char>, m: int) -> Seq<usize>
    decreases m,
{
    if m <= 0 {
        Seq::empty()
    } else if ps[m - 1].author_id == a && ps[m - 1].book_title@ == t {
        book_members(ps, a, t, m - 1).push((m - 1) as usize)
    } else {
        book_members(ps, a, t, m - 1)
    }
}

/// The books of author `a`, titles sorted, each with its passages.
pub open spec fn author_books(ps: Seq<Passage>, a: usize) -> Seq<(usize, Seq<char>, Seq<usize>)> {
    sorted_listing(titles_upto(ps, a, ps.len() as int)).map_values(
        |t: Seq<char>| (a, t, book_members(ps, a, t, ps.len() as int)),
    )
}

/// The books of the authors below `a`, by author and then by title.
pub open spec fn books_upto(ps: Seq<Passage>, a: nat) -> Seq<(usize, Seq<char>, Seq<usize>)>
    decreases a,
{
    if a == 0 {
        Seq::empty()
    } else {
        books_upto(ps, (a - 1) as nat) + author_books(ps, (a - 1) as usize)
    }
}

fn book_members_exec(passages: &[Passage], a: usize, t: &[char]) -> (r: Vec<usize>)
    ensures
        r@ == book_members(passages@, a, t@, passages@.len() as int),
{
    let mut r: Vec<usize> = Vec::new();
    let mut i: usize = 0;
    while i < passages.len()
        invariant
            i <= passages@.len(),
            r@ == book_members(passages@, a, t@, i as int),
        decreases passages@.len() - i,
    {
        if passages[i].author_id == a && crate::lex::chars_eq(&chars_of(passages[i].book_title.as_str()), t) {
            r.push(i);
        }
        i += 1;
    }
    r
}

/// Every book of the authors `0..n` with its passages, held-out ones included, ordered
/// by author and then by title.
pub fn book_groups(passages: &[Passage], n: usize) -> (r: Vec<(usize, String, Vec<usize>)>)
    ensures
        r@.map_values(|g: (usize, String, Vec<usize>)| (g.0, g.1@, g.2@)) == books_upto(passages@, n as nat),
{
    let mut out: Vec<(usize, String, Vec<usize>)> = Vec::new();
    let mut a: usize = 0;
    while a < n
        invariant
            a <= n,
            out@.map_values(|g: (usize, String, Vec<usize>)| (g.0, g.1@, g.2@)) == books_upto(passages@, a as nat),
        decreases n - a,
    {
        let mut titles: Vec<Vec<char>> = Vec::new();
        let mut i: usize = 0;
        proof {
            assert(views(titles@).to_set() =~= titles_upto(passages@, a, 0));
        }
        while i < passages.len()
            invariant
                i <= passages@.len(),
                strictly_sorted(views(titles@)),
                views(titles@).to_set() == titles_upto(passages@, a, i as int),
            decreases passages@.len() - i,
        {
            if passages[i].author_id == a {
                insert_sorted_unique(&mut titles, chars_of(passages[i].book_title.as_str()));
            }
            proof {
                assert(views(titles@).to_set() =~= titles_upto(passages@, a, i as int + 1)) by {
                    assert forall|t: Seq<char>| titles_upto(passages@, a, i as int + 1).contains(t) <==> (titles_upto(passages@, a, i as int).contains(t)
                        || (passages@[i as int].author_id == a && t == passages@[i as int].book_title@)) by {
                        if titles_upto(passages@, a, i as int + 1).contains(t) {
                            let k = choose|k: int| 0 <= k < i + 1 && passages@[k].author_id == a && #[trigger] passages@[k].book_title@ == t;
                        }
                        if passages@[i as int].author_id == a && t == passages@[i as int].book_title@ {
                            assert(0 <= i < i + 1);
                        }
                    }
                }
            }
            i += 1;
        }
        proof {
            lemma_is_sorted_listing(views(titles@));
        }
        let ghost tv = views(titles@);
        let ghost base = out@.map_values(|g: (usize, String, Vec<usize>)| (g.0, g.1@, g.2@));
        let mut k: usize = 0;
        while k < titles.len()
            invariant
                k <= titles@.len(),
                a < n,
                tv == views(titles@),
                tv == sorted_listing(titles_upto(passages@, a, passages@.len() as int)),
                base == books_upto(passages@, a as nat),
                out@.map_values(|g: (usize, String, Vec<usize>)| (g.0, g.1@, g.2@)) == base + author_books(passages@, a).take(k as int),
            decreases titles@.len() - k,
        {
            let members = book_members_exec(passages, a, titles[k].as_slice());
            let ghost before = out@;
            let item = (a, string_of(titles[k].as_slice()), members);
            let ghost iv = (item.0, item.1@, item.2@);
            out.push(item);
            proof {
                assert(tv[k as int] == titles@[k as int]@);
                assert(author_books(passages@, a)[k as int] == iv);
                assert(out@.map_values(|g: (usize, String, Vec<usize>)| (g.0, g.1@, g.2@)) =~= before.map_values(
                    |g: (usize, String, Vec<usize>)| (g.0, g.1@, g.2@),
                ).push(iv));
                assert(author_books(passages@, a).take(k as int + 1) =~= author_books(passages@, a).take(k as int).push(iv));
                assert(base + author_books(passages@, a).take(k as int + 1) =~= (base + author_books(passages@, a).take(k as int)).push(iv));
            }
            k += 1;
        }
        proof {
            assert(author_books(passages@, a).take(k as int) =~= author_books(passages@, a));
        }
        a += 1;
    }
    out
}

} // verus!
