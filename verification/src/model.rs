//! The shared data model: authors, passages, model and dataset manifests.

use vstd::prelude::*;

verus! {

/// A generic recoverable attribute of an author/coder (e.g. "Primary language" → "C").
pub struct Trait {
    pub name: String,
    pub value: String,
}

/// One author. `id` is a dense index into the author list.
pub struct AuthorMeta {
    pub id: usize,
    pub name: String,
    /// CSS hex color, used consistently across every view.
    pub color: String,
    /// "Male" / "Female".
    pub gender: String,
    /// Country of birth.
    pub birth_country: String,
    /// Country where they grew up.
    pub raised: String,
    /// Country of their main education.
    pub educated: String,
    /// Specific college/university, or "None" if self-taught.
    pub college: String,
    /// Generic recoverable traits (name → value).
    pub traits: Vec<Trait>,
}

/// One passage of an author's writing (prose or code). The 2D map coordinates
/// live with the embedding, outside this model.
pub struct Passage {
    pub author_id: usize,
    pub book_title: String,
    /// Series (prose) or repository (code) the passage belongs to.
    pub series: String,
    pub text: String,
    /// Held-out passages: excluded from centroids, used as classifier queries.
    pub is_mystery: bool,
    /// Unix timestamp the code was authored; 0 = unknown (prose).
    pub authored: i64,
}

/// One embedding model available in the demo.
pub struct ModelInfo {
    /// Filename key: `person2vec-<key>.{json,bin}`.
    pub key: String,
    pub name: String,
    pub dim: usize,
    /// Human size label, e.g. "tiny · 23M params".
    pub size: String,
}

/// Lists the models the corpus generated.
pub struct Manifest {
    pub default: String,
    pub models: Vec<ModelInfo>,
}

/// One dataset lens on the site: prose authors, or code "coders".
pub struct DatasetInfo {
    /// Filename key: `person2vec-<key>.{json,bin}`.
    pub key: String,
    pub label: String,
    /// Short subtitle shown under the toggle.
    pub blurb: String,
}

/// Lists the datasets the site offers.
pub struct DatasetManifest {
    pub default: String,
    pub datasets: Vec<DatasetInfo>,
}

/// One "next-work" prediction: the author guessed for a held-out passage when the
/// model has read that author and when it has not.
pub struct Prediction {
    pub passage_idx: usize,
    pub true_author: usize,
    pub pred_seen: usize,
    pub pred_unseen: usize,
}

/// Description of the model behind a J-lens bundle.
pub struct JlensModel {
    pub name: String,
    pub layers: usize,
    pub d_model: usize,
    pub vocab: usize,
    pub max_len: usize,
    /// Provenance of the pseudo-unembedding.
    pub w_u_source: String,
    /// How many passages the averaged Jacobians were built from.
    pub passages: usize,
}

/// A concept token and its vocab-lens rank at each layer (1 = surfaced strongest).
pub struct JlensConcept {
    pub tok: String,
    pub per_layer_rank: Vec<u32>,
}

/// A dataset's (key, label, blurb).
pub open spec fn dataset_view(d: DatasetInfo) -> (Seq<char>, Seq<char>, Seq<char>) {
    (d.key@, d.label@, d.blurb@)
}

/// The static list of dataset lenses the site offers: coders (the default) and authors
/// (which keeps the `minilm` file key).
pub fn site_datasets() -> (m: DatasetManifest)
    ensures
        m.default@ == "coders"@,
        m.datasets@.map_values(|d: DatasetInfo| dataset_view(d)) == seq![
            ("coders"@, "Coders"@, "code · open-source commits"@),
            ("minilm"@, "Authors"@, "prose · public-domain books"@),
        ],
{
    let mut datasets: Vec<DatasetInfo> = Vec::new();
    datasets.push(
        DatasetInfo {
            key: "coders".to_string(),
            label: "Coders".to_string(),
            blurb: "code · open-source commits".to_string(),
        },
    );
    datasets.push(
        DatasetInfo {
            key: "minilm".to_string(),
            label: "Authors".to_string(),
            blurb: "prose · public-domain books".to_string(),
        },
    );
    let m = DatasetManifest { default: "coders".to_string(), datasets };
    assert(m.datasets@.map_values(|d: DatasetInfo| dataset_view(d)) =~= seq![
        ("coders"@, "Coders"@, "code · open-source commits"@),
        ("minilm"@, "Authors"@, "prose · public-domain books"@),
    ]);
    m
}

/// Number of passages among the first `k` whose author is `a`.
pub open spec fn count_author(ps: Seq<Passage>, a: usize, k: int) -> nat
    decreases k,
{
    if k <= 0 {
        0
    } else {
        count_author(ps, a, k - 1) + (if ps[k - 1].author_id == a { 1nat } else { 0 })
    }
}

/// Number of held-out passages among the first `k` whose author is `a`.
pub open spec fn count_author_mystery(ps: Seq<Passage>, a: usize, k: int) -> nat
    decreases k,
{
    if k <= 0 {
        0
    } else {
        count_author_mystery(ps, a, k - 1) + (if ps[k - 1].author_id == a && ps[k - 1].is_mystery {
            1nat
        } else {
            0
        })
    }
}

/// Position of passage `i` among its author's passages (0 for the author's first).
pub open spec fn author_rank(ps: Seq<Passage>, i: int) -> nat {
    count_author(ps, ps[i].author_id, i)
}

/// How many held-out "mystery" passages an author already has.
pub fn count_mystery(passages: &[Passage], author_id: usize) -> (r: usize)
    ensures
        r == count_author_mystery(passages@, author_id, passages@.len() as int),
{
    let mut r: usize = 0;
    let mut i: usize = 0;
    while i < passages.len()
        invariant
            i <= passages@.len(),
            r == count_author_mystery(passages@, author_id, i as int),
            r <= i,
        decreases passages@.len() - i,
    {
        if passages[i].author_id == author_id && passages[i].is_mystery {
            r += 1;
        }
        i += 1;
    }
    r
}

/// Whether the passage at rank `r` among an author's `n` passages is one of the
/// first `per_author` picks of the spread positions `n/5, 2n/5, 3n/5, 4n/5` (authors
/// with at most 8 passages get none).
pub open spec fn is_mystery_pick(n: int, r: int, per_author: int) -> bool {
    n > 8 && exists|t: int| 1 <= t <= 4 && t <= per_author && r == #[trigger] (t * n / 5)
}

/// The ranks, among an author's `n` passages, of the ones held out.
pub open spec fn mystery_positions(n: int, per_author: int) -> Set<int> {
    Set::new(|r: int| 0 <= r < n && is_mystery_pick(n, r, per_author))
}

/// An author with more than 8 passages has exactly `min(per_author, 4)` of them held
/// out; an author with fewer has none.
pub proof fn lemma_mystery_count(n: int, per_author: int)
    requires
        n >= 0,
        per_author >= 0,
    ensures
        mystery_positions(n, per_author).finite(),
        mystery_positions(n, per_author).len() == (if n > 8 {
            if per_author < 4 { per_author } else { 4 }
        } else {
            0
        }),
{
    let s = mystery_positions(n, per_author);
    if n <= 8 {
        assert(s =~= Set::<int>::empty());
    } else {
        let m: int = if per_author < 4 { per_author } else { 4 };
        let ts = vstd::set_lib::set_int_range(1, m + 1);
        let f = |t: int| t * n / 5;
        vstd::set_lib::lemma_int_range(1, m + 1);
        assert forall|t: int| 1 <= t <= 4 implies 0 <= #[trigger] (t * n / 5) < n by {
            assert(0 <= t * n / 5 < n) by (nonlinear_arith)
                requires 1 <= t <= 4, n > 8;
        }
        assert(s =~= ts.map(f)) by {
            assert forall|r: int| s.contains(r) <==> ts.map(f).contains(r) by {
                if s.contains(r) {
                    let t = choose|t: int| 1 <= t <= 4 && t <= per_author && r == #[trigger] (t * n / 5);
                    assert(ts.contains(t) && f(t) == r);
                }
                if ts.map(f).contains(r) {
                    let t = choose|t: int| ts.contains(t) && f(t) == r;
                    assert(1 <= t <= 4 && t <= per_author && r == t * n / 5);
                }
            }
        }
        assert(vstd::relations::injective_on(f, ts)) by {
            assert forall|t1: int, t2: int| ts.contains(t1) && ts.contains(t2) && #[trigger] f(t1) == #[trigger] f(t2) implies t1 == t2 by {
                if t1 < t2 {
                    assert(t1 * n / 5 < t2 * n / 5) by (nonlinear_arith)
                        requires 1 <= t1 < t2, n > 8;
                } else if t2 < t1 {
                    assert(t2 * n / 5 < t1 * n / 5) by (nonlinear_arith)
                        requires 1 <= t2 < t1, n > 8;
                }
            }
        }
        vstd::set_lib::lemma_map_size(ts, ts.map(f), f);
    }
}

fn count_of_author(passages: &[Passage], a: usize, k: usize) -> (r: usize)
    requires
        k <= passages@.len(),
    ensures
        r == count_author(passages@, a, k as int),
{
    let mut r: usize = 0;
    let mut i: usize = 0;
    while i < k
        invariant
            i <= k <= passages@.len(),
            r == count_author(passages@, a, i as int),
            r <= i,
        decreases k - i,
    {
        if passages[i].author_id == a {
            r += 1;
        }
        i += 1;
    }
    r
}


/// `p` with its held-out flag set to `b`, every other field unchanged.
pub open spec fn with_mystery(p: Passage, b: bool) -> Passage {
    Passage {
        author_id: p.author_id,
        book_title: p.book_title,
        series: p.series,
        text: p.text,
        is_mystery: b,
        authored: p.authored,
    }
}

/// Author counts depend only on the author ids.
pub proof fn lemma_count_author_ids(ps1: Seq<Passage>, ps2: Seq<Passage>, a: usize, k: int)
    requires
        0 <= k <= ps1.len(),
        ps1.len() == ps2.len(),
        forall|j: int| 0 <= j < ps1.len() ==> #[trigger] ps1[j].author_id == ps2[j].author_id,
    ensures
        count_author(ps1, a, k) == count_author(ps2, a, k),
    decreases k,
{
    if k > 0 {
        lemma_count_author_ids(ps1, ps2, a, k - 1);
    }
}

proof fn lemma_count_author_le(ps: Seq<Passage>, a: usize, k: int)
    requires
        0 <= k,
    ensures
        count_author(ps, a, k) <= k,
    decreases k,
{
    if k > 0 {
        lemma_count_author_le(ps, a, k - 1);
    }
}

/// Mark up to `per_author` spread-out passages per author as held-out "new work":
/// the passages at positions n/5, 2n/5, 3n/5, 4n/5 among an author's `n` passages
/// (in order), only for authors with more than 8 passages.
pub fn mark_mystery(passages: &mut [Passage], per_author: usize)
    requires
        old(passages)@.len() <= usize::MAX / 4,
    ensures
        final(passages)@.len() == old(passages)@.len(),
        forall|i: int|
            0 <= i < old(passages)@.len() ==> #[trigger] final(passages)@[i] == with_mystery(
                old(passages)@[i],
                old(passages)@[i].is_mystery || is_mystery_pick(
                    count_author(old(passages)@, old(passages)@[i].author_id, old(passages)@.len() as int) as int,
                    author_rank(old(passages)@, i) as int,
                    per_author as int,
                ),
            ),
{
    let ghost orig = passages@;
    let len = passages.len();
    let mut i: usize = 0;
    while i < len
        invariant
            len == orig.len() == passages@.len(),
            len <= usize::MAX / 4,
            i <= len,
            forall|j: int| 0 <= j < len ==> #[trigger] passages@[j].author_id == orig[j].author_id,
            forall|j: int|
                0 <= j < i ==> #[trigger] passages@[j] == with_mystery(
                    orig[j],
                    orig[j].is_mystery || is_mystery_pick(
                        count_author(orig, orig[j].author_id, len as int) as int,
                        author_rank(orig, j) as int,
                        per_author as int,
                    ),
                ),
            forall|j: int| i <= j < len ==> #[trigger] passages@[j] == orig[j],
        decreases len - i,
    {
        let a = passages[i].author_id;
        let n = count_of_author(passages, a, len);
        let r = count_of_author(passages, a, i);
        proof {
            lemma_count_author_ids(passages@, orig, a, len as int);
            lemma_count_author_ids(passages@, orig, a, i as int);
            lemma_count_author_le(orig, a, len as int);
        }
        let mut pick = false;
        if n > 8 {
            let mut t: usize = 1;
            while t <= 4 && t <= per_author
                invariant
                    1 <= t <= 5,
                    n <= usize::MAX / 4,
                    n > 8,
                    pick <==> exists|u: int| 1 <= u < t && u <= per_author && r == #[trigger] (u * n / 5),
                decreases 5 - t,
            {
                assert(t * n <= 4 * n) by (nonlinear_arith)
                    requires
                        t <= 4,
                ;
                if r == t * n / 5 {
                    pick = true;
                }
                t += 1;
            }
            proof {
                if pick != is_mystery_pick(n as int, r as int, per_author as int) {
                    if pick {
                        let u = choose|u: int| 1 <= u < t && u <= per_author && r == #[trigger] (u * n / 5);
                        assert(is_mystery_pick(n as int, r as int, per_author as int));
                    } else {
                        let u = choose|u: int| 1 <= u <= 4 && u <= per_author && r == #[trigger] (u * n / 5);
                        assert(u < t);
                    }
                }
            }
        }
        if pick {
            passages[i].is_mystery = true;
        }
        proof {
            assert(passages@[i as int] == with_mystery(
                orig[i as int],
                orig[i as int].is_mystery || is_mystery_pick(
                    count_author(orig, orig[i as int].author_id, len as int) as int,
                    author_rank(orig, i as int) as int,
                    per_author as int,
                ),
            ));
        }
        i += 1;
    }
}

} // verus!
