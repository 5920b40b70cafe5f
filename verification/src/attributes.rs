//! The trait-recovery experiments' bookkeeping: which classes an author trait has,
//! which class each author (or passage) falls in, and the class counts behind the
//! majority and blind-guessing baselines.

use vstd::prelude::*;

use crate::calendar::{era_bucket, era_bucket_spec, weekend_bucket, weekend_bucket_spec};
use crate::lex::chars_eq;
use crate::loocv::sum_u32;
use crate::model::{AuthorMeta, Passage, Trait};
use crate::text::{chars_of, string_of};

verus! {

/// The value of the first trait named `name` (empty when there is none).
pub open spec fn trait_lookup(ts: Seq<Trait>, name: Seq<char>) -> Seq<char>
    decreases ts.len(),
{
    if ts.len() == 0 {
        Seq::empty()
    } else if ts[0].name@ == name {
        ts[0].value@
    } else {
        trait_lookup(ts.drop_first(), name)
    }
}

/// Which author field a trait-recovery experiment reads.
pub enum AttrField {
    Gender,
    BirthCountry,
    Raised,
    Educated,
    College,
    /// A generic trait, by name.
    Trait(String),
}

/// The class string of author `a` for `field`.
pub open spec fn field_of(a: AuthorMeta, field: AttrField) -> Seq<char> {
    match field {
        AttrField::Gender => a.gender@,
        AttrField::BirthCountry => a.birth_country@,
        AttrField::Raised => a.raised@,
        AttrField::Educated => a.educated@,
        AttrField::College => a.college@,
        AttrField::Trait(name) => trait_lookup(a.traits@, name@),
    }
}

/// The value of the first trait of `a` named `name`, or the empty string.
pub fn trait_value(a: &AuthorMeta, name: &str) -> (v: Vec<char>)
    ensures
        v@ == trait_lookup(a.traits@, name@),
{
    let n = chars_of(name);
    let mut i: usize = 0;
    assert(a.traits@.skip(0) =~= a.traits@);
    while i < a.traits.len()
        invariant
            i <= a.traits@.len(),
            n@ == name@,
            trait_lookup(a.traits@, name@) == trait_lookup(a.traits@.skip(i as int), name@),
        decreases a.traits@.len() - i,
    {
        proof {
            assert(a.traits@.skip(i as int).drop_first() =~= a.traits@.skip(i as int + 1));
        }
        if chars_eq(&chars_of(a.traits[i].name.as_str()), &n) {
            return chars_of(a.traits[i].value.as_str());
        }
        i += 1;
    }
    Vec::new()
}

/// The class string of author `a` for `field`.
pub fn field_value(a: &AuthorMeta, field: &AttrField) -> (v: Vec<char>)
    ensures
        v@ == field_of(*a, *field),
{
    match field {
        AttrField::Gender => chars_of(a.gender.as_str()),
        AttrField::BirthCountry => chars_of(a.birth_country.as_str()),
        AttrField::Raised => chars_of(a.raised.as_str()),
        AttrField::Educated => chars_of(a.educated.as_str()),
        AttrField::College => chars_of(a.college.as_str()),
        AttrField::Trait(name) => trait_value(a, name.as_str()),
    }
}

/// The distinct values of `vals`, in order of first appearance.
pub open spec fn distinct(vals: Seq<Seq<char>>) -> Seq<Seq<char>>
    decreases vals.len(),
{
    if vals.len() == 0 {
        Seq::empty()
    } else {
        let prev = distinct(vals.drop_last());
        if prev.contains(vals.last()) {
            prev
        } else {
            prev.push(vals.last())
        }
    }
}

/// Position of `x` in `v`, if present.
fn position_of(v: &Vec<Vec<char>>, x: &[char]) -> (r: Option<usize>)
    ensures
        match r {
            Some(j) => j < v@.len() && v@[j as int]@ == x@ && forall|l: int| 0 <= l < j ==> v@[l]@ != x@,
            None => forall|l: int| 0 <= l < v@.len() ==> v@[l]@ != x@,
        },
{
    let mut j: usize = 0;
    while j < v.len()
        invariant
            j <= v@.len(),
            forall|l: int| 0 <= l < j ==> v@[l]@ != x@,
        decreases v@.len() - j,
    {
        if chars_eq(v[j].as_slice(), x) {
            return Some(j);
        }
        j += 1;
    }
    None
}

/// The authors' class strings for `field`.
pub open spec fn author_values(authors: Seq<AuthorMeta>, field: AttrField) -> Seq<Seq<char>> {
    authors.map_values(|a: AuthorMeta| field_of(a, field))
}

/// Dense class ids for an author trait: the distinct values in order of first
/// appearance, and each author's index into them.
pub fn author_classes(authors: &[AuthorMeta], field: &AttrField) -> (r: (Vec<String>, Vec<usize>))
    ensures
        r.0@.map_values(|c: String| c@) == distinct(author_values(authors@, *field)),
        r.1@.len() == authors@.len(),
        forall|a: int| 0 <= a < authors@.len() ==> #[trigger] r.1@[a] < r.0@.len() && r.0@[r.1@[a] as int]@
            == field_of(authors@[a], *field),
{
    let ghost vals = author_values(authors@, *field);
    let mut classes: Vec<Vec<char>> = Vec::new();
    let mut author_class: Vec<usize> = Vec::new();
    let mut i: usize = 0;
    while i < authors.len()
        invariant
            i <= authors@.len(),
            vals == author_values(authors@, *field),
            classes@.map_values(|c: Vec<char>| c@) == distinct(vals.take(i as int)),
            author_class@.len() == i,
            forall|a: int| 0 <= a < i ==> #[trigger] author_class@[a] < classes@.len() && classes@[author_class@[a] as int]@
                == field_of(authors@[a], *field),
        decreases authors@.len() - i,
    {
        let v = field_value(&authors[i], field);
        let ghost cv = classes@.map_values(|c: Vec<char>| c@);
        assert(vals[i as int] == v@);
        assert(vals.take(i as int + 1).drop_last() =~= vals.take(i as int));
        match position_of(&classes, &v) {
            Some(j) => {
                assert(cv[j as int] == v@);
                author_class.push(j);
            },
            None => {
                assert(!cv.contains(v@)) by {
                    if cv.contains(v@) {
                        let l = choose|l: int| 0 <= l < cv.len() && cv[l] == v@;
                        assert(classes@[l]@ == v@);
                    }
                }
                let j = classes.len();
                classes.push(v);
                assert(classes@.map_values(|c: Vec<char>| c@) =~= cv.push(vals[i as int]));
                author_class.push(j);
            },
        }
        i += 1;
    }
    let mut out: Vec<String> = Vec::new();
    let mut j: usize = 0;
    while j < classes.len()
        invariant
            j <= classes@.len(),
            out@.len() == j,
            forall|l: int| 0 <= l < j ==> #[trigger] out@[l]@ == classes@[l]@,
        decreases classes@.len() - j,
    {
        out.push(string_of(classes[j].as_slice()));
        j += 1;
    }
    proof {
        assert(vals.len() == authors@.len());
        assert(vals.take(i as int) =~= vals);
        assert(out@.map_values(|c: String| c@) =~= classes@.map_values(|c: Vec<char>| c@));
    }
    (out, author_class)
}


/// Every trait name of every author, in roster order.
pub open spec fn all_trait_names(authors: Seq<AuthorMeta>) -> Seq<Seq<char>>
    decreases authors.len(),
{
    if authors.len() == 0 {
        Seq::empty()
    } else {
        all_trait_names(authors.drop_last()) + authors.last().traits@.map_values(|t: Trait| t.name@)
    }
}

/// The distinct trait names of the roster, in order of first appearance.
pub fn trait_names(authors: &[AuthorMeta]) -> (names: Vec<String>)
    ensures
        names@.map_values(|n: String| n@) == distinct(all_trait_names(authors@)),
{
    let mut names: Vec<Vec<char>> = Vec::new();
    let ghost mut seen: Seq<Seq<char>> = Seq::empty();
    let mut i: usize = 0;
    while i < authors.len()
        invariant
            i <= authors@.len(),
            seen == all_trait_names(authors@.take(i as int)),
            names@.map_values(|c: Vec<char>| c@) == distinct(seen),
        decreases authors@.len() - i,
    {
        let ts = &authors[i].traits;
        let mut j: usize = 0;
        while j < ts.len()
            invariant
                j <= ts@.len(),
                seen == all_trait_names(authors@.take(i as int)) + ts@.take(j as int).map_values(|t: Trait| t.name@),
                names@.map_values(|c: Vec<char>| c@) == distinct(seen),
            decreases ts@.len() - j,
        {
            let n = chars_of(ts[j].name.as_str());
            let ghost cv = names@.map_values(|c: Vec<char>| c@);
            proof {
                assert(ts@.take(j as int + 1).map_values(|t: Trait| t.name@) =~= ts@.take(j as int).map_values(|t: Trait| t.name@).push(n@));
                seen = seen.push(n@);
                assert(seen.drop_last() =~= all_trait_names(authors@.take(i as int)) + ts@.take(j as int).map_values(|t: Trait| t.name@));
            }
            match position_of(&names, &n) {
                Some(k) => {
                    assert(cv[k as int] == n@);
                },
                None => {
                    assert(!cv.contains(n@)) by {
                        if cv.contains(n@) {
                            let l = choose|l: int| 0 <= l < cv.len() && cv[l] == n@;
                            assert(names@[l]@ == n@);
                        }
                    }
                    names.push(n);
                    assert(names@.map_values(|c: Vec<char>| c@) =~= cv.push(n@));
                },
            }
            j += 1;
        }
        proof {
            assert(ts@.take(j as int) =~= ts@);
            assert(authors@.take(i as int + 1).drop_last() =~= authors@.take(i as int));
            assert(authors@.take(i as int + 1).last() == authors@[i as int]);
        }
        i += 1;
    }
    proof {
        assert(authors@.take(i as int) =~= authors@);
    }
    let mut out: Vec<String> = Vec::new();
    let mut j: usize = 0;
    while j < names.len()
        invariant
            j <= names@.len(),
            out@.len() == j,
            forall|l: int| 0 <= l < j ==> #[trigger] out@[l]@ == names@[l]@,
        decreases names@.len() - j,
    {
        out.push(string_of(names[j].as_slice()));
        j += 1;
    }
    assert(out@.map_values(|n: String| n@) =~= names@.map_values(|c: Vec<char>| c@));
    out
}

/// Number of entries among the first `k` of `s` equal to `c`.
pub open spec fn count_eq(s: Seq<usize>, c: usize, k: int) -> nat
    decreases k,
{
    if k <= 0 {
        0
    } else {
        count_eq(s, c, k - 1) + (if s[k - 1] == c { 1nat } else { 0 })
    }
}

/// Number of counts among the first `k` that satisfy `p`.
pub open spec fn count_where(counts: Seq<u32>, k: int, p: spec_fn(u32) -> bool) -> nat
    decreases k,
{
    if k <= 0 {
        0
    } else {
        count_where(counts, k - 1, p) + (if p(counts[k - 1]) { 1nat } else { 0 })
    }
}

/// Largest entry of `s` (0 for an empty sequence).
pub open spec fn max_u32(s: Seq<u32>) -> u32
    decreases s.len(),
{
    if s.len() == 0 {
        0
    } else {
        let m = max_u32(s.drop_last());
        if s.last() > m {
            s.last()
        } else {
            m
        }
    }
}

/// Class counts behind the baselines of an author-trait experiment.
pub struct AttrCounts {
    /// Authors per class.
    pub class_authors: Vec<u32>,
    /// Authors per class, counting only testable classes (at least two authors).
    pub tested_counts: Vec<u32>,
    /// Number of testable classes (at least 1).
    pub n_testable_classes: usize,
    /// Authors in testable classes.
    pub n_tested: u32,
    /// Authors in the largest testable class.
    pub max_tested: u32,
}

/// Count authors per class and the testable population (classes with at least two
/// authors): the majority baseline is `max_tested / max(n_tested, 1)` and blind
/// guessing `1 / n_testable_classes`.
pub fn attr_counts(author_class: &[usize], k: usize) -> (r: AttrCounts)
    requires
        k >= 1,
        author_class@.len() <= u32::MAX,
        forall|a: int| 0 <= a < author_class@.len() ==> #[trigger] author_class@[a] < k,
    ensures
        r.class_authors@.len() == k,
        r.tested_counts@.len() == k,
        forall|c: int| 0 <= c < k ==> #[trigger] r.class_authors@[c] == count_eq(author_class@, c as usize, author_class@.len() as int),
        forall|c: int| 0 <= c < k ==> #[trigger] r.tested_counts@[c] == (if r.class_authors@[c] >= 2 { r.class_authors@[c] } else { 0 }),
        r.n_testable_classes == (if count_where(r.class_authors@, k as int, |x: u32| x >= 2) == 0 { 1 } else {
            count_where(r.class_authors@, k as int, |x: u32| x >= 2)
        }),
        r.n_tested == sum_u32(r.tested_counts@),
        r.max_tested == max_u32(r.tested_counts@),
{
    let mut class_authors: Vec<u32> = Vec::new();
    let mut c: usize = 0;
    while c < k
        invariant
            c <= k,
            class_authors@.len() == c,
            forall|d: int| 0 <= d < c ==> #[trigger] class_authors@[d] == 0,
        decreases k - c,
    {
        class_authors.push(0);
        c += 1;
    }
    let n = author_class.len();
    let mut a: usize = 0;
    while a < n
        invariant
            a <= n == author_class@.len() <= u32::MAX,
            class_authors@.len() == k,
            forall|a: int| 0 <= a < author_class@.len() ==> #[trigger] author_class@[a] < k,
            forall|d: int| 0 <= d < k ==> #[trigger] class_authors@[d] == count_eq(author_class@, d as usize, a as int),
            forall|d: int| 0 <= d < k ==> #[trigger] class_authors@[d] <= a,
        decreases n - a,
    {
        let cl = author_class[a];
        let v = class_authors[cl];
        class_authors.set(cl, v + 1);
        a += 1;
    }
    proof {
        lemma_class_counts_total(author_class@, k as int, n as int);
        lemma_prefix_sum_counts(class_authors@, author_class@, k as int, n as int);
    }
    let mut tested_counts: Vec<u32> = Vec::new();
    let mut n_testable: usize = 0;
    let mut n_tested: u32 = 0;
    let mut max_tested: u32 = 0;
    let mut c: usize = 0;
    while c < k
        invariant
            c <= k,
            class_authors@.len() == k,
            tested_counts@.len() == c,
            forall|d: int| 0 <= d < k ==> #[trigger] class_authors@[d] <= n,
            n <= u32::MAX,
            forall|d: int| 0 <= d < c ==> #[trigger] tested_counts@[d] == (if class_authors@[d] >= 2 { class_authors@[d] } else { 0 }),
            n_testable == count_where(class_authors@, c as int, |x: u32| x >= 2),
            n_testable <= c,
            n_tested == sum_u32(tested_counts@),
            max_tested == max_u32(tested_counts@),
            n_tested <= prefix_sum(class_authors@, c as int),
            prefix_sum(class_authors@, k as int) == n,
        decreases k - c,
    {
        let v = class_authors[c];
        let t: u32 = if v >= 2 { v } else { 0 };
        proof {
            lemma_prefix_sum_mono(class_authors@, c as int + 1, k as int);
            assert(tested_counts@.push(t).drop_last() =~= tested_counts@);
            lemma_sum_u32_prefix(tested_counts@);
            lemma_sum_u32_prefix(tested_counts@.push(t));
            lemma_prefix_sum_ext(tested_counts@, tested_counts@.push(t), c as int);
        }
        tested_counts.push(t);
        if v >= 2 {
            n_testable += 1;
        }
        n_tested = n_tested + t;
        if t > max_tested {
            max_tested = t;
        }
        c += 1;
    }
    AttrCounts {
        class_authors,
        tested_counts,
        n_testable_classes: if n_testable == 0 { 1 } else { n_testable },
        n_tested,
        max_tested,
    }
}

/// Sum of the first `k` counts.
pub open spec fn prefix_sum(counts: Seq<u32>, k: int) -> int
    decreases k,
{
    if k <= 0 {
        0
    } else {
        prefix_sum(counts, k - 1) + counts[k - 1]
    }
}

/// Σ_{c < kc} (number of the first `len` entries of `s` equal to `c`).
pub open spec fn class_count_sum(s: Seq<usize>, kc: int, len: int) -> int
    decreases kc,
{
    if kc <= 0 {
        0
    } else {
        class_count_sum(s, kc - 1, len) + count_eq(s, (kc - 1) as usize, len)
    }
}

proof fn lemma_one_class(s: Seq<usize>, kc: int, len: int)
    requires
        0 <= len < s.len(),
        0 <= kc <= usize::MAX as int + 1,
    ensures
        class_count_sum(s, kc, len + 1) == class_count_sum(s, kc, len) + (if s[len] < kc { 1int } else { 0 }),
    decreases kc,
{
    if kc > 0 {
        lemma_one_class(s, kc - 1, len);
        let c = (kc - 1) as usize;
        assert(c as int == kc - 1);
        assert(count_eq(s, c, len + 1) == count_eq(s, c, len) + (if s[len] == c { 1nat } else { 0 }));
    }
}

/// When every class id is below `kc`, the per-class counts add up to the number of items.
proof fn lemma_class_counts_total(s: Seq<usize>, kc: int, len: int)
    requires
        0 <= len <= s.len(),
        0 <= kc <= usize::MAX as int + 1,
        forall|a: int| 0 <= a < len ==> #[trigger] s[a] < kc,
    ensures
        class_count_sum(s, kc, len) == len,
    decreases len,
{
    if len > 0 {
        lemma_class_counts_total(s, kc, len - 1);
        lemma_one_class(s, kc, len - 1);
    } else {
        lemma_class_count_zero(s, kc);
    }
}

proof fn lemma_class_count_zero(s: Seq<usize>, kc: int)
    requires
        0 <= kc,
    ensures
        class_count_sum(s, kc, 0) == 0,
    decreases kc,
{
    if kc > 0 {
        lemma_class_count_zero(s, kc - 1);
    }
}

proof fn lemma_prefix_sum_counts(counts: Seq<u32>, s: Seq<usize>, c: int, len: int)
    requires
        0 <= c <= counts.len(),
        forall|d: int| 0 <= d < counts.len() ==> #[trigger] counts[d] == count_eq(s, d as usize, len),
    ensures
        prefix_sum(counts, c) == class_count_sum(s, c, len),
    decreases c,
{
    if c > 0 {
        lemma_prefix_sum_counts(counts, s, c - 1, len);
    }
}

proof fn lemma_prefix_sum_mono(counts: Seq<u32>, c: int, k: int)
    requires
        0 <= c <= k <= counts.len(),
    ensures
        prefix_sum(counts, c) <= prefix_sum(counts, k),
    decreases k - c,
{
    if c < k {
        lemma_prefix_sum_mono(counts, c, k - 1);
    }
}

proof fn lemma_sum_u32_prefix(s: Seq<u32>)
    ensures
        sum_u32(s) == prefix_sum(s, s.len() as int),
    decreases s.len(),
{
    if s.len() > 0 {
        lemma_sum_u32_prefix(s.drop_last());
        lemma_prefix_sum_ext(s.drop_last(), s, s.len() - 1);
    }
}

proof fn lemma_prefix_sum_ext(a: Seq<u32>, b: Seq<u32>, k: int)
    requires
        0 <= k <= a.len(),
        k <= b.len(),
        forall|j: int| 0 <= j < k ==> a[j] == b[j],
    ensures
        prefix_sum(a, k) == prefix_sum(b, k),
    decreases k,
{
    if k > 0 {
        lemma_prefix_sum_ext(a, b, k - 1);
    }
}


/// A per-passage attribute recovered from code style.
#[derive(PartialEq, Eq, Structural, Clone, Copy)]
pub enum PassageAttr {
    /// When was it written? (era of the authored time)
    Era,
    /// Weekend or weekday?
    Weekend,
}

/// The class of a passage for `attr`: none for a held-out passage or an unknown time.
pub open spec fn passage_class(p: Passage, attr: PassageAttr) -> Option<usize> {
    if p.is_mystery {
        None
    } else {
        match attr {
            PassageAttr::Era => era_bucket_spec(p.authored as int),
            PassageAttr::Weekend => weekend_bucket_spec(p.authored as int),
        }
    }
}

/// The class of every passage for `attr`.
pub fn passage_classes(passages: &[Passage], attr: PassageAttr) -> (r: Vec<Option<usize>>)
    ensures
        r@ == passages@.map_values(|p: Passage| passage_class(p, attr)),
        forall|i: int| 0 <= i < r@.len() ==> (#[trigger] r@[i] matches Some(c) ==> c < passage_attr_labels(attr).len()),
{
    let mut r: Vec<Option<usize>> = Vec::new();
    let mut i: usize = 0;
    while i < passages.len()
        invariant
            i <= passages@.len(),
            r@ == passages@.take(i as int).map_values(|p: Passage| passage_class(p, attr)),
            forall|j: int| 0 <= j < r@.len() ==> (#[trigger] r@[j] matches Some(c) ==> c < passage_attr_labels(attr).len()),
        decreases passages@.len() - i,
    {
        let p = &passages[i];
        let c = if p.is_mystery {
            None
        } else {
            match attr {
                PassageAttr::Era => era_bucket(p.authored),
                PassageAttr::Weekend => weekend_bucket(p.authored),
            }
        };
        r.push(c);
        proof {
            assert(passages@.take(i as int + 1).map_values(|p: Passage| passage_class(p, attr)) =~= passages@.take(
                i as int,
            ).map_values(|p: Passage| passage_class(p, attr)).push(passage_class(passages@[i as int], attr)));
        }
        i += 1;
    }
    proof {
        assert(passages@.take(i as int) =~= passages@);
    }
    r
}

/// Number of the first `len` entries of `s` equal to `Some(c)`.
pub open spec fn count_some(s: Seq<Option<usize>>, c: usize, len: int) -> nat
    decreases len,
{
    if len <= 0 {
        0
    } else {
        count_some(s, c, len - 1) + (if s[len - 1] == Some(c) { 1nat } else { 0 })
    }
}

/// Σ_{c < kc} count_some(s, c, len).
pub open spec fn some_count_sum(s: Seq<Option<usize>>, kc: int, len: int) -> int
    decreases kc,
{
    if kc <= 0 {
        0
    } else {
        some_count_sum(s, kc - 1, len) + count_some(s, (kc - 1) as usize, len)
    }
}

proof fn lemma_some_one(s: Seq<Option<usize>>, kc: int, len: int)
    requires
        0 <= len < s.len(),
        0 <= kc <= usize::MAX as int + 1,
    ensures
        some_count_sum(s, kc, len + 1) == some_count_sum(s, kc, len) + (if s[len] matches Some(c) && c < kc { 1int } else { 0 }),
    decreases kc,
{
    if kc > 0 {
        lemma_some_one(s, kc - 1, len);
        let c = (kc - 1) as usize;
        assert(c as int == kc - 1);
    }
}

proof fn lemma_some_zero(s: Seq<Option<usize>>, kc: int)
    requires
        0 <= kc,
    ensures
        some_count_sum(s, kc, 0) == 0,
    decreases kc,
{
    if kc > 0 {
        lemma_some_zero(s, kc - 1);
    }
}

proof fn lemma_some_total(s: Seq<Option<usize>>, kc: int, len: int)
    requires
        0 <= len <= s.len(),
        0 <= kc <= usize::MAX as int + 1,
    ensures
        some_count_sum(s, kc, len) <= len,
    decreases len,
{
    if len > 0 {
        lemma_some_total(s, kc, len - 1);
        lemma_some_one(s, kc, len - 1);
    } else {
        lemma_some_zero(s, kc);
    }
}

proof fn lemma_prefix_sum_some(counts: Seq<u32>, s: Seq<Option<usize>>, c: int, len: int)
    requires
        0 <= c <= counts.len(),
        forall|d: int| 0 <= d < counts.len() ==> #[trigger] counts[d] == count_some(s, d as usize, len),
    ensures
        prefix_sum(counts, c) == some_count_sum(s, c, len),
    decreases c,
{
    if c > 0 {
        lemma_prefix_sum_some(counts, s, c - 1, len);
    }
}

/// Class counts of a per-passage attribute.
pub struct PassageCounts {
    /// Classified passages per class.
    pub class_counts: Vec<u32>,
    /// Classified passages.
    pub total: u32,
    /// Passages in the largest class.
    pub max_count: u32,
    /// Number of non-empty classes (at least 1).
    pub n_present: usize,
}

/// Count the classified passages per class: the majority baseline is
/// `max_count / max(total, 1)` and blind guessing `1 / n_present`.
pub fn passage_counts(pclass: &[Option<usize>], k: usize) -> (r: PassageCounts)
    requires
        pclass@.len() <= u32::MAX,
        forall|i: int| 0 <= i < pclass@.len() ==> (#[trigger] pclass@[i] matches Some(c) ==> c < k),
    ensures
        r.class_counts@.len() == k,
        forall|c: int| 0 <= c < k ==> #[trigger] r.class_counts@[c] == count_some(pclass@, c as usize, pclass@.len() as int),
        r.total == sum_u32(r.class_counts@),
        r.max_count == max_u32(r.class_counts@),
        r.n_present == (if count_where(r.class_counts@, k as int, |x: u32| x > 0) == 0 { 1 } else {
            count_where(r.class_counts@, k as int, |x: u32| x > 0)
        }),
{
    let mut counts: Vec<u32> = Vec::new();
    let mut c: usize = 0;
    while c < k
        invariant
            c <= k,
            counts@.len() == c,
            forall|d: int| 0 <= d < c ==> #[trigger] counts@[d] == 0,
        decreases k - c,
    {
        counts.push(0);
        c += 1;
    }
    let n = pclass.len();
    let mut i: usize = 0;
    while i < n
        invariant
            i <= n == pclass@.len() <= u32::MAX,
            counts@.len() == k,
            forall|i: int| 0 <= i < pclass@.len() ==> (#[trigger] pclass@[i] matches Some(c) ==> c < k),
            forall|d: int| 0 <= d < k ==> #[trigger] counts@[d] == count_some(pclass@, d as usize, i as int),
            forall|d: int| 0 <= d < k ==> #[trigger] counts@[d] <= i,
        decreases n - i,
    {
        if let Some(cl) = pclass[i] {
            let v = counts[cl];
            counts.set(cl, v + 1);
        }
        i += 1;
    }
    proof {
        lemma_some_total(pclass@, k as int, n as int);
        lemma_prefix_sum_some(counts@, pclass@, k as int, n as int);
    }
    let mut total: u32 = 0;
    let mut max_count: u32 = 0;
    let mut present: usize = 0;
    let mut c: usize = 0;
    while c < k
        invariant
            c <= k,
            counts@.len() == k,
            n <= u32::MAX,
            prefix_sum(counts@, k as int) <= n,
            total == prefix_sum(counts@, c as int),
            max_count == max_u32(counts@.take(c as int)),
            present == count_where(counts@, c as int, |x: u32| x > 0),
            present <= c,
        decreases k - c,
    {
        let v = counts[c];
        proof {
            lemma_prefix_sum_mono(counts@, c as int + 1, k as int);
            assert(counts@.take(c as int + 1).drop_last() =~= counts@.take(c as int));
        }
        total = total + v;
        if v > max_count {
            max_count = v;
        }
        if v > 0 {
            present += 1;
        }
        c += 1;
    }
    proof {
        lemma_sum_u32_prefix(counts@);
        assert(counts@.take(k as int) =~= counts@);
    }
    PassageCounts {
        class_counts: counts,
        total,
        max_count,
        n_present: if present == 0 { 1 } else { present },
    }
}

/// The six-color palette of the trait panels, cycled over `k` classes.
pub open spec fn palette() -> Seq<Seq<char>> {
    seq!["#e6194b"@, "#4363d8"@, "#3cb44b"@, "#f58231"@, "#911eb4"@, "#008080"@]
}

/// Colors for `k` classes: the palette, cycled.
pub fn class_colors(k: usize) -> (colors: Vec<String>)
    ensures
        colors@.len() == k,
        forall|i: int| 0 <= i < k ==> #[trigger] colors@[i]@ == palette()[i % 6],
{
    let mut colors: Vec<String> = Vec::new();
    let mut i: usize = 0;
    while i < k
        invariant
            i <= k,
            colors@.len() == i,
            forall|j: int| 0 <= j < i ==> #[trigger] colors@[j]@ == palette()[j % 6],
        decreases k - i,
    {
        let c = match i % 6 {
            0 => "#e6194b",
            1 => "#4363d8",
            2 => "#3cb44b",
            3 => "#f58231",
            4 => "#911eb4",
            _ => "#008080",
        };
        colors.push(c.to_string());
        i += 1;
    }
    colors
}

/// Class labels of a per-passage attribute.
pub open spec fn passage_attr_labels(attr: PassageAttr) -> Seq<Seq<char>> {
    match attr {
        PassageAttr::Era => seq!["≤ 2009"@, "2010–2015"@, "2016–2020"@, "2021+"@],
        PassageAttr::Weekend => seq!["Weekday"@, "Weekend"@],
    }
}

/// Class labels of a per-passage attribute.
pub fn passage_attr_class_labels(attr: PassageAttr) -> (labels: Vec<String>)
    ensures
        labels@.map_values(|l: String| l@) == passage_attr_labels(attr),
{
    let mut labels: Vec<String> = Vec::new();
    match attr {
        PassageAttr::Era => {
            labels.push("≤ 2009".to_string());
            labels.push("2010–2015".to_string());
            labels.push("2016–2020".to_string());
            labels.push("2021+".to_string());
        },
        PassageAttr::Weekend => {
            labels.push("Weekday".to_string());
            labels.push("Weekend".to_string());
        },
    }
    assert(labels@.map_values(|l: String| l@) =~= passage_attr_labels(attr));
    labels
}

} // verus!
