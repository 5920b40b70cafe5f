//! Assembling a dataset: the authors and passages of the prose corpus and of the coders
//! corpus, from what was collected per author.

use vstd::prelude::*;

use crate::codefilter::{pushed_trait, push_trait};
use crate::identity::DevCfg;
use crate::model::{AuthorMeta, Passage, Trait};

verus! {

broadcast use vstd::string::group_string_axioms;

/// Passages kept per author (prose) or coder.
pub const MAX_PER_AUTHOR: usize = 130;

/// Held-out passages per author or coder.
pub const MYSTERY_PER_AUTHOR: usize = 4;

/// One kept code passage of a coder.
#[derive(Clone)]
pub struct Collected {
    pub book_title: String,
    pub series: String,
    pub text: String,
    pub authored: i64,
}

/// The coders that have at least one kept passage, in roster order.
pub fn kept_devs(per_dev: &Vec<Vec<Collected>>) -> (r: Vec<usize>)
    ensures
        forall|a: int, b: int| 0 <= a < b < r@.len() ==> #[trigger] r@[a] < #[trigger] r@[b],
        forall|i: int| 0 <= i < per_dev@.len() ==> (#[trigger] r@.contains(i as usize) <==> per_dev@[i]@.len() > 0),
        forall|a: int| 0 <= a < r@.len() ==> #[trigger] r@[a] < per_dev@.len(),
{
    let mut r: Vec<usize> = Vec::new();
    let mut i: usize = 0;
    while i < per_dev.len()
        invariant
            i <= per_dev@.len(),
            forall|a: int, b: int| 0 <= a < b < r@.len() ==> #[trigger] r@[a] < #[trigger] r@[b],
            forall|a: int| 0 <= a < r@.len() ==> #[trigger] r@[a] < i,
            forall|j: int| 0 <= j < i ==> (#[trigger] r@.contains(j as usize) <==> per_dev@[j]@.len() > 0),
        decreases per_dev@.len() - i,
    {
        let ghost before = r@;
        if per_dev[i].len() > 0 {
            r.push(i);
        }
        proof {
            assert forall|j: int| 0 <= j < i + 1 implies (#[trigger] r@.contains(j as usize) <==> per_dev@[j]@.len() > 0) by {
                if j < i {
                    if r@.contains(j as usize) && !before.contains(j as usize) {
                        let k = choose|k: int| 0 <= k < r@.len() && r@[k] == j as usize;
                        assert(k == before.len());
                    }
                    if before.contains(j as usize) {
                        let k = choose|k: int| 0 <= k < before.len() && before[k] == j as usize;
                        assert(r@[k] == j as usize);
                    }
                } else {
                    if per_dev@[j]@.len() > 0 {
                        assert(r@[r@.len() - 1] == i);
                    } else {
                        if r@.contains(j as usize) {
                            let k = choose|k: int| 0 <= k < r@.len() && r@[k] == j as usize;
                            assert(before[k] < i);
                        }
                    }
                }
            }
        }
        i += 1;
    }
    r
}

/// The author record of a coder: its dense id, name, color, and the paradigm trait.
pub fn coder_author(id: usize, d: &DevCfg, color: String) -> (a: AuthorMeta)
    ensures
        a.id == id,
        a.name@ == d.name@,
        a.color@ == color@,
        a.gender@.len() == 0,
        a.birth_country@.len() == 0,
        a.raised@.len() == 0,
        a.educated@.len() == 0,
        a.college@.len() == 0,
        a.traits@.map_values(|t: Trait| (t.name@, t.value@)) == pushed_trait(
            Seq::empty(),
            "Systems or scripting?"@,
            d.traits.paradigm@,
        ),
{
    let mut traits: Vec<Trait> = Vec::new();
    push_trait(&mut traits, "Systems or scripting?", d.traits.paradigm.as_str());
    AuthorMeta {
        id,
        name: d.name.clone(),
        color,
        gender: String::new(),
        birth_country: String::new(),
        raised: String::new(),
        educated: String::new(),
        college: String::new(),
        traits,
    }
}

/// A passage record of author `author_id`.
pub open spec fn passage_of(author_id: usize, title: Seq<char>, series: Seq<char>, text: Seq<char>, authored: i64) -> (usize, Seq<char>, Seq<char>, Seq<char>, bool, i64) {
    (author_id, title, series, text, false, authored)
}

/// The view of a passage record.
pub open spec fn passage_view(p: Passage) -> (usize, Seq<char>, Seq<char>, Seq<char>, bool, i64) {
    (p.author_id, p.book_title@, p.series@, p.text@, p.is_mystery, p.authored)
}

/// The passages (not held out) and embedding texts of one coder's kept items.
pub fn coder_passages(author_id: usize, items: Vec<Collected>) -> (r: (Vec<Passage>, Vec<String>))
    ensures
        r.0@.len() == items@.len(),
        r.1@.len() == items@.len(),
        forall|i: int| 0 <= i < items@.len() ==> passage_view(#[trigger] r.0@[i]) == passage_of(
            author_id,
            items@[i].book_title@,
            items@[i].series@,
            items@[i].text@,
            items@[i].authored,
        ) && r.1@[i]@ == items@[i].text@,
{
    let mut ps: Vec<Passage> = Vec::new();
    let mut texts: Vec<String> = Vec::new();
    let mut i: usize = 0;
    while i < items.len()
        invariant
            i <= items@.len(),
            ps@.len() == i,
            texts@.len() == i,
            forall|j: int| 0 <= j < i ==> passage_view(#[trigger] ps@[j]) == passage_of(
                author_id,
                items@[j].book_title@,
                items@[j].series@,
                items@[j].text@,
                items@[j].authored,
            ) && texts@[j]@ == items@[j].text@,
        decreases items@.len() - i,
    {
        let it = &items[i];
        texts.push(it.text.clone());
        ps.push(
            Passage {
                author_id,
                book_title: it.book_title.clone(),
                series: it.series.clone(),
                text: it.text.clone(),
                is_mystery: false,
                authored: it.authored,
            },
        );
        i += 1;
    }
    (ps, texts)
}

/// The passages (not held out, no authored time) and embedding texts of one prose
/// author's sampled (title, series, text) chunks.
pub fn prose_passages(author_id: usize, sampled: Vec<(String, String, String)>) -> (r: (Vec<Passage>, Vec<String>))
    ensures
        r.0@.len() == sampled@.len(),
        r.1@.len() == sampled@.len(),
        forall|i: int| 0 <= i < sampled@.len() ==> passage_view(#[trigger] r.0@[i]) == passage_of(
            author_id,
            sampled@[i].0@,
            sampled@[i].1@,
            sampled@[i].2@,
            0,
        ) && r.1@[i]@ == sampled@[i].2@,
{
    let mut ps: Vec<Passage> = Vec::new();
    let mut texts: Vec<String> = Vec::new();
    let mut i: usize = 0;
    while i < sampled.len()
        invariant
            i <= sampled@.len(),
            ps@.len() == i,
            texts@.len() == i,
            forall|j: int| 0 <= j < i ==> passage_view(#[trigger] ps@[j]) == passage_of(
                author_id,
                sampled@[j].0@,
                sampled@[j].1@,
                sampled@[j].2@,
                0,
            ) && texts@[j]@ == sampled@[j].2@,
        decreases sampled@.len() - i,
    {
        let it = &sampled[i];
        texts.push(it.2.clone());
        ps.push(
            Passage {
                author_id,
                book_title: it.0.clone(),
                series: it.1.clone(),
                text: it.2.clone(),
                is_mystery: false,
                authored: 0,
            },
        );
        i += 1;
    }
    (ps, texts)
}

} // verus!
