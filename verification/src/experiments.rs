//! Which trait-recovery experiments a dataset gets: per-passage time dimensions when the
//! passages carry authored times, then the per-author traits of the roster (or the
//! fixed biographical fields when no author has traits).

use vstd::prelude::*;

use crate::attributes::{all_trait_names, distinct, trait_names, AttrField, PassageAttr};
use crate::model::{AuthorMeta, Passage};

verus! {

broadcast use vstd::string::group_string_axioms;

/// One trait-recovery experiment.
pub enum Experiment {
    /// A per-passage attribute.
    Passage(PassageAttr),
    /// A per-author trait.
    Author(AttrField),
}

/// What an experiment reads.
pub enum ExperimentKind {
    Era,
    Weekend,
    Gender,
    BirthCountry,
    Raised,
    Educated,
    College,
    Trait(Seq<char>),
}

/// The kind of an experiment.
pub open spec fn kind_of(e: Experiment) -> ExperimentKind {
    match e {
        Experiment::Passage(PassageAttr::Era) => ExperimentKind::Era,
        Experiment::Passage(PassageAttr::Weekend) => ExperimentKind::Weekend,
        Experiment::Author(AttrField::Gender) => ExperimentKind::Gender,
        Experiment::Author(AttrField::BirthCountry) => ExperimentKind::BirthCountry,
        Experiment::Author(AttrField::Raised) => ExperimentKind::Raised,
        Experiment::Author(AttrField::Educated) => ExperimentKind::Educated,
        Experiment::Author(AttrField::College) => ExperimentKind::College,
        Experiment::Author(AttrField::Trait(n)) => ExperimentKind::Trait(n@),
    }
}

/// The experiments of a dataset, with their titles: era and weekend when some passage
/// has an authored time; then one experiment per distinct trait name (in order of first
/// appearance) when some author has traits, else gender, birth country, upbringing,
/// education and college.
pub open spec fn experiments_spec(authors: Seq<AuthorMeta>, passages: Seq<Passage>) -> Seq<(Seq<char>, ExperimentKind)> {
    let time = if exists|i: int| 0 <= i < passages.len() && #[trigger] passages[i].authored > 0 {
        seq![("When was it written?"@, ExperimentKind::Era), ("Weekend or weekday?"@, ExperimentKind::Weekend)]
    } else {
        Seq::empty()
    };
    let per_author = if exists|i: int| 0 <= i < authors.len() && #[trigger] authors[i].traits@.len() > 0 {
        distinct(all_trait_names(authors)).map_values(|n: Seq<char>| (n, ExperimentKind::Trait(n)))
    } else {
        seq![
            ("Gender"@, ExperimentKind::Gender),
            ("Birth country"@, ExperimentKind::BirthCountry),
            ("Where they were raised"@, ExperimentKind::Raised),
            ("Where they were educated"@, ExperimentKind::Educated),
            ("College"@, ExperimentKind::College),
        ]
    };
    time + per_author
}

/// The view of a list of titled experiments.
pub open spec fn experiments_view(v: Seq<(String, Experiment)>) -> Seq<(Seq<char>, ExperimentKind)> {
    v.map_values(|x: (String, Experiment)| (x.0@, kind_of(x.1)))
}

fn push_exp(v: &mut Vec<(String, Experiment)>, title: &str, e: Experiment)
    ensures
        experiments_view(final(v)@) == experiments_view(old(v)@).push((title@, kind_of(e))),
{
    let ghost before = v@;
    let ghost k = kind_of(e);
    v.push((title.to_string(), e));
    proof {
        assert(experiments_view(v@) =~= experiments_view(before).push((title@, k)));
    }
}

/// The trait-recovery experiments of a dataset, titled.
pub fn attribute_experiments(authors: &[AuthorMeta], passages: &[Passage]) -> (r: Vec<(String, Experiment)>)
    ensures
        experiments_view(r@) == experiments_spec(authors@, passages@),
{
    let mut r: Vec<(String, Experiment)> = Vec::new();
    let mut timed = false;
    let mut i: usize = 0;
    while i < passages.len()
        invariant
            i <= passages@.len(),
            timed <==> exists|j: int| 0 <= j < i && #[trigger] passages@[j].authored > 0,
        decreases passages@.len() - i,
    {
        if passages[i].authored > 0 {
            timed = true;
        }
        i += 1;
    }
    if timed {
        push_exp(&mut r, "When was it written?", Experiment::Passage(PassageAttr::Era));
        push_exp(&mut r, "Weekend or weekday?", Experiment::Passage(PassageAttr::Weekend));
    }
    let ghost time_part = experiments_view(r@);
    let mut has_traits = false;
    let mut a: usize = 0;
    while a < authors.len()
        invariant
            a <= authors@.len(),
            has_traits <==> exists|j: int| 0 <= j < a && #[trigger] authors@[j].traits@.len() > 0,
        decreases authors@.len() - a,
    {
        if authors[a].traits.len() > 0 {
            has_traits = true;
        }
        a += 1;
    }
    if has_traits {
        let names = trait_names(authors);
        let ghost nv = names@.map_values(|n: String| n@);
        let mut k: usize = 0;
        while k < names.len()
            invariant
                k <= names@.len(),
                nv == names@.map_values(|n: String| n@),
                experiments_view(r@) == time_part + nv.take(k as int).map_values(
                    |n: Seq<char>| (n, ExperimentKind::Trait(n)),
                ),
            decreases names@.len() - k,
        {
            push_exp(&mut r, names[k].as_str(), Experiment::Author(AttrField::Trait(names[k].clone())));
            proof {
                assert(nv.take(k as int + 1) =~= nv.take(k as int).push(nv[k as int]));
                assert(time_part + nv.take(k as int + 1).map_values(|n: Seq<char>| (n, ExperimentKind::Trait(n)))
                    =~= (time_part + nv.take(k as int).map_values(|n: Seq<char>| (n, ExperimentKind::Trait(n)))).push(
                    (nv[k as int], ExperimentKind::Trait(nv[k as int])),
                ));
            }
            k += 1;
        }
        proof {
            assert(nv.take(k as int) =~= nv);
        }
    } else {
        push_exp(&mut r, "Gender", Experiment::Author(AttrField::Gender));
        push_exp(&mut r, "Birth country", Experiment::Author(AttrField::BirthCountry));
        push_exp(&mut r, "Where they were raised", Experiment::Author(AttrField::Raised));
        push_exp(&mut r, "Where they were educated", Experiment::Author(AttrField::Educated));
        push_exp(&mut r, "College", Experiment::Author(AttrField::College));
    }
    proof {
        assert(experiments_view(r@) =~= experiments_spec(authors@, passages@));
    }
    r
}

} // verus!
