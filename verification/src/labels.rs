//! Display strings for the five rungs of the familiarity ladder, per dataset.

use vstd::prelude::*;

verus! {

/// Display strings for the five familiarity rungs, bottom → top; each is
/// (label, sublabel).
pub struct LadderLabels {
    pub blind: (&'static str, &'static str),
    pub author_out: (&'static str, &'static str),
    pub series_out: (&'static str, &'static str),
    pub book_out: (&'static str, &'static str),
    pub seen: (&'static str, &'static str),
}

/// The ladder as (label, sublabel) strings, bottom → top.
pub open spec fn ladder_view(l: LadderLabels) -> Seq<(Seq<char>, Seq<char>)> {
    seq![
        (l.blind.0@, l.blind.1@),
        (l.author_out.0@, l.author_out.1@),
        (l.series_out.0@, l.series_out.1@),
        (l.book_out.0@, l.book_out.1@),
        (l.seen.0@, l.seen.1@),
    ]
}

/// The prose ladder: hold out books / series / the author.
pub open spec fn prose_ladder() -> Seq<(Seq<char>, Seq<char>)> {
    seq![
        ("Blind guessing"@, "no information"@),
        ("Never read the author"@, "held out every work by them"@),
        ("Never read this series"@, "has read the author's other work"@),
        ("Never read this book"@, "has read the rest of the series"@),
        ("Has read the book"@, "has seen other passages from it"@),
    ]
}

/// The code ladder: coder → repo → file.
pub open spec fn code_ladder() -> Seq<(Seq<char>, Seq<char>)> {
    seq![
        ("Blind guessing"@, "no information"@),
        ("Never seen this coder"@, "held out every line they authored"@),
        ("Never seen this repo"@, "has read their code in other repos"@),
        ("Never seen this file"@, "has read the coder's other files in this repo"@),
        ("Read this file"@, "has seen other lines from the same file"@),
    ]
}

impl LadderLabels {
    /// The prose labels: hold out books / series / the author.
    pub fn prose() -> (l: Self)
        ensures
            ladder_view(l) == prose_ladder(),
    {
        LadderLabels {
            blind: ("Blind guessing", "no information"),
            author_out: ("Never read the author", "held out every work by them"),
            series_out: ("Never read this series", "has read the author's other work"),
            book_out: ("Never read this book", "has read the rest of the series"),
            seen: ("Has read the book", "has seen other passages from it"),
        }
    }
}

/// The code dataset's ladder labels (coder → repo → file).
pub fn code_ladder_labels() -> (l: LadderLabels)
    ensures
        ladder_view(l) == code_ladder(),
{
    LadderLabels {
        blind: ("Blind guessing", "no information"),
        author_out: ("Never seen this coder", "held out every line they authored"),
        series_out: ("Never seen this repo", "has read their code in other repos"),
        book_out: ("Never seen this file", "has read the coder's other files in this repo"),
        seen: ("Read this file", "has seen other lines from the same file"),
    }
}

} // verus!
