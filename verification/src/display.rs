//! Short display strings: passage snippets, surnames, and readable BPE tokens.

use vstd::prelude::*;

use crate::text::{chars_of, split_words, string_of, words};

verus! {

/// `s` with every newline replaced by a space.
pub open spec fn newlines_to_spaces(s: Seq<char>) -> Seq<char> {
    s.map_values(|c: char| if c == '\n' { ' ' } else { c })
}

/// The first `n` characters of `s` on one line, with `…` appended when `s` was longer.
pub open spec fn snippet_spec(s: Seq<char>, n: nat) -> Seq<char> {
    let t = newlines_to_spaces(if s.len() > n { s.take(n as int) } else { s });
    if s.len() > n {
        t.push('…')
    } else {
        t
    }
}

/// The first `n` characters of `s` on one line, with an ellipsis when truncated.
pub fn snippet(s: &str, n: usize) -> (r: String)
    ensures
        r@ == snippet_spec(s@, n as nat),
{
    let cs = chars_of(s);
    let mut t: Vec<char> = Vec::new();
    let mut i: usize = 0;
    while i < cs.len() && i < n
        invariant
            i <= cs@.len(),
            i <= n,
            cs@ == s@,
            t@ == newlines_to_spaces(cs@.take(i as int)),
        decreases cs@.len() - i,
    {
        let c = cs[i];
        t.push(if c == '\n' { ' ' } else { c });
        proof {
            assert(cs@.take(i as int + 1) =~= cs@.take(i as int).push(c));
            assert(t@ =~= newlines_to_spaces(cs@.take(i as int + 1)));
        }
        i += 1;
    }
    proof {
        if cs@.len() <= n {
            assert(cs@.take(i as int) =~= cs@);
        }
    }
    if cs.len() > n {
        t.push('…');
    }
    string_of(&t)
}

/// The last whitespace-separated word of `name` (all of `name` when it has none).
pub open spec fn short_spec(name: Seq<char>) -> Seq<char> {
    if words(name).len() > 0 {
        words(name).last()
    } else {
        name
    }
}

/// Surname-ish short form of a name: its last word.
pub fn short(name: &str) -> (r: String)
    ensures
        r@ == short_spec(name@),
{
    let ws = split_words(&chars_of(name));
    if ws.len() > 0 {
        proof {
            assert(ws@.map_values(|w: Vec<char>| w@).last() == ws@.last()@);
        }
        string_of(ws[ws.len() - 1].as_slice())
    } else {
        string_of(&chars_of(name))
    }
}

/// GPT-2 byte-level BPE rendering: `Ġ` (a leading space) shown as `␠`, `Ċ` (a newline)
/// shown as the two characters `\n`.
pub open spec fn clean_char(c: char) -> Seq<char> {
    if c == '\u{0120}' {
        seq!['\u{2420}']
    } else if c == '\u{010A}' {
        seq!['\\', 'n']
    } else {
        seq![c]
    }
}

/// `s` with every character rendered by `clean_char`.
pub open spec fn clean_spec(s: Seq<char>) -> Seq<char>
    decreases s.len(),
{
    if s.len() == 0 {
        Seq::empty()
    } else {
        clean_spec(s.drop_last()) + clean_char(s.last())
    }
}

/// Render a GPT-2 BPE token readably.
pub fn clean(s: String) -> (r: String)
    ensures
        r@ == clean_spec(s@),
{
    let cs = chars_of(s.as_str());
    let mut out: Vec<char> = Vec::new();
    let mut i: usize = 0;
    while i < cs.len()
        invariant
            i <= cs@.len(),
            cs@ == s@,
            out@ == clean_spec(cs@.take(i as int)),
        decreases cs@.len() - i,
    {
        let c = cs[i];
        proof {
            assert(cs@.take(i as int + 1).drop_last() =~= cs@.take(i as int));
        }
        if c == '\u{0120}' {
            out.push('\u{2420}');
        } else if c == '\u{010A}' {
            out.push('\\');
            out.push('n');
        } else {
            out.push(c);
        }
        proof {
            assert(out@ =~= clean_spec(cs@.take(i as int + 1)));
        }
        i += 1;
    }
    proof {
        assert(cs@.take(i as int) =~= cs@);
    }
    string_of(&out)
}

} // verus!
