//! Display helpers of the web views.

use vstd::prelude::*;

use crate::text::{chars_of, string_of};

verus! {

/// The first `n` characters of `s`, with `…` appended when `s` was longer (line breaks
/// kept as they are).
pub open spec fn plain_snippet_spec(s: Seq<char>, n: nat) -> Seq<char> {
    if s.len() > n {
        s.take(n as int).push('…')
    } else {
        s
    }
}

/// The first `n` characters of `s`, with an ellipsis when truncated.
pub fn snippet(s: &str, n: usize) -> (r: String)
    ensures
        r@ == plain_snippet_spec(s@, n as nat),
{
    let cs = chars_of(s);
    if cs.len() > n {
        let mut t = crate::text::slice_chars(&cs, 0, n);
        t.push('…');
        string_of(&t)
    } else {
        string_of(&cs)
    }
}

} // verus!
