//! Project Gutenberg texts: mirror paths, byte decoding, and cutting prose into
//! passages on paragraph boundaries.

use vstd::prelude::*;

use crate::numparse::{decimal, decimal_chars};
use crate::text::{chars_of, join, join_chars, split_words, string_of, words};

verus! {

broadcast use vstd::string::group_string_axioms;

/// Words at which a prose passage is cut.
pub const PASSAGE_WORDS: usize = 200;

/// Words a prose passage needs to be kept.
pub const MIN_PASSAGE_WORDS: usize = 130;

/// The mirror directory of a digit string: one level per digit but the last, then the
/// whole string ("1342" gives "1/3/4/1342"); a single digit goes under "0/".
pub open spec fn mirror_path(s: Seq<char>) -> Seq<char> {
    if s.len() == 1 {
        seq!['0', '/'] + s
    } else {
        digit_levels(s.drop_last()) + s
    }
}

/// Each character followed by a slash.
pub open spec fn digit_levels(s: Seq<char>) -> Seq<char>
    decreases s.len(),
{
    if s.len() == 0 {
        Seq::empty()
    } else {
        digit_levels(s.drop_last()) + seq![s.last(), '/']
    }
}

/// Mirror directory for an ebook id, e.g. 1342 gives "1/3/4/1342" and 7 gives "0/7".
pub fn mirror_dir(id: u32) -> (r: String)
    ensures
        r@ == mirror_path(decimal(id as nat)),
{
    let s = decimal_chars(id as u64);
    let mut out: Vec<char> = Vec::new();
    if s.len() == 1 {
        out.push('0');
        out.push('/');
        crate::text::append_chars(&mut out, &s);
        proof {
            assert(out@ =~= seq!['0', '/'] + s@);
        }
        return string_of(&out);
    }
    assert(s@.len() >= 1) by {
        assert(decimal(id as nat).len() >= 1) by {
            reveal_with_fuel(decimal, 2);
        }
    }
    let last = s.len() - 1;
    let mut i: usize = 0;
    proof {
        assert(s@.take(0) =~= Seq::<char>::empty());
    }
    while i < last
        invariant
            last == s@.len() - 1,
            i <= last,
            out@ == digit_levels(s@.take(i as int)),
        decreases last - i,
    {
        out.push(s[i]);
        out.push('/');
        proof {
            assert(s@.take(i as int + 1).drop_last() =~= s@.take(i as int));
            assert(out@ =~= digit_levels(s@.take(i as int + 1)));
        }
        i += 1;
    }
    crate::text::append_chars(&mut out, &s);
    proof {
        assert(s@.take(i as int) =~= s@.drop_last());
    }
    string_of(&out)
}

/// Bytes read one per character (Latin-1).
pub open spec fn latin1(bytes: Seq<u8>) -> Seq<char> {
    bytes.map_values(|b: u8| b as char)
}

/// The text of a file's bytes: UTF-8 when they are valid UTF-8, else Latin-1 (older
/// `-8.txt` files).
pub open spec fn decode_spec(bytes: Seq<u8>) -> Seq<char> {
    if vstd::utf8::valid_utf8(bytes) {
        vstd::utf8::decode_utf8(bytes)
    } else {
        latin1(bytes)
    }
}

/// `String::from_utf8`: the string when `bytes` are valid UTF-8, else the bytes back.
#[verifier::external_body]
fn from_utf8(bytes: Vec<u8>) -> (r: Result<String, Vec<u8>>)
    ensures
        match r {
            Ok(s) => vstd::utf8::valid_utf8(bytes@) && s@ == vstd::utf8::decode_utf8(bytes@),
            Err(b) => !vstd::utf8::valid_utf8(bytes@) && b@ == bytes@,
        },
{
    match String::from_utf8(bytes) {
        Ok(s) => Ok(s),
        Err(e) => Err(e.into_bytes()),
    }
}

/// Decodes bytes as UTF-8, falling back to Latin-1.
pub fn decode(bytes: Vec<u8>) -> (r: String)
    ensures
        r@ == decode_spec(bytes@),
{
    let ghost b0 = bytes@;
    match from_utf8(bytes) {
        Ok(s) => s,
        Err(b) => {
            let mut out: Vec<char> = Vec::new();
            let mut i: usize = 0;
            while i < b.len()
                invariant
                    i <= b@.len(),
                    b@ == b0,
                    out@ == latin1(b0.take(i as int)),
                decreases b@.len() - i,
            {
                let c = b[i] as char;
                out.push(c);
                proof {
                    assert(latin1(b0.take(i as int + 1)) =~= latin1(b0.take(i as int)).push(b0[i as int] as char));
                }
                i += 1;
            }
            proof {
                assert(b0.take(i as int) =~= b0);
            }
            string_of(&out)
        },
    }
}

/// Line breaks made uniform: every `\r\n`, and every other `\r`, becomes `\n`.
pub open spec fn unify_newlines(s: Seq<char>) -> Seq<char>
    decreases s.len(),
{
    if s.len() == 0 {
        Seq::empty()
    } else if s[0] == '\r' {
        if s.len() > 1 && s[1] == '\n' {
            seq!['\n'] + unify_newlines(s.skip(2))
        } else {
            seq!['\n'] + unify_newlines(s.skip(1))
        }
    } else {
        seq![s[0]] + unify_newlines(s.skip(1))
    }
}

/// The pieces of `s` between blank-line separators (`\n\n`, matched left to right
/// without overlap), with the current piece `cur` and the finished pieces `acc`.
pub open spec fn paras_acc(s: Seq<char>, cur: Seq<char>, acc: Seq<Seq<char>>) -> Seq<Seq<char>>
    decreases s.len(),
{
    if s.len() == 0 {
        acc.push(cur)
    } else if s.len() >= 2 && s[0] == '\n' && s[1] == '\n' {
        paras_acc(s.skip(2), Seq::empty(), acc.push(cur))
    } else {
        paras_acc(s.skip(1), cur.push(s[0]), acc)
    }
}

/// `s` split at `\n\n` (what `str::split("\n\n")` yields).
pub open spec fn paragraphs(s: Seq<char>) -> Seq<Seq<char>> {
    paras_acc(s, Seq::empty(), Seq::empty())
}

/// A paragraph with its line breaks and runs of whitespace collapsed to single spaces.
pub open spec fn collapse(p: Seq<char>) -> Seq<char> {
    join(words(p), seq![' '])
}

/// The scan over paragraphs: (paragraphs of the open passage, its word count, finished
/// passages).
pub open spec fn chunk_fold(ps: Seq<Seq<char>>) -> (Seq<Seq<char>>, nat, Seq<Seq<char>>)
    decreases ps.len(),
{
    if ps.len() == 0 {
        (Seq::empty(), 0, Seq::empty())
    } else {
        let (b, w, o) = chunk_fold(ps.drop_last());
        let p = collapse(ps.last());
        if p.len() == 0 {
            (b, w, o)
        } else {
            let w1 = w + words(p).len();
            let b1 = b.push(p);
            if w1 >= PASSAGE_WORDS {
                (Seq::empty(), 0, o.push(join(b1, seq![' '])))
            } else {
                (b1, w1, o)
            }
        }
    }
}

/// The passages before the final length filter: a passage is closed as soon as it
/// reaches `PASSAGE_WORDS` words; a trailing one is kept when it has at least
/// `MIN_PASSAGE_WORDS`.
pub open spec fn chunk_candidates(text: Seq<char>) -> Seq<Seq<char>> {
    let (b, w, o) = chunk_fold(paragraphs(unify_newlines(text)));
    if w >= MIN_PASSAGE_WORDS {
        o.push(join(b, seq![' ']))
    } else {
        o
    }
}

/// The passages of at least `MIN_PASSAGE_WORDS` words among `ps`, in order.
pub open spec fn long_enough(ps: Seq<Seq<char>>) -> Seq<Seq<char>>
    decreases ps.len(),
{
    if ps.len() == 0 {
        Seq::empty()
    } else if words(ps.last()).len() >= MIN_PASSAGE_WORDS {
        long_enough(ps.drop_last()).push(ps.last())
    } else {
        long_enough(ps.drop_last())
    }
}

/// The prose passages of a text: paragraphs (blank-line separated, whitespace
/// collapsed, empty ones skipped) are gathered until a passage reaches
/// `PASSAGE_WORDS` words; paragraphs of a passage are joined by spaces.
pub open spec fn chunk_spec(text: Seq<char>) -> Seq<Seq<char>> {
    long_enough(chunk_candidates(text))
}

/// After unifying line breaks no carriage return is left.
pub proof fn law_unified_has_no_cr(s: Seq<char>)
    ensures
        forall|i: int| 0 <= i < unify_newlines(s).len() ==> #[trigger] unify_newlines(s)[i] != '\r',
    decreases s.len(),
{
    if s.len() > 0 {
        let rest = if s[0] == '\r' && s.len() > 1 && s[1] == '\n' {
            s.skip(2)
        } else {
            s.skip(1)
        };
        law_unified_has_no_cr(rest);
        let head = if s[0] == '\r' { '\n' } else { s[0] };
        assert(unify_newlines(s) == seq![head] + unify_newlines(rest));
        assert forall|i: int| 0 <= i < unify_newlines(s).len() implies #[trigger] unify_newlines(s)[i] != '\r' by {
            if i > 0 {
                assert(unify_newlines(s)[i] == unify_newlines(rest)[i - 1]);
            }
        }
    }
}

/// Text without carriage returns is left as it is.
pub proof fn law_unify_keeps_cr_free(s: Seq<char>)
    requires
        forall|i: int| 0 <= i < s.len() ==> #[trigger] s[i] != '\r',
    ensures
        unify_newlines(s) == s,
    decreases s.len(),
{
    if s.len() > 0 {
        assert(s[0] != '\r');
        law_unify_keeps_cr_free(s.skip(1));
        assert(seq![s[0]] + s.skip(1) =~= s);
    }
}

/// Unifying distributes over a cut that does not split a `\r\n`.
proof fn lemma_unify_concat(a: Seq<char>, b: Seq<char>)
    requires
        a.len() == 0 || a.last() != '\r',
    ensures
        unify_newlines(a + b) == unify_newlines(a) + unify_newlines(b),
    decreases a.len(),
{
    if a.len() == 0 {
        assert(a + b =~= b);
        assert(Seq::<char>::empty() + unify_newlines(b) =~= unify_newlines(b));
    } else {
        let ab = a + b;
        assert(ab[0] == a[0]);
        if a[0] == '\r' {
            assert(a.len() > 1);
            assert(ab[1] == a[1]);
            if a[1] == '\n' {
                assert(ab.skip(2) =~= a.skip(2) + b);
                if a.len() > 2 {
                    assert(a.skip(2).last() == a.last());
                }
                lemma_unify_concat(a.skip(2), b);
                assert(seq!['\n'] + (unify_newlines(a.skip(2)) + unify_newlines(b)) =~= (seq!['\n']
                    + unify_newlines(a.skip(2))) + unify_newlines(b));
            } else {
                assert(ab.skip(1) =~= a.skip(1) + b);
                assert(a.skip(1).last() == a.last());
                lemma_unify_concat(a.skip(1), b);
                assert(seq!['\n'] + (unify_newlines(a.skip(1)) + unify_newlines(b)) =~= (seq!['\n']
                    + unify_newlines(a.skip(1))) + unify_newlines(b));
            }
        } else {
            assert(ab.skip(1) =~= a.skip(1) + b);
            if a.len() > 1 {
                assert(a.skip(1).last() == a.last());
            }
            lemma_unify_concat(a.skip(1), b);
            assert(seq![a[0]] + (unify_newlines(a.skip(1)) + unify_newlines(b)) =~= (seq![a[0]]
                + unify_newlines(a.skip(1))) + unify_newlines(b));
        }
    }
}

/// Every `\r\n`, and every `\r` not followed by `\n`, becomes one `\n` (taken at the
/// first line break after `a`, which does not end inside a `\r\n`).
pub proof fn law_unify_line_breaks(a: Seq<char>, b: Seq<char>)
    requires
        a.len() == 0 || a.last() != '\r',
    ensures
        unify_newlines(a + seq!['\r', '\n'] + b) == unify_newlines(a) + seq!['\n'] + unify_newlines(b),
        (b.len() == 0 || b[0] != '\n') ==> unify_newlines(a + seq!['\r'] + b) == unify_newlines(a)
            + seq!['\n'] + unify_newlines(b),
        unify_newlines(a + seq!['\n'] + b) == unify_newlines(a) + seq!['\n'] + unify_newlines(b),
{
    let crlf = seq!['\r', '\n'] + b;
    assert(a + seq!['\r', '\n'] + b =~= a + crlf);
    lemma_unify_concat(a, crlf);
    assert(crlf.skip(2) =~= b);
    assert(unify_newlines(crlf) == seq!['\n'] + unify_newlines(b));
    assert(unify_newlines(a) + (seq!['\n'] + unify_newlines(b)) =~= unify_newlines(a) + seq!['\n']
        + unify_newlines(b));
    let cr = seq!['\r'] + b;
    assert(a + seq!['\r'] + b =~= a + cr);
    lemma_unify_concat(a, cr);
    assert(cr.skip(1) =~= b);
    if b.len() == 0 || b[0] != '\n' {
        if cr.len() > 1 {
            assert(cr[1] == b[0]);
        }
        assert(unify_newlines(cr) == seq!['\n'] + unify_newlines(b));
    }
    let lf = seq!['\n'] + b;
    assert(a + seq!['\n'] + b =~= a + lf);
    lemma_unify_concat(a, lf);
    assert(lf.skip(1) =~= b);
    assert(unify_newlines(lf) == seq!['\n'] + unify_newlines(b));
}

/// Prose passages do not depend on how line breaks are written: a `\r\n` cuts the
/// text exactly as a `\n` does.
pub proof fn law_chunk_crlf_as_lf(a: Seq<char>, b: Seq<char>)
    requires
        a.len() == 0 || a.last() != '\r',
    ensures
        chunk_spec(a + seq!['\r', '\n'] + b) == chunk_spec(a + seq!['\n'] + b),
{
    law_unify_line_breaks(a, b);
}

fn unify_newlines_exec(s: &[char]) -> (r: Vec<char>)
    ensures
        r@ == unify_newlines(s@),
{
    let mut r: Vec<char> = Vec::new();
    let mut i: usize = 0;
    proof {
        assert(s@.skip(0) =~= s@);
        assert(r@ + unify_newlines(s@) =~= unify_newlines(s@));
    }
    while i < s.len()
        invariant
            i <= s@.len(),
            unify_newlines(s@) == r@ + unify_newlines(s@.skip(i as int)),
        decreases s@.len() - i,
    {
        let ghost t = s@.skip(i as int);
        proof {
            assert(t[0] == s@[i as int]);
        }
        if s[i] == '\r' {
            r.push('\n');
            if i + 1 < s.len() && s[i + 1] == '\n' {
                proof {
                    assert(t[1] == s@[i as int + 1]);
                    assert(t.skip(2) =~= s@.skip(i as int + 2));
                }
                i += 2;
            } else {
                proof {
                    assert(t.skip(1) =~= s@.skip(i as int + 1));
                }
                i += 1;
            }
        } else {
            r.push(s[i]);
            proof {
                assert(t.skip(1) =~= s@.skip(i as int + 1));
            }
            i += 1;
        }
    }
    proof {
        assert(s@.skip(i as int) =~= Seq::<char>::empty());
        assert(r@ + Seq::<char>::empty() =~= r@);
    }
    r
}

fn paragraphs_exec(s: &[char]) -> (r: Vec<Vec<char>>)
    ensures
        r@.map_values(|w: Vec<char>| w@) == paragraphs(s@),
{
    let mut acc: Vec<Vec<char>> = Vec::new();
    let mut cur: Vec<char> = Vec::new();
    let mut i: usize = 0;
    proof {
        assert(s@.skip(0) =~= s@);
        assert(acc@.map_values(|w: Vec<char>| w@) =~= Seq::<Seq<char>>::empty());
        assert(cur@ =~= Seq::<char>::empty());
    }
    while i < s.len()
        invariant
            i <= s@.len(),
            paragraphs(s@) == paras_acc(s@.skip(i as int), cur@, acc@.map_values(|w: Vec<char>| w@)),
        decreases s@.len() - i,
    {
        let ghost t = s@.skip(i as int);
        proof {
            assert(t[0] == s@[i as int]);
        }
        if i + 1 < s.len() && s[i] == '\n' && s[i + 1] == '\n' {
            proof {
                assert(t[1] == s@[i as int + 1]);
                assert(t.skip(2) =~= s@.skip(i as int + 2));
            }
            let ghost before = acc@;
            acc.push(cur);
            cur = Vec::new();
            proof {
                assert(acc@.map_values(|w: Vec<char>| w@) =~= before.map_values(|w: Vec<char>| w@).push(
                    acc@.last()@,
                ));
                assert(cur@ =~= Seq::<char>::empty());
            }
            i += 2;
        } else {
            proof {
                assert(t.skip(1) =~= s@.skip(i as int + 1));
                if t.len() >= 2 {
                    assert(t[1] == s@[i as int + 1]);
                }
            }
            cur.push(s[i]);
            i += 1;
        }
    }
    proof {
        assert(s@.skip(i as int) =~= Seq::<char>::empty());
    }
    let ghost before = acc@;
    acc.push(cur);
    proof {
        assert(acc@.map_values(|w: Vec<char>| w@) =~= before.map_values(|w: Vec<char>| w@).push(acc@.last()@));
    }
    acc
}

/// Splits prose into passages of about `PASSAGE_WORDS` words on paragraph boundaries.
pub fn chunk_passages(text: &str) -> (r: Vec<String>)
    ensures
        r@.map_values(|p: String| p@) == chunk_spec(text@),
{
    let normalized = unify_newlines_exec(&chars_of(text));
    let paras = paragraphs_exec(&normalized);
    let ghost pv = paras@.map_values(|w: Vec<char>| w@);
    let mut sp: Vec<char> = Vec::new();
    sp.push(' ');
    let mut buf: Vec<Vec<char>> = Vec::new();
    let mut count: usize = 0;
    let mut cands: Vec<Vec<char>> = Vec::new();
    let mut i: usize = 0;
    proof {
        assert(pv.take(0) =~= Seq::<Seq<char>>::empty());
        assert(buf@.map_values(|w: Vec<char>| w@) =~= Seq::<Seq<char>>::empty());
        assert(cands@.map_values(|w: Vec<char>| w@) =~= Seq::<Seq<char>>::empty());
    }
    while i < paras.len()
        invariant
            i <= paras@.len(),
            pv == paras@.map_values(|w: Vec<char>| w@),
            pv == paragraphs(unify_newlines(text@)),
            sp@ == seq![' '],
            count < PASSAGE_WORDS,
            chunk_fold(pv.take(i as int)) == (
                buf@.map_values(|w: Vec<char>| w@),
                count as nat,
                cands@.map_values(|w: Vec<char>| w@),
            ),
        decreases paras@.len() - i,
    {
        proof {
            assert(pv.take(i as int + 1).drop_last() =~= pv.take(i as int));
            assert(pv.take(i as int + 1).last() == paras@[i as int]@);
        }
        let ws = split_words(paras[i].as_slice());
        let p = join_chars(&ws, &sp);
        if p.len() > 0 {
            let pw = split_words(&p);
            let n = pw.len();
            proof {
                assert(pw@.map_values(|w: Vec<char>| w@).len() == pw@.len());
            }
            let ghost bprev = buf@;
            buf.push(p);
            proof {
                assert(buf@.map_values(|w: Vec<char>| w@) =~= bprev.map_values(|w: Vec<char>| w@).push(buf@.last()@));
            }
            if n >= PASSAGE_WORDS - count {
                let joined = join_chars(&buf, &sp);
                let ghost cprev = cands@;
                cands.push(joined);
                buf = Vec::new();
                count = 0;
                proof {
                    assert(cands@.map_values(|w: Vec<char>| w@) =~= cprev.map_values(|w: Vec<char>| w@).push(cands@.last()@));
                    assert(buf@.map_values(|w: Vec<char>| w@) =~= Seq::<Seq<char>>::empty());
                }
            } else {
                count = count + n;
            }
        }
        i += 1;
    }
    proof {
        assert(pv.take(i as int) =~= pv);
    }
    if count >= MIN_PASSAGE_WORDS {
        let joined = join_chars(&buf, &sp);
        let ghost cprev = cands@;
        cands.push(joined);
        proof {
            assert(cands@.map_values(|w: Vec<char>| w@) =~= cprev.map_values(|w: Vec<char>| w@).push(cands@.last()@));
        }
    }
    let ghost cv = cands@.map_values(|w: Vec<char>| w@);
    assert(cv == chunk_candidates(text@));
    let mut out: Vec<String> = Vec::new();
    let mut k: usize = 0;
    proof {
        assert(cv.take(0) =~= Seq::<Seq<char>>::empty());
        assert(out@.map_values(|p: String| p@) =~= Seq::<Seq<char>>::empty());
    }
    while k < cands.len()
        invariant
            k <= cands@.len(),
            cv == cands@.map_values(|w: Vec<char>| w@),
            out@.map_values(|p: String| p@) == long_enough(cv.take(k as int)),
        decreases cands@.len() - k,
    {
        proof {
            assert(cv.take(k as int + 1).drop_last() =~= cv.take(k as int));
            assert(cv.take(k as int + 1).last() == cands@[k as int]@);
        }
        let ws = split_words(cands[k].as_slice());
        proof {
            assert(ws@.map_values(|w: Vec<char>| w@).len() == ws@.len());
        }
        if ws.len() >= MIN_PASSAGE_WORDS {
            let ghost oprev = out@;
            out.push(string_of(cands[k].as_slice()));
            proof {
                assert(out@.map_values(|p: String| p@) =~= oprev.map_values(|p: String| p@).push(cands@[k as int]@));
            }
        }
        k += 1;
    }
    proof {
        assert(cv.take(k as int) =~= cv);
    }
    out
}

/// Every prose passage has at least `MIN_PASSAGE_WORDS` words.
pub proof fn lemma_passages_long_enough(text: Seq<char>)
    ensures
        forall|i: int| 0 <= i < chunk_spec(text).len() ==> words(#[trigger] chunk_spec(text)[i]).len() >= MIN_PASSAGE_WORDS,
{
    lemma_long_enough(chunk_candidates(text));
}

proof fn lemma_long_enough(ps: Seq<Seq<char>>)
    ensures
        forall|i: int| 0 <= i < long_enough(ps).len() ==> words(#[trigger] long_enough(ps)[i]).len() >= MIN_PASSAGE_WORDS,
    decreases ps.len(),
{
    if ps.len() > 0 {
        lemma_long_enough(ps.drop_last());
        let prev = long_enough(ps.drop_last());
        if words(ps.last()).len() >= MIN_PASSAGE_WORDS {
            assert forall|i: int| 0 <= i < long_enough(ps).len() implies words(#[trigger] long_enough(ps)[i]).len() >= MIN_PASSAGE_WORDS by {
                if i < prev.len() {
                    assert(long_enough(ps)[i] == prev[i]);
                }
            }
        }
    }
}

/// A mirror directory ends with the ebook id itself.
pub proof fn lemma_mirror_path_ends_with_id(s: Seq<char>)
    ensures
        crate::text::ends_with(mirror_path(s), s),
{
    let m = mirror_path(s);
    assert(m.len() >= s.len());
    assert(m.subrange(m.len() - s.len(), m.len() as int) =~= s);
}

/// Decoding the UTF-8 encoding of a text gives the text back.
pub proof fn lemma_decode_round_trip(text: Seq<char>)
    ensures
        decode_spec(vstd::utf8::encode_utf8(text)) == text,
{
    vstd::utf8::encode_utf8_valid_utf8(text);
    vstd::utf8::encode_utf8_decode_utf8(text);
}

/// The Project Gutenberg mirrors, in the order they are tried.
pub open spec fn mirrors() -> Seq<Seq<char>> {
    seq!["http://aleph.gutenberg.org"@, "http://gutenberg.pglaf.org"@, "http://mirror.csclub.uwaterloo.ca/gutenberg"@]
}

/// File name suffixes, in the order they are tried: UTF-8, plain, Latin-1.
pub open spec fn suffixes() -> Seq<Seq<char>> {
    seq!["-0.txt"@, ".txt"@, "-8.txt"@]
}

/// The URL of ebook `id` with `suffix` on mirror `base`.
pub open spec fn book_url(base: Seq<char>, id: nat, suffix: Seq<char>) -> Seq<char> {
    base + seq!['/'] + mirror_path(decimal(id)) + seq!['/'] + decimal(id) + suffix
}

/// Every candidate URL of ebook `id`: each mirror in turn, each suffix in turn.
pub open spec fn book_urls_spec(id: nat) -> Seq<Seq<char>> {
    Seq::new(9, |k: int| book_url(mirrors()[k / 3], id, suffixes()[k % 3]))
}

/// The candidate URLs of ebook `id`, in the order they are tried.
pub fn book_urls(id: u32) -> (urls: Vec<String>)
    ensures
        urls@.map_values(|u: String| u@) == book_urls_spec(id as nat),
{
    let bases: [&str; 3] = ["http://aleph.gutenberg.org", "http://gutenberg.pglaf.org", "http://mirror.csclub.uwaterloo.ca/gutenberg"];
    let sufs: [&str; 3] = ["-0.txt", ".txt", "-8.txt"];
    let dir = chars_of(mirror_dir(id).as_str());
    let idc = decimal_chars(id as u64);
    let mut urls: Vec<String> = Vec::new();
    let mut m: usize = 0;
    while m < 3
        invariant
            m <= 3,
            bases@ == seq!["http://aleph.gutenberg.org", "http://gutenberg.pglaf.org", "http://mirror.csclub.uwaterloo.ca/gutenberg"],
            sufs@ == seq!["-0.txt", ".txt", "-8.txt"],
            dir@ == mirror_path(decimal(id as nat)),
            idc@ == decimal(id as nat),
            urls@.len() == 3 * m,
            forall|k: int| 0 <= k < 3 * m ==> #[trigger] urls@[k]@ == book_urls_spec(id as nat)[k],
        decreases 3 - m,
    {
        let mut q: usize = 0;
        while q < 3
            invariant
                m < 3,
                q <= 3,
                bases@ == seq!["http://aleph.gutenberg.org", "http://gutenberg.pglaf.org", "http://mirror.csclub.uwaterloo.ca/gutenberg"],
                sufs@ == seq!["-0.txt", ".txt", "-8.txt"],
                dir@ == mirror_path(decimal(id as nat)),
                idc@ == decimal(id as nat),
                urls@.len() == 3 * m + q,
                forall|k: int| 0 <= k < 3 * m + q ==> #[trigger] urls@[k]@ == book_urls_spec(id as nat)[k],
            decreases 3 - q,
        {
            let mut u = chars_of(bases[m]);
            u.push('/');
            crate::text::append_chars(&mut u, &dir);
            u.push('/');
            crate::text::append_chars(&mut u, &idc);
            crate::text::append_chars(&mut u, &chars_of(sufs[q]));
            let k: usize = 3 * m + q;
            proof {
                assert(k / 3 == m as int) by (nonlinear_arith)
                    requires k == 3 * m + q, q < 3;
                assert(k % 3 == q as int) by (nonlinear_arith)
                    requires k == 3 * m + q, q < 3;
                assert(mirrors()[m as int] == bases@[m as int]@);
                assert(suffixes()[q as int] == sufs@[q as int]@);
                assert(u@ =~= book_url(mirrors()[m as int], id as nat, suffixes()[q as int]));
            }
            urls.push(string_of(&u));
            q += 1;
        }
        m += 1;
    }
    proof {
        assert(urls@.map_values(|u: String| u@) =~= book_urls_spec(id as nat));
    }
    urls
}

/// A downloaded body is a book: longer than 1000 bytes and not a 404 page.
pub open spec fn usable_body_spec(body: Seq<char>) -> bool {
    crate::text::utf8_len(body) > 1000 && !crate::text::contains(body, "<title>404"@)
}

/// Whether a downloaded body is a book.
pub fn usable_body(body: &str) -> (b: bool)
    ensures
        b == usable_body_spec(body@),
{
    let cs = chars_of(body);
    crate::text::byte_len(&cs) > 1000 && !crate::text::contains_chars(&cs, &chars_of("<title>404"))
}

/// A cached copy of a book is used when it is longer than 1000 bytes.
pub fn cached_text_usable(text: &str) -> (b: bool)
    ensures
        b == (crate::text::utf8_len(text@) > 1000),
{
    crate::text::byte_len(&chars_of(text)) > 1000
}

/// The passages of one downloaded book, each tagged with the book's title and series
/// (the title when the book belongs to no series): the body between the Gutenberg
/// markers, cut into prose passages.
pub fn book_chunks(
    raw: &str,
    title: &str,
    series: &Option<String>,
    start_re: &crate::pattern::Pattern,
    end_re: &crate::pattern::Pattern,
) -> (r: Vec<(String, String, String)>)
    ensures
        r@.map_values(|x: (String, String, String)| (x.0@, x.1@, x.2@)) == chunk_spec(
            crate::pattern::strip_spec(
                raw@,
                crate::pattern::regex_find(start_re.source(), raw@),
                crate::pattern::regex_find(end_re.source(), raw@),
            ),
        ).map_values(|c: Seq<char>| (title@, match series { Some(s) => s@, None => title@ }, c)),
{
    let body = crate::pattern::strip_boilerplate(raw, start_re, end_re);
    let chunks = chunk_passages(body.as_str());
    let ser: String = match series {
        Some(s) => s.clone(),
        None => title.to_string(),
    };
    let ghost cv = chunks@.map_values(|p: String| p@);
    let ghost tag = |c: Seq<char>| (title@, ser@, c);
    let mut r: Vec<(String, String, String)> = Vec::new();
    let mut i: usize = 0;
    while i < chunks.len()
        invariant
            i <= chunks@.len(),
            cv == chunks@.map_values(|p: String| p@),
            r@.map_values(|x: (String, String, String)| (x.0@, x.1@, x.2@)) == cv.take(i as int).map_values(
                |c: Seq<char>| (title@, ser@, c),
            ),
        decreases chunks@.len() - i,
    {
        let ghost before = r@;
        let item = (title.to_string(), ser.clone(), chunks[i].clone());
        assert(item.0@ == title@ && item.1@ == ser@ && item.2@ == cv[i as int]);
        r.push(item);
        proof {
            assert(r@ == before.push(item));
            assert(r@.map_values(|x: (String, String, String)| (x.0@, x.1@, x.2@)) =~= before.map_values(
                |x: (String, String, String)| (x.0@, x.1@, x.2@),
            ).push((title@, ser@, cv[i as int])));
            assert(cv.take(i as int + 1) =~= cv.take(i as int).push(cv[i as int]));
            assert(r@.map_values(|x: (String, String, String)| (x.0@, x.1@, x.2@)) =~= cv.take(i as int + 1).map_values(
                |c: Seq<char>| (title@, ser@, c),
            ));
        }
        i += 1;
    }
    proof {
        assert(cv.take(i as int) =~= cv);
    }
    r
}

} // verus!
