//! Which candidate code passages are kept: scrubbed, leak-free, non-trivial, not an
//! exact duplicate of any passage seen before, and not mostly made of lines the same
//! coder already wrote elsewhere.

use vstd::prelude::*;

use crate::codefilter::{is_trivial, is_trivial_spec, norm_line, norm_line_spec};
use crate::scan::{split_on, split_on_char};
use crate::scrub::{leaks_spec, scrub_spec, Scrubber};
use crate::lex::views;
use crate::text::{alphanumeric, chars_of, is_alphanumeric, string_of, utf8_len};

verus! {

broadcast use {vstd::string::group_string_axioms, vstd::std_specs::hash::group_hash_axioms};

/// The hash of a string under a freshly created `std` `DefaultHasher`.
pub uninterp spec fn default_hash(s: Seq<char>) -> u64;

/// Hashes `s` with a new `DefaultHasher` (`Hash::hash` then `Hasher::finish`). Every
/// `DefaultHasher::new()` starts from the same state, so the result is
/// `default_hash(s)`, a fixed function of the characters.
#[verifier::external_body]
pub(crate) fn hash_str(s: &str) -> (h: u64)
    ensures
        h == default_hash(s@),
{
    let mut h = std::collections::hash_map::DefaultHasher::new();
    std::hash::Hash::hash(s, &mut h);
    std::hash::Hasher::finish(&h)
}

/// A normalized line counts as a shingle when it is at least 4 bytes long and holds a
/// letter or digit.
pub open spec fn is_shingle(n: Seq<char>) -> bool {
    utf8_len(n) >= 4 && exists|i: int| 0 <= i < n.len() && #[trigger] alphanumeric(n[i])
}

/// The shingles of a text: hashes of its normalized lines that count as shingles
/// (lines split at `\n`; a trailing `\r` is whitespace and vanishes in normalization).
pub open spec fn shingle_set(text: Seq<char>) -> Set<u64> {
    Set::new(
        |h: u64| exists|k: int| 0 <= k < split_on(text, '\n').len()
            && #[trigger] is_shingle(norm_line_spec(split_on(text, '\n')[k]))
            && h == default_hash(norm_line_spec(split_on(text, '\n')[k])),
    )
}

fn has_alphanumeric(n: &[char]) -> (b: bool)
    ensures
        b == exists|i: int| 0 <= i < n@.len() && #[trigger] alphanumeric(n@[i]),
{
    let mut i: usize = 0;
    while i < n.len()
        invariant
            i <= n@.len(),
            forall|j: int| 0 <= j < i ==> !#[trigger] alphanumeric(n@[j]),
        decreases n@.len() - i,
    {
        if is_alphanumeric(n[i]) {
            return true;
        }
        i += 1;
    }
    false
}

/// The shingles of `text`, each once, in order of first appearance.
fn shingle_list(text: &str) -> (r: Vec<u64>)
    ensures
        r@.no_duplicates(),
        r@.to_set() == shingle_set(text@),
{
    let cs = chars_of(text);
    let ls = split_on_char(&cs, '\n');
    let ghost lv = ls@.map_values(|w: Vec<char>| w@);
    let mut r: Vec<u64> = Vec::new();
    let mut k: usize = 0;
    while k < ls.len()
        invariant
            k <= ls@.len(),
            lv == ls@.map_values(|w: Vec<char>| w@),
            lv == split_on(text@, '\n'),
            r@.no_duplicates(),
            r@.to_set() == Set::new(
                |h: u64| exists|j: int| 0 <= j < k
                    && #[trigger] is_shingle(norm_line_spec(lv[j]))
                    && h == default_hash(norm_line_spec(lv[j])),
            ),
        decreases ls@.len() - k,
    {
        let ghost before = r@.to_set();
        let n = norm_line(string_of(&ls[k]).as_str());
        let nc = chars_of(n.as_str());
        proof {
            assert(lv[k as int] == ls@[k as int]@);
        }
        if crate::text::byte_len(&nc) >= 4 && has_alphanumeric(&nc) {
            let h = hash_str(n.as_str());
            let ghost rprev = r@;
            let mut present = false;
            let mut m: usize = 0;
            while m < r.len()
                invariant
                    m <= r@.len(),
                    present <==> exists|q: int| 0 <= q < m && r@[q] == h,
                decreases r@.len() - m,
            {
                if r[m] == h {
                    present = true;
                }
                m += 1;
            }
            if !present {
                r.push(h);
            }
            proof {
                rprev.lemma_push_to_set_commute(h);
                assert(r@.to_set() =~= before.insert(h)) by {
                    if present {
                        let q = choose|q: int| 0 <= q < r@.len() && r@[q] == h;
                        assert(before.contains(h)) by {
                            assert(r@.contains(h));
                        }
                    }
                }
            }
        }
        proof {
            assert(r@.to_set() =~= Set::new(
                |h: u64| exists|j: int| 0 <= j < k + 1
                    && #[trigger] is_shingle(norm_line_spec(lv[j]))
                    && h == default_hash(norm_line_spec(lv[j])),
            )) by {
                assert forall|h: u64| r@.to_set().contains(h) <==> (exists|j: int| 0 <= j < k + 1
                    && #[trigger] is_shingle(norm_line_spec(lv[j]))
                    && h == default_hash(norm_line_spec(lv[j]))) by {
                    if is_shingle(norm_line_spec(lv[k as int])) && h == default_hash(norm_line_spec(lv[k as int])) {
                        assert(0 <= k < k + 1);
                    }
                }
            }
        }
        k += 1;
    }
    proof {
        assert(r@.to_set() =~= shingle_set(text@));
    }
    r
}

/// The shingles of `text`: hashes of its normalized lines that are at least 4 bytes long
/// and hold a letter or digit.
pub fn shingles(text: &str) -> (s: std::collections::HashSet<u64>)
    ensures
        s@ == shingle_set(text@),
{
    let l = shingle_list(text);
    let mut s: std::collections::HashSet<u64> = std::collections::HashSet::new();
    let mut i: usize = 0;
    while i < l.len()
        invariant
            i <= l@.len(),
            s@ == l@.take(i as int).to_set(),
        decreases l@.len() - i,
    {
        s.insert(l[i]);
        proof {
            assert(l@.take(i as int + 1) =~= l@.take(i as int).push(l@[i as int]));
            l@.take(i as int).lemma_push_to_set_commute(l@[i as int]);
            assert(l@.take(i as int + 1).to_set() =~= l@.take(i as int).to_set().insert(l@[i as int]));
        }
        i += 1;
    }
    proof {
        assert(l@.take(i as int) =~= l@);
    }
    s
}

/// `text` with each newline turned into a space.
pub open spec fn newlines_to_spaces(s: Seq<char>) -> Seq<char> {
    s.map_values(|c: char| if c == '\n' { ' ' } else { c })
}

/// The hash under which exact duplicates are recognized: that of the text with all
/// whitespace runs collapsed to single spaces.
pub open spec fn exact_key(text: Seq<char>) -> u64 {
    default_hash(norm_line_spec(newlines_to_spaces(text)))
}

/// What has been kept so far: the exact-duplicate keys of all passages, and, per coder,
/// the shingles of that coder's passages.
pub struct DedupState {
    pub seen_exact: std::collections::HashSet<u64>,
    pub per_dev_shingles: Vec<std::collections::HashSet<u64>>,
}

/// The text a passage is judged by: scrubbed when a scrubber is given.
pub open spec fn candidate_text(raw: Seq<char>, scrub: Option<Scrubber>) -> Seq<char> {
    match scrub {
        Some(s) => scrub_spec(
            s.email.source(),
            s.url.source(),
            match s.ident {
                Some(p) => Some(p.source()),
                None => None,
            },
            raw,
        ),
        None => raw,
    }
}

/// A passage is mostly known when more than 80% of its shingles were seen before.
pub open spec fn mostly_seen(sh: Set<u64>, seen: Set<u64>) -> bool {
    5 * sh.intersect(seen).len() > 4 * sh.len()
}

/// Whether a candidate passage (already scrubbed) is kept: no leak token survived, it
/// is not trivial, its exact key is new, and it does not consist mostly of shingles
/// the coder already wrote.
pub open spec fn passage_kept(text: Seq<char>, leaked: bool, seen_exact: Set<u64>, seen: Set<u64>) -> bool {
    let sh = shingle_set(text);
    &&& !leaked
    &&& !is_trivial_spec(text)
    &&& !seen_exact.contains(exact_key(text))
    &&& !(sh.len() > 0 && mostly_seen(sh, seen))
}

/// A kept passage's exact key is recorded, so the same text is never kept again,
/// whatever the coder's shingles are by then.
pub proof fn lemma_kept_passage_not_kept_again(
    text: Seq<char>,
    leaked: bool,
    seen_exact: Set<u64>,
    seen: Set<u64>,
    later_seen: Set<u64>,
)
    requires
        passage_kept(text, leaked, seen_exact, seen),
    ensures
        !passage_kept(text, leaked, seen_exact.insert(exact_key(text)), later_seen),
{
}

/// Keeps or drops one candidate passage of coder `dev`, updating what has been seen.
/// The passage is dropped when a leak token survives scrubbing, when it is trivial,
/// when its exact key was seen before (the key is recorded either way), or when it has
/// shingles and more than 80% of them are among the coder's known shingles; a kept
/// passage's shingles join the coder's known shingles. Returns the kept text.
pub fn keep_passage(raw: &str, dev: usize, scrub: Option<&Scrubber>, dedup: &mut DedupState) -> (r: Option<String>)
    requires
        dev < old(dedup).per_dev_shingles@.len(),
    ensures
        ({
            let text = candidate_text(raw@, match scrub { Some(s) => Some(*s), None => None });
            let leaked = match scrub {
                Some(s) => leaks_spec(views(s.residual@), text),
                None => false,
            };
            let early = leaked || is_trivial_spec(text);
            let dup = old(dedup).seen_exact@.contains(exact_key(text));
            let sh = shingle_set(text);
            let seen = old(dedup).per_dev_shingles@[dev as int]@;
            let near = sh.len() > 0 && mostly_seen(sh, seen);
            &&& final(dedup).per_dev_shingles@.len() == old(dedup).per_dev_shingles@.len()
            &&& final(dedup).seen_exact@ == (if early {
                old(dedup).seen_exact@
            } else {
                old(dedup).seen_exact@.insert(exact_key(text))
            })
            &&& forall|j: int| 0 <= j < old(dedup).per_dev_shingles@.len() && j != dev
                ==> (#[trigger] final(dedup).per_dev_shingles@[j])@ == old(dedup).per_dev_shingles@[j]@
            &&& final(dedup).per_dev_shingles@[dev as int]@ == (if early || dup || near {
                seen
            } else {
                seen.union(sh)
            })
            &&& match r {
                Some(t) => passage_kept(text, leaked, old(dedup).seen_exact@, seen) && t@ == text,
                None => !passage_kept(text, leaked, old(dedup).seen_exact@, seen),
            }
        }),
{
    let text: String = match scrub {
        Some(s) => s.scrub(raw),
        None => raw.to_string(),
    };
    match scrub {
        Some(s) => {
            if s.leaks(text.as_str()) {
                return None;
            }
        },
        None => {},
    }
    if is_trivial(text.as_str()) {
        return None;
    }
    let tc = chars_of(text.as_str());
    let mut flat: Vec<char> = Vec::new();
    let mut i: usize = 0;
    while i < tc.len()
        invariant
            i <= tc@.len(),
            flat@ == newlines_to_spaces(tc@.take(i as int)),
        decreases tc@.len() - i,
    {
        let c = tc[i];
        flat.push(if c == '\n' { ' ' } else { c });
        proof {
            assert(newlines_to_spaces(tc@.take(i as int + 1)) =~= newlines_to_spaces(tc@.take(i as int)).push(
                if c == '\n' { ' ' } else { c },
            ));
        }
        i += 1;
    }
    proof {
        assert(tc@.take(i as int) =~= tc@);
    }
    let exact = hash_str(norm_line(string_of(&flat).as_str()).as_str());
    if !dedup.seen_exact.insert(exact) {
        return None;
    }
    let ghost se = dedup.seen_exact@;
    proof {
        assert(exact == exact_key(text@));
    }
    let l = shingle_list(text.as_str());
    if l.len() > 0 {
        let ghost seen0 = dedup.per_dev_shingles@[dev as int]@;
        let mut common: Vec<u64> = Vec::new();
        let mut k: usize = 0;
        while k < l.len()
            invariant
                k <= l@.len(),
                l@.no_duplicates(),
                dev < dedup.per_dev_shingles@.len(),
                seen0 == dedup.per_dev_shingles@[dev as int]@,
                dedup.seen_exact@ == se,
                common@.no_duplicates(),
                common@.to_set() == l@.take(k as int).to_set().intersect(seen0),
            decreases l@.len() - k,
        {
            let x = l[k];
            let ghost cprev = common@;
            if dedup.per_dev_shingles[dev].contains(&x) {
                proof {
                    assert(!common@.contains(x)) by {
                        if common@.contains(x) {
                            assert(common@.to_set().contains(x));
                            assert(l@.take(k as int).contains(x));
                            let q = choose|q: int| 0 <= q < k && l@.take(k as int)[q] == x;
                            assert(l@[q] == l@[k as int]);
                        }
                    }
                }
                common.push(x);
            }
            proof {
                assert(l@.take(k as int + 1) =~= l@.take(k as int).push(x));
                l@.take(k as int).lemma_push_to_set_commute(x);
                cprev.lemma_push_to_set_commute(x);
                assert(common@.to_set() =~= l@.take(k as int + 1).to_set().intersect(seen0));
            }
            k += 1;
        }
        proof {
            assert(l@.take(k as int) =~= l@);
            common@.unique_seq_to_set();
            l@.unique_seq_to_set();
        }
        if (common.len() as u128) * 5 > (l.len() as u128) * 4 {
            return None;
        }
        let mut j: usize = 0;
        while j < l.len()
            invariant
                j <= l@.len(),
                dev < dedup.per_dev_shingles@.len(),
                dedup.seen_exact@ == se,
                dedup.per_dev_shingles@.len() == old(dedup).per_dev_shingles@.len(),
                forall|q: int| 0 <= q < old(dedup).per_dev_shingles@.len() && q != dev
                    ==> (#[trigger] dedup.per_dev_shingles@[q])@ == old(dedup).per_dev_shingles@[q]@,
                dedup.per_dev_shingles@[dev as int]@ == seen0.union(l@.take(j as int).to_set()),
            decreases l@.len() - j,
        {
            dedup.per_dev_shingles[dev].insert(l[j]);
            proof {
                assert(l@.take(j as int + 1) =~= l@.take(j as int).push(l@[j as int]));
                l@.take(j as int).lemma_push_to_set_commute(l@[j as int]);
                assert(seen0.union(l@.take(j as int + 1).to_set()) =~= seen0.union(l@.take(j as int).to_set()).insert(l@[j as int]));
            }
            j += 1;
        }
        proof {
            assert(l@.take(j as int) =~= l@);
        }
    } else {
        proof {
            assert(shingle_set(text@).len() == 0) by {
                assert(l@.to_set() =~= Set::<u64>::empty());
            }
        }
    }
    Some(text)
}

} // verus!
