//! Character-level text primitives with their specifications: whitespace, words,
//! joining, substring search, trimming, and case folding.

use vstd::prelude::*;

verus! {

broadcast use vstd::string::group_string_axioms;

/// The characters of `s`, in order.
pub fn chars_of(s: &str) -> (v: Vec<char>)
    ensures
        v@ == s@,
{
    let mut v: Vec<char> = Vec::new();
    for c in it: s.chars()
        invariant
            it.seq() == s@,
            v@.len() == it.index(),
            forall|k: int| 0 <= k < v@.len() ==> v@[k] == s@[k],
    {
        v.push(c);
    }
    assert(v@ =~= s@);
    v
}


/// The string holding `v`'s characters.
pub fn string_of(v: &[char]) -> (s: String)
    ensures
        s@ == v@,
{
    let mut s = String::new();
    let mut i: usize = 0;
    while i < v.len()
        invariant
            i <= v@.len(),
            s@ == v@.take(i as int),
        decreases v@.len() - i,
    {
        proof {
            assert(v@.take(i as int + 1) =~= v@.take(i as int).push(v@[i as int]));
        }
        push_char(&mut s, v[i]);
        i += 1;
    }
    proof {
        assert(v@.take(i as int) =~= v@);
    }
    s
}

/// Appends `c` to `s` (`String::push`).
#[verifier::external_body]
pub(crate) fn push_char(s: &mut String, c: char)
    ensures
        final(s)@ == old(s)@.push(c),
{
    s.push(c)
}

/// The lowercase mapping of a string (`str::to_lowercase`, Unicode full case mapping).
pub uninterp spec fn lowercase(s: Seq<char>) -> Seq<char>;

/// Lowercases `s` (`str::to_lowercase`): the result is `lowercase(s@)`, a fixed
/// function of the characters of `s` given by Unicode's case tables.
#[verifier::external_body]
pub(crate) fn to_lower(s: &str) -> (r: String)
    ensures
        r@ == lowercase(s@),
{
    s.to_lowercase()
}

/// Number of bytes of the UTF-8 encoding of a character sequence.
pub open spec fn utf8_len(s: Seq<char>) -> nat {
    vstd::utf8::encode_utf8(s).len()
}

/// Byte length of the UTF-8 encoding of `v`'s characters.
pub fn byte_len(v: &[char]) -> (n: usize)
    ensures
        n == utf8_len(v@),
{
    let s = string_of(v);
    let b = s.as_str().as_bytes();
    b.len()
}

/// Unicode `White_Space` (what `char::is_whitespace` tests).
pub open spec fn is_ws(c: char) -> bool {
    let u = c as u32;
    (0x09 <= u <= 0x0d) || u == 0x20 || u == 0x85 || u == 0xa0 || u == 0x1680 || (0x2000 <= u
        <= 0x200a) || u == 0x2028 || u == 0x2029 || u == 0x202f || u == 0x205f || u == 0x3000
}

/// Whether `c` is Unicode whitespace.
pub fn is_whitespace(c: char) -> (b: bool)
    ensures
        b == is_ws(c),
{
    let u = c as u32;
    (0x09 <= u && u <= 0x0d) || u == 0x20 || u == 0x85 || u == 0xa0 || u == 0x1680 || (0x2000 <= u
        && u <= 0x200a) || u == 0x2028 || u == 0x2029 || u == 0x202f || u == 0x205f || u == 0x3000
}

/// Splitting on whitespace, as a left-to-right scan: `cur` is the word being read and
/// `acc` the words already complete.
pub open spec fn words_acc(s: Seq<char>, cur: Seq<char>, acc: Seq<Seq<char>>) -> Seq<Seq<char>>
    decreases s.len(),
{
    if s.len() == 0 {
        if cur.len() > 0 {
            acc.push(cur)
        } else {
            acc
        }
    } else if is_ws(s[0]) {
        words_acc(s.drop_first(), Seq::empty(), if cur.len() > 0 { acc.push(cur) } else { acc })
    } else {
        words_acc(s.drop_first(), cur.push(s[0]), acc)
    }
}

/// The maximal runs of non-whitespace characters of `s` (what `split_whitespace` yields).
pub open spec fn words(s: Seq<char>) -> Seq<Seq<char>> {
    words_acc(s, Seq::empty(), Seq::empty())
}

/// The whitespace-separated words of `s`.
pub fn split_words(s: &[char]) -> (ws: Vec<Vec<char>>)
    ensures
        ws@.map_values(|w: Vec<char>| w@) == words(s@),
{
    let mut ws: Vec<Vec<char>> = Vec::new();
    let mut cur: Vec<char> = Vec::new();
    let mut i: usize = 0;
    proof {
        assert(s@.skip(0) =~= s@);
        assert(ws@.map_values(|w: Vec<char>| w@) =~= Seq::<Seq<char>>::empty());
        assert(cur@ =~= Seq::<char>::empty());
    }
    while i < s.len()
        invariant
            i <= s@.len(),
            words(s@) == words_acc(s@.skip(i as int), cur@, ws@.map_values(|w: Vec<char>| w@)),
        decreases s@.len() - i,
    {
        proof {
            assert(s@.skip(i as int).drop_first() =~= s@.skip(i as int + 1));
        }
        let c = s[i];
        if is_whitespace(c) {
            if cur.len() > 0 {
                let w = cur;
                cur = Vec::new();
                proof {
                    assert(ws@.push(w).map_values(|w: Vec<char>| w@) =~= ws@.map_values(
                        |w: Vec<char>| w@,
                    ).push(w@));
                }
                ws.push(w);
            }
            assert(cur@ =~= Seq::<char>::empty());
        } else {
            cur.push(c);
        }
        i += 1;
    }
    if cur.len() > 0 {
        proof {
            assert(ws@.push(cur).map_values(|w: Vec<char>| w@) =~= ws@.map_values(
                |w: Vec<char>| w@,
            ).push(cur@));
        }
        ws.push(cur);
    }
    ws
}

/// The word list after a finished word `cur` is added (nothing for an empty `cur`).
pub open spec fn flush_word(cur: Seq<char>, acc: Seq<Seq<char>>) -> Seq<Seq<char>> {
    if cur.len() > 0 {
        acc.push(cur)
    } else {
        acc
    }
}

/// The scan state (current word, finished words) after reading all of `s`.
pub open spec fn scan_words(s: Seq<char>, cur: Seq<char>, acc: Seq<Seq<char>>) -> (Seq<char>, Seq<Seq<char>>)
    decreases s.len(),
{
    if s.len() == 0 {
        (cur, acc)
    } else if is_ws(s[0]) {
        scan_words(s.drop_first(), Seq::empty(), flush_word(cur, acc))
    } else {
        scan_words(s.drop_first(), cur.push(s[0]), acc)
    }
}

proof fn lemma_words_acc_scan(s: Seq<char>, cur: Seq<char>, acc: Seq<Seq<char>>)
    ensures
        words_acc(s, cur, acc) == flush_word(scan_words(s, cur, acc).0, scan_words(s, cur, acc).1),
    decreases s.len(),
{
    if s.len() > 0 {
        if is_ws(s[0]) {
            lemma_words_acc_scan(s.drop_first(), Seq::empty(), flush_word(cur, acc));
        } else {
            lemma_words_acc_scan(s.drop_first(), cur.push(s[0]), acc);
        }
    }
}

proof fn lemma_words_acc_append(a: Seq<char>, b: Seq<char>, cur: Seq<char>, acc: Seq<Seq<char>>)
    ensures
        words_acc(a + b, cur, acc) == words_acc(b, scan_words(a, cur, acc).0, scan_words(a, cur, acc).1),
    decreases a.len(),
{
    if a.len() == 0 {
        assert(a + b =~= b);
    } else {
        assert((a + b).drop_first() =~= a.drop_first() + b);
        assert((a + b)[0] == a[0]);
        if is_ws(a[0]) {
            lemma_words_acc_append(a.drop_first(), b, Seq::empty(), flush_word(cur, acc));
        } else {
            lemma_words_acc_append(a.drop_first(), b, cur.push(a[0]), acc);
        }
    }
}

proof fn lemma_words_acc_prefix(s: Seq<char>, cur: Seq<char>, acc: Seq<Seq<char>>)
    ensures
        words_acc(s, cur, acc) == acc + words_acc(s, cur, Seq::empty()),
    decreases s.len(),
{
    if s.len() == 0 {
        if cur.len() > 0 {
            assert(acc.push(cur) =~= acc + Seq::<Seq<char>>::empty().push(cur));
        } else {
            assert(acc =~= acc + Seq::<Seq<char>>::empty());
        }
    } else if is_ws(s[0]) {
        lemma_words_acc_prefix(s.drop_first(), Seq::empty(), flush_word(cur, acc));
        lemma_words_acc_prefix(s.drop_first(), Seq::empty(), flush_word(cur, Seq::empty()));
        if cur.len() > 0 {
            assert(acc.push(cur) + words_acc(s.drop_first(), Seq::empty(), Seq::empty())
                =~= acc + (Seq::<Seq<char>>::empty().push(cur) + words_acc(s.drop_first(), Seq::empty(), Seq::empty())));
        } else {
            assert(Seq::<Seq<char>>::empty() + words_acc(s.drop_first(), Seq::empty(), Seq::empty())
                =~= words_acc(s.drop_first(), Seq::empty(), Seq::empty()));
        }
    } else {
        lemma_words_acc_prefix(s.drop_first(), cur.push(s[0]), acc);
    }
}

/// The words of two texts separated by whitespace are the words of each, in order.
pub proof fn lemma_words_concat(a: Seq<char>, c: char, b: Seq<char>)
    requires
        is_ws(c),
    ensures
        words(a + seq![c] + b) == words(a) + words(b),
{
    let st = scan_words(a, Seq::empty(), Seq::empty());
    assert(a + seq![c] + b =~= a + (seq![c] + b));
    lemma_words_acc_append(a, seq![c] + b, Seq::empty(), Seq::empty());
    assert((seq![c] + b)[0] == c);
    assert((seq![c] + b).drop_first() =~= b);
    lemma_words_acc_scan(a, Seq::empty(), Seq::empty());
    lemma_words_acc_prefix(b, Seq::empty(), flush_word(st.0, st.1));
}

/// Total number of words of a list of texts.
pub open spec fn word_total(ls: Seq<Seq<char>>) -> nat
    decreases ls.len(),
{
    if ls.len() == 0 {
        0
    } else {
        word_total(ls.drop_last()) + words(ls.last()).len()
    }
}

/// Joining texts with a whitespace character keeps every word: the joined text has as
/// many words as the texts together.
pub proof fn lemma_words_join(ls: Seq<Seq<char>>, c: char)
    requires
        is_ws(c),
    ensures
        words(join(ls, seq![c])).len() == word_total(ls),
    decreases ls.len(),
{
    if ls.len() == 0 {
        assert(words(Seq::<char>::empty()) =~= Seq::<Seq<char>>::empty());
    } else if ls.len() == 1 {
        assert(ls.drop_last() =~= Seq::<Seq<char>>::empty());
        assert(word_total(ls.drop_last()) == 0);
        assert(ls.last() == ls[0]);
    } else {
        lemma_words_join(ls.drop_last(), c);
        lemma_words_concat(join(ls.drop_last(), seq![c]), c, ls.last());
        assert(join(ls, seq![c]) == join(ls.drop_last(), seq![c]) + seq![c] + ls.last());
        assert((words(join(ls.drop_last(), seq![c])) + words(ls.last())).len()
            == words(join(ls.drop_last(), seq![c])).len() + words(ls.last()).len());
    }
}

/// `ws` joined with `sep` between consecutive items.
pub open spec fn join(ws: Seq<Seq<char>>, sep: Seq<char>) -> Seq<char>
    decreases ws.len(),
{
    if ws.len() == 0 {
        Seq::empty()
    } else if ws.len() == 1 {
        ws[0]
    } else {
        join(ws.drop_last(), sep) + sep + ws.last()
    }
}

/// The items of `ws` joined with `sep`.
pub fn join_chars(ws: &Vec<Vec<char>>, sep: &[char]) -> (r: Vec<char>)
    ensures
        r@ == join(ws@.map_values(|w: Vec<char>| w@), sep@),
{
    let ghost wv = ws@.map_values(|w: Vec<char>| w@);
    let mut r: Vec<char> = Vec::new();
    let mut i: usize = 0;
    while i < ws.len()
        invariant
            i <= ws@.len(),
            wv == ws@.map_values(|w: Vec<char>| w@),
            r@ == join(wv.take(i as int), sep@),
        decreases ws@.len() - i,
    {
        proof {
            assert(wv.take(i as int + 1).drop_last() =~= wv.take(i as int));
        }
        if i > 0 {
            append_chars(&mut r, sep);
        }
        append_chars(&mut r, ws[i].as_slice());
        proof {
            if i == 0 {
                assert(r@ =~= wv.take(1)[0]);
            }
        }
        i += 1;
    }
    proof {
        assert(wv.take(i as int) =~= wv);
    }
    r
}

/// Appends the characters of `t` to `r`.
pub fn append_chars(r: &mut Vec<char>, t: &[char])
    ensures
        final(r)@ == old(r)@ + t@,
{
    let mut i: usize = 0;
    while i < t.len()
        invariant
            i <= t@.len(),
            r@ == old(r)@ + t@.take(i as int),
        decreases t@.len() - i,
    {
        proof {
            assert(t@.take(i as int + 1) =~= t@.take(i as int).push(t@[i as int]));
        }
        r.push(t[i]);
        i += 1;
    }
    proof {
        assert(t@.take(i as int) =~= t@);
    }
}


/// `n` occurs in `h` starting at position `i`.
pub open spec fn occurs_at(h: Seq<char>, n: Seq<char>, i: int) -> bool {
    0 <= i && i + n.len() <= h.len() && h.subrange(i, i + n.len()) == n
}

/// `n` is a substring of `h`.
pub open spec fn contains(h: Seq<char>, n: Seq<char>) -> bool {
    exists|i: int| occurs_at(h, n, i)
}

/// `h` begins with `p`.
pub open spec fn starts_with(h: Seq<char>, p: Seq<char>) -> bool {
    p.len() <= h.len() && h.subrange(0, p.len() as int) == p
}

/// `h` ends with `p`.
pub open spec fn ends_with(h: Seq<char>, p: Seq<char>) -> bool {
    p.len() <= h.len() && h.subrange(h.len() - p.len(), h.len() as int) == p
}

/// Whether `n` occurs in `h` at position `i`.
pub fn matches_at(h: &[char], n: &[char], i: usize) -> (b: bool)
    ensures
        b == occurs_at(h@, n@, i as int),
{
    let hl = h.len();
    if i > hl || n.len() > hl - i {
        return false;
    }
    let mut k: usize = 0;
    while k < n.len()
        invariant
            hl == h@.len(),
            i + n@.len() <= h@.len(),
            k <= n@.len(),
            forall|j: int| 0 <= j < k ==> h@[i + j] == n@[j],
        decreases n@.len() - k,
    {
        if h[i + k] != n[k] {
            assert(h@.subrange(i as int, i + n@.len())[k as int] != n@[k as int]);
            return false;
        }
        k += 1;
    }
    assert(h@.subrange(i as int, i + n@.len()) =~= n@);
    true
}

/// Whether `n` is a substring of `h`.
pub fn contains_chars(h: &[char], n: &[char]) -> (b: bool)
    ensures
        b == contains(h@, n@),
{
    if n.len() > h.len() {
        return false;
    }
    if n.len() == 0 {
        assert(h@.subrange(0, 0) =~= n@);
        assert(occurs_at(h@, n@, 0));
        return true;
    }
    let hl = h.len();
    let mut i: usize = 0;
    while i <= hl - n.len()
        invariant
            hl == h@.len(),
            0 < n@.len() <= h@.len(),
            i <= h@.len() - n@.len() + 1,
            forall|j: int| 0 <= j < i ==> !occurs_at(h@, n@, j),
        decreases h@.len() - n@.len() + 1 - i,
    {
        if matches_at(h, n, i) {
            return true;
        }
        i += 1;
    }
    assert forall|j: int| !occurs_at(h@, n@, j) by {
        if 0 <= j && j + n@.len() <= h@.len() {
            assert(j < i);
        }
    }
    false
}

/// Whether `h` begins with `p`.
pub fn starts_with_chars(h: &[char], p: &[char]) -> (b: bool)
    ensures
        b == starts_with(h@, p@),
{
    matches_at(h, p, 0)
}

/// Whether `h` ends with `p`.
pub fn ends_with_chars(h: &[char], p: &[char]) -> (b: bool)
    ensures
        b == ends_with(h@, p@),
{
    if p.len() > h.len() {
        return false;
    }
    matches_at(h, p, h.len() - p.len())
}

/// The characters of `s` from `lo` up to (not including) `hi`.
pub fn slice_chars(s: &[char], lo: usize, hi: usize) -> (r: Vec<char>)
    requires
        lo <= hi <= s@.len(),
    ensures
        r@ == s@.subrange(lo as int, hi as int),
{
    let mut r: Vec<char> = Vec::new();
    let mut i: usize = lo;
    while i < hi
        invariant
            lo <= i <= hi <= s@.len(),
            r@ == s@.subrange(lo as int, i as int),
        decreases hi - i,
    {
        proof {
            assert(s@.subrange(lo as int, i as int + 1) =~= s@.subrange(lo as int, i as int).push(
                s@[i as int],
            ));
        }
        r.push(s[i]);
        i += 1;
    }
    r
}

/// Number of leading whitespace characters of `s`.
pub open spec fn lead_ws(s: Seq<char>) -> nat
    decreases s.len(),
{
    if s.len() > 0 && is_ws(s[0]) {
        1 + lead_ws(s.drop_first())
    } else {
        0
    }
}

/// Number of trailing whitespace characters of `s`.
pub open spec fn trail_ws(s: Seq<char>) -> nat
    decreases s.len(),
{
    if s.len() > 0 && is_ws(s.last()) {
        1 + trail_ws(s.drop_last())
    } else {
        0
    }
}

/// `s` without leading and trailing whitespace (what `str::trim` returns).
pub open spec fn trim(s: Seq<char>) -> Seq<char> {
    let t = s.skip(lead_ws(s) as int);
    t.take(t.len() - trail_ws(t))
}

proof fn lemma_lead_ws(s: Seq<char>, i: int)
    requires
        0 <= i <= s.len(),
        forall|j: int| 0 <= j < i ==> is_ws(#[trigger] s[j]),
        i == s.len() || !is_ws(s[i]),
    ensures
        lead_ws(s) == i,
    decreases i,
{
    if i > 0 {
        lemma_lead_ws(s.drop_first(), i - 1);
    }
}

proof fn lemma_trail_ws(s: Seq<char>, i: int)
    requires
        0 <= i <= s.len(),
        forall|j: int| s.len() - i <= j < s.len() ==> is_ws(#[trigger] s[j]),
        i == s.len() || !is_ws(s[s.len() - i - 1]),
    ensures
        trail_ws(s) == i,
    decreases i,
{
    if i > 0 {
        lemma_trail_ws(s.drop_last(), i - 1);
    }
}

/// `s` without leading and trailing whitespace.
pub fn trim_chars(s: &[char]) -> (r: Vec<char>)
    ensures
        r@ == trim(s@),
{
    let mut lo: usize = 0;
    while lo < s.len() && is_whitespace(s[lo])
        invariant
            lo <= s@.len(),
            forall|j: int| 0 <= j < lo ==> is_ws(#[trigger] s@[j]),
        decreases s@.len() - lo,
    {
        lo += 1;
    }
    proof {
        lemma_lead_ws(s@, lo as int);
    }
    let ghost t = s@.skip(lo as int);
    let mut hi: usize = s.len();
    while hi > lo && is_whitespace(s[hi - 1])
        invariant
            lo <= hi <= s@.len(),
            t == s@.skip(lo as int),
            forall|j: int| hi <= j < s@.len() ==> is_ws(#[trigger] s@[j]),
        decreases hi,
    {
        hi -= 1;
    }
    proof {
        assert forall|j: int| t.len() - (s@.len() - hi) <= j < t.len() implies is_ws(#[trigger] t[j]) by {
            assert(t[j] == s@[j + lo]);
        }
        if hi > lo {
            assert(t[t.len() - (s@.len() - hi) - 1] == s@[hi - 1]);
        }
        lemma_trail_ws(t, s@.len() - hi);
        assert(t.take(t.len() - trail_ws(t)) =~= s@.subrange(lo as int, hi as int));
    }
    slice_chars(s, lo, hi)
}


/// Whether some pattern of `pats` occurs in `h`.
pub fn contains_any(h: &[char], pats: &Vec<Vec<char>>) -> (b: bool)
    ensures
        b == exists|k: int| 0 <= k < pats@.len() && contains(h@, #[trigger] pats@[k]@),
{
    let mut k: usize = 0;
    while k < pats.len()
        invariant
            k <= pats@.len(),
            forall|j: int| 0 <= j < k ==> !contains(h@, #[trigger] pats@[j]@),
        decreases pats@.len() - k,
    {
        if contains_chars(h, pats[k].as_slice()) {
            return true;
        }
        k += 1;
    }
    false
}

/// Whether `h` ends with some pattern of `pats`.
pub fn ends_with_any(h: &[char], pats: &Vec<Vec<char>>) -> (b: bool)
    ensures
        b == exists|k: int| 0 <= k < pats@.len() && ends_with(h@, #[trigger] pats@[k]@),
{
    let mut k: usize = 0;
    while k < pats.len()
        invariant
            k <= pats@.len(),
            forall|j: int| 0 <= j < k ==> !ends_with(h@, #[trigger] pats@[j]@),
        decreases pats@.len() - k,
    {
        if ends_with_chars(h, pats[k].as_slice()) {
            return true;
        }
        k += 1;
    }
    false
}

/// Unicode `Alphabetic` (what `char::is_alphabetic` tests).
pub uninterp spec fn alphabetic(c: char) -> bool;

/// Unicode numeric (general categories Nd, Nl, No; what `char::is_numeric` tests).
pub uninterp spec fn numeric(c: char) -> bool;

/// Whether `c` is alphabetic (`char::is_alphabetic`): `alphabetic(c)`, a fixed
/// property of the character given by Unicode's tables.
#[verifier::external_body]
pub(crate) fn char_is_alphabetic(c: char) -> (b: bool)
    ensures
        b == alphabetic(c),
{
    c.is_alphabetic()
}

/// Whether `c` is numeric (`char::is_numeric`): `numeric(c)`, a fixed property of the
/// character given by Unicode's tables.
#[verifier::external_body]
pub(crate) fn char_is_numeric(c: char) -> (b: bool)
    ensures
        b == numeric(c),
{
    c.is_numeric()
}

/// Alphanumeric: alphabetic or numeric (what `char::is_alphanumeric` tests).
pub open spec fn alphanumeric(c: char) -> bool {
    alphabetic(c) || numeric(c)
}

/// Whether `c` is alphanumeric.
pub fn is_alphanumeric(c: char) -> (b: bool)
    ensures
        b == alphanumeric(c),
{
    char_is_alphabetic(c) || char_is_numeric(c)
}


/// Number of UTF-8 bytes of one character.
pub open spec fn char_width(c: char) -> nat {
    vstd::utf8::encode_scalar(c as u32).len()
}

/// The UTF-8 encoding of a text with one more character ends with that character's encoding.
pub proof fn lemma_encode_push(s: Seq<char>, c: char)
    ensures
        vstd::utf8::encode_utf8(s.push(c)) == vstd::utf8::encode_utf8(s) + vstd::utf8::encode_scalar(c as u32),
    decreases s.len(),
{
    if s.len() == 0 {
        assert(s.push(c).drop_first() =~= Seq::<char>::empty());
        assert(vstd::utf8::encode_utf8(Seq::<char>::empty()) =~= Seq::<u8>::empty());
        assert(s.push(c)[0] == c);
        assert(vstd::utf8::encode_utf8(s.push(c)) =~= vstd::utf8::encode_scalar(c as u32));
    } else {
        lemma_encode_push(s.drop_first(), c);
        assert(s.push(c).drop_first() =~= s.drop_first().push(c));
        assert(vstd::utf8::encode_utf8(s.push(c)) =~= vstd::utf8::encode_utf8(s) + vstd::utf8::encode_scalar(c as u32));
    }
}

/// UTF-8 width of a character (1 to 4 bytes).
pub fn char_width_exec(c: char) -> (w: usize)
    ensures
        w == char_width(c),
        1 <= w <= 4,
{
    let u = c as u32;
    if u <= 0x7F {
        1
    } else if u <= 0x7FF {
        2
    } else if u <= 0xFFFF {
        3
    } else {
        4
    }
}

/// Byte offset `b` falls between two characters of `s`.
pub open spec fn is_boundary(s: Seq<char>, b: int) -> bool {
    exists|i: int| 0 <= i <= s.len() && utf8_len(#[trigger] s.take(i)) == b
}

/// One more character adds its width to the UTF-8 length of a prefix.
pub proof fn lemma_utf8_len_step(s: Seq<char>, i: int)
    requires
        0 <= i < s.len(),
    ensures
        utf8_len(s.take(i + 1)) == utf8_len(s.take(i)) + char_width(s[i]),
        utf8_len(s.take(i + 1)) > utf8_len(s.take(i)),
{
    assert(s.take(i + 1) =~= s.take(i).push(s[i]));
    lemma_encode_push(s.take(i), s[i]);
    let u = s[i] as u32;
    assert(vstd::utf8::encode_scalar(u).len() >= 1);
}

/// Longer prefixes have longer UTF-8 encodings.
pub proof fn lemma_utf8_len_mono(s: Seq<char>, i: int, j: int)
    requires
        0 <= i < j <= s.len(),
    ensures
        utf8_len(s.take(i)) < utf8_len(s.take(j)),
    decreases j - i,
{
    lemma_utf8_len_step(s, j - 1);
    if i < j - 1 {
        lemma_utf8_len_mono(s, i, j - 1);
    }
}

/// The character index whose prefix is exactly `b` bytes long.
pub open spec fn char_index_at(s: Seq<char>, b: int) -> int {
    choose|i: int| 0 <= i <= s.len() && utf8_len(#[trigger] s.take(i)) == b
}

/// The character index at a byte boundary is the unique prefix length with that many bytes.
pub proof fn lemma_char_index_at(s: Seq<char>, b: int, i: int)
    requires
        0 <= i <= s.len(),
        utf8_len(s.take(i)) == b,
    ensures
        char_index_at(s, b) == i,
{
    let j = char_index_at(s, b);
    assert(0 <= j <= s.len() && utf8_len(s.take(j)) == b);
    if j < i {
        lemma_utf8_len_mono(s, j, i);
    } else if i < j {
        lemma_utf8_len_mono(s, i, j);
    }
}

/// Index of the character starting at byte offset `b`, when `b` is a boundary.
pub fn char_index_of_byte(s: &[char], b: usize) -> (r: Option<usize>)
    ensures
        match r {
            Some(i) => i <= s@.len() && utf8_len(s@.take(i as int)) == b && char_index_at(s@, b as int) == i,
            None => !is_boundary(s@, b as int),
        },
{
    let mut acc: usize = 0;
    let mut i: usize = 0;
    assert(s@.take(0) =~= Seq::<char>::empty());
    while i < s.len() && acc < b
        invariant
            i <= s@.len(),
            acc == utf8_len(s@.take(i as int)),
            forall|j: int| 0 <= j < i ==> utf8_len(#[trigger] s@.take(j)) < b,
        decreases s@.len() - i,
    {
        proof {
            lemma_utf8_len_step(s@, i as int);
        }
        let w = char_width_exec(s[i]);
        if w > b - acc {
            proof {
                assert(!is_boundary(s@, b as int)) by {
                    if is_boundary(s@, b as int) {
                        let j = choose|j: int| 0 <= j <= s@.len() && utf8_len(#[trigger] s@.take(j)) == b;
                        if j > i + 1 {
                            lemma_utf8_len_mono(s@, i as int + 1, j);
                        }
                        if j == i + 1 {
                        }
                    }
                }
            }
            return None;
        }
        acc = acc + w;
        i += 1;
    }
    if acc == b {
        proof {
            lemma_char_index_at(s@, b as int, i as int);
        }
        Some(i)
    } else {
        proof {
            assert(!is_boundary(s@, b as int)) by {
                if is_boundary(s@, b as int) {
                    let j = choose|j: int| 0 <= j <= s@.len() && utf8_len(#[trigger] s@.take(j)) == b;
                    if j > i {
                        lemma_utf8_len_mono(s@, i as int, j);
                    }
                }
            }
        }
        None
    }
}

} // verus!
