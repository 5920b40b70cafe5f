//! Decimal integers: parsing (`i64::from_str` rules) and formatting.

use vstd::prelude::*;

verus! {

/// `c` is an ASCII decimal digit.
pub open spec fn is_digit(c: char) -> bool {
    '0' <= c && c <= '9'
}

/// Value of a sequence of ASCII digits.
pub open spec fn digits_value(s: Seq<char>) -> nat
    decreases s.len(),
{
    if s.len() == 0 {
        0
    } else {
        digits_value(s.drop_last()) * 10 + ((s.last() as int) - 48) as nat
    }
}

/// Every character is an ASCII digit.
pub open spec fn all_digits(s: Seq<char>) -> bool {
    forall|i: int| 0 <= i < s.len() ==> #[trigger] is_digit(s[i])
}

/// `i64::from_str`: an optional `+` or `-` followed by at least one ASCII digit, and a
/// value that fits in an `i64`.
pub open spec fn parse_i64_spec(s: Seq<char>) -> Option<i64> {
    let neg = s.len() > 0 && s[0] == '-';
    let signed = s.len() > 0 && (s[0] == '-' || s[0] == '+');
    let ds = if signed { s.skip(1) } else { s };
    if ds.len() == 0 || !all_digits(ds) {
        None
    } else if neg {
        if digits_value(ds) <= 9223372036854775808 {
            Some((0 - digits_value(ds)) as i64)
        } else {
            None
        }
    } else {
        if digits_value(ds) <= 9223372036854775807 {
            Some(digits_value(ds) as i64)
        } else {
            None
        }
    }
}

/// Value of an ASCII digit.
fn digit_value(c: char) -> (d: u64)
    requires
        is_digit(c),
    ensures
        d == (c as int) - 48,
        d <= 9,
{
    if c == '0' { 0 } else if c == '1' { 1 } else if c == '2' { 2 } else if c == '3' { 3 } else if c == '4' {
        4
    } else if c == '5' { 5 } else if c == '6' { 6 } else if c == '7' { 7 } else if c == '8' { 8 } else { 9 }
}

proof fn lemma_parse_not_digits(s: Seq<char>, start: int)
    requires
        s.len() > 0,
        start == (if s[0] == '-' || s[0] == '+' { 1int } else { 0 }),
        !all_digits(s.skip(start)),
    ensures
        parse_i64_spec(s) is None,
{
    if start == 0 {
        assert(s.skip(0) =~= s);
    }
}

/// Parse a decimal `i64` (`str::parse::<i64>().ok()`).
pub fn parse_i64(s: &[char]) -> (r: Option<i64>)
    ensures
        r == parse_i64_spec(s@),
{
    let n = s.len();
    if n == 0 {
        return None;
    }
    let neg = s[0] == '-';
    let start: usize = if s[0] == '-' || s[0] == '+' { 1 } else { 0 };
    let ghost ds = if start == 1 { s@.skip(1) } else { s@ };
    assert(ds =~= s@.skip(start as int));
    if start >= n {
        return None;
    }
    let limit: u64 = 9223372036854775808;
    let mut v: u64 = 0;
    let mut i: usize = start;
    while i < n
        invariant
            start <= i <= n == s@.len(),
            ds == s@.skip(start as int),
            all_digits(ds.take(i - start)),
            v == digits_value(ds.take(i - start)),
            v <= limit,
            limit == 9223372036854775808u64,
            n > 0,
            start == (if s@[0] == '-' || s@[0] == '+' { 1int } else { 0 }),
            neg == (s@[0] == '-'),
        decreases n - i,
    {
        let c = s[i];
        proof {
            assert(ds.take(i - start + 1).drop_last() =~= ds.take(i - start));
            assert(ds.take(i - start + 1).last() == c);
        }
        if !('0' <= c && c <= '9') {
            proof {
                assert(!all_digits(ds)) by {
                    assert(ds[i - start] == c);
                    assert(!is_digit(ds[i - start]));
                }
                lemma_parse_not_digits(s@, start as int);
            }
            return None;
        }
        let d = digit_value(c);
        if v > (limit - d) / 10 {
            proof {
                assert forall|j: int| 0 <= j < ds.take(i - start + 1).len() implies #[trigger] is_digit(ds.take(i - start + 1)[j]) by {
                    if j < i - start {
                        assert(ds.take(i - start + 1)[j] == ds.take(i - start)[j]);
                    }
                }
                assert(digits_value(ds.take(i - start + 1)) > limit);
                lemma_prefix_value_le(ds, i - start + 1);
                if start == 0 {
                    assert(s@.skip(0) =~= s@);
                }
            }
            return None;
        }
        v = v * 10 + d;
        proof {
            assert forall|j: int| 0 <= j < ds.take(i - start + 1).len() implies #[trigger] is_digit(ds.take(i - start + 1)[j]) by {
                if j < i - start {
                    assert(ds.take(i - start + 1)[j] == ds.take(i - start)[j]);
                }
            }
        }
        i += 1;
    }
    proof {
        assert(ds.take(i - start) =~= ds);
    }
    if neg {
        if v == limit {
            Some(i64::MIN)
        } else {
            Some(0 - (v as i64))
        }
    } else {
        if v > 9223372036854775807 {
            None
        } else {
            Some(v as i64)
        }
    }
}

proof fn lemma_prefix_value_le(ds: Seq<char>, k: int)
    requires
        0 <= k <= ds.len(),
        all_digits(ds.take(k)),
    ensures
        all_digits(ds) ==> digits_value(ds.take(k)) <= digits_value(ds),
    decreases ds.len() - k,
{
    if k < ds.len() && all_digits(ds) {
        assert forall|j: int| 0 <= j < ds.take(k + 1).len() implies #[trigger] is_digit(ds.take(k + 1)[j]) by {
            assert(ds.take(k + 1)[j] == ds[j]);
        }
        lemma_prefix_value_le(ds, k + 1);
        assert(ds.take(k + 1).drop_last() =~= ds.take(k));
    }
    if k == ds.len() {
        assert(ds.take(k) =~= ds);
    }
}


/// The ASCII digit for `d < 10`.
pub open spec fn digit_char(d: nat) -> char {
    (48 + d) as char
}

/// Decimal representation of `n` (no leading zeros; `"0"` for zero).
pub open spec fn decimal(n: nat) -> Seq<char>
    decreases n,
{
    if n < 10 {
        seq![digit_char(n)]
    } else {
        decimal(n / 10).push(digit_char(n % 10))
    }
}

fn digit_to_char(d: u64) -> (c: char)
    requires
        d < 10,
    ensures
        c == digit_char(d as nat),
{
    if d == 0 { '0' } else if d == 1 { '1' } else if d == 2 { '2' } else if d == 3 { '3' } else if d == 4 {
        '4'
    } else if d == 5 { '5' } else if d == 6 { '6' } else if d == 7 { '7' } else if d == 8 { '8' } else { '9' }
}

/// Decimal digits of `n` (`to_string` of an unsigned integer).
pub fn decimal_chars(n: u64) -> (v: Vec<char>)
    ensures
        v@ == decimal(n as nat),
    decreases n,
{
    if n < 10 {
        let mut v: Vec<char> = Vec::new();
        v.push(digit_to_char(n));
        assert(v@ =~= decimal(n as nat));
        v
    } else {
        let mut v = decimal_chars(n / 10);
        v.push(digit_to_char(n % 10));
        v
    }
}

} // verus!
