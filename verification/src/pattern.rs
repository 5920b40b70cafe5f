//! Compiled regular expressions (the `regex` crate) and what the library does with
//! their matches: escaping literals, and cutting a Project Gutenberg text down to the
//! part between its start and end markers.

use vstd::prelude::*;

use crate::text::{char_index_at, char_index_of_byte, chars_of, is_boundary, slice_chars, string_of, utf8_len};

verus! {

broadcast use vstd::string::group_string_axioms;

#[verifier::external_type_specification]
#[verifier::external_body]
pub struct ExRegex(regex::Regex);

#[verifier::external_type_specification]
#[verifier::external_body]
pub struct ExRegexError(regex::Error);

/// Whether `regex::Regex::new` accepts `pattern`: valid syntax whose compiled form
/// fits the crate's default size limit.
pub uninterp spec fn regex_accepts(pattern: Seq<char>) -> bool;

/// The leftmost-first match of the regex `pattern` in `text` (`Regex::find`), as
/// the byte offsets of its start and end.
pub uninterp spec fn regex_find(pattern: Seq<char>, text: Seq<char>) -> Option<(usize, usize)>;

/// `text` with every non-overlapping match of the regex `pattern` replaced by `rep`
/// (`Regex::replace_all`).
pub uninterp spec fn regex_replace_all(pattern: Seq<char>, text: Seq<char>, rep: Seq<char>) -> Seq<char>;

/// The characters that have a meaning in regex syntax and are escaped by
/// `regex::escape`.
pub open spec fn is_meta(c: char) -> bool {
    c == '\\' || c == '.' || c == '+' || c == '*' || c == '?' || c == '(' || c == ')' || c == '|'
        || c == '[' || c == ']' || c == '{' || c == '}' || c == '^' || c == '$' || c == '#'
        || c == '&' || c == '-' || c == '~'
}

/// `s` with a backslash put before each meta character: a regex matching `s` literally.
pub open spec fn escaped(s: Seq<char>) -> Seq<char>
    decreases s.len(),
{
    if s.len() == 0 {
        Seq::empty()
    } else {
        escaped(s.drop_last()) + (if is_meta(s.last()) {
            seq!['\\', s.last()]
        } else {
            seq![s.last()]
        })
    }
}

/// Escapes `s` for use as a literal inside a regex (`regex::escape`): every meta
/// character gets a preceding backslash, nothing else changes.
#[verifier::external_body]
pub(crate) fn escape_literal(s: &str) -> (r: String)
    ensures
        r@ == escaped(s@),
{
    regex::escape(s)
}

/// Why a pattern could not be used.
#[derive(Debug, PartialEq, Eq, Structural, Clone, Copy)]
pub enum PatternError {
    /// The regex engine refused the pattern (bad syntax or too large).
    Rejected,
}

/// A compiled regular expression together with the pattern it was compiled from.
/// Only `Pattern::compile` builds one, so `re` is always the compilation of `source`.
pub struct Pattern {
    source: String,
    re: regex::Regex,
}

impl Pattern {
    /// The pattern text this regex was compiled from.
    pub closed spec fn source(&self) -> Seq<char> {
        self.source@
    }

    /// Compiles `src` (`regex::Regex::new`); it succeeds exactly when
    /// `regex_accepts(src)`, and the result remembers `src`.
    #[verifier::external_body]
    fn compile_raw(src: &str) -> (r: Result<Pattern, regex::Error>)
        ensures
            r is Ok <==> regex_accepts(src@),
            r matches Ok(p) ==> p.source() == src@,
    {
        match regex::Regex::new(src) {
            Ok(re) => Ok(Pattern { source: src.to_string(), re }),
            Err(e) => Err(e),
        }
    }

    /// Compiles the regex `src`.
    pub fn compile(src: &str) -> (r: Result<Pattern, PatternError>)
        ensures
            r is Ok <==> regex_accepts(src@),
            r matches Ok(p) ==> p.source() == src@,
            r matches Err(e) ==> e == PatternError::Rejected,
    {
        match Pattern::compile_raw(src) {
            Ok(p) => Ok(p),
            Err(_) => Err(PatternError::Rejected),
        }
    }

    /// The first match of this regex in `text` (`Regex::find`), as byte offsets. The
    /// crate documents that a match never ends before it starts and that both offsets
    /// fall on character boundaries of `text`.
    #[verifier::external_body]
    pub(crate) fn find_raw(&self, text: &str) -> (r: Option<(usize, usize)>)
        ensures
            r == regex_find(self.source(), text@),
            r matches Some(m) ==> m.0 <= m.1 <= utf8_len(text@) && is_boundary(text@, m.0 as int)
                && is_boundary(text@, m.1 as int),
    {
        match self.re.find(text) {
            Some(m) => Some((m.start(), m.end())),
            None => None,
        }
    }

    /// Every match of this regex in `text` replaced by `rep` (`Regex::replace_all`).
    #[verifier::external_body]
    pub(crate) fn replace_all_raw(&self, text: &str, rep: &str) -> (r: String)
        ensures
            r@ == regex_replace_all(self.source(), text@, rep@),
    {
        self.re.replace_all(text, rep).into_owned()
    }
}

/// The part of `text` between the end of the start marker's match and the start of the
/// end marker's match (byte offsets; no marker means the text's own start or end); the
/// whole text when that span is empty.
pub open spec fn strip_spec(
    text: Seq<char>,
    start: Option<(usize, usize)>,
    end: Option<(usize, usize)>,
) -> Seq<char> {
    let s: int = match start {
        Some(m) => m.1 as int,
        None => 0,
    };
    let e: int = match end {
        Some(m) => m.0 as int,
        None => utf8_len(text) as int,
    };
    if e > s {
        text.subrange(char_index_at(text, s), char_index_at(text, e))
    } else {
        text
    }
}

proof fn lemma_ends_are_boundaries(text: Seq<char>)
    ensures
        is_boundary(text, 0),
        is_boundary(text, utf8_len(text) as int),
{
    assert(text.take(0) =~= Seq::<char>::empty());
    assert(utf8_len(text.take(0)) == 0) by {
        assert(vstd::utf8::encode_utf8(Seq::<char>::empty()) =~= Seq::<u8>::empty());
    }
    assert(text.take(text.len() as int) =~= text);
}

/// Cuts `text` to the span between two marker matches (byte offsets on character
/// boundaries, as `Regex::find` gives them): after the start match and before the end
/// match, or the whole text when that span is empty.
pub fn strip_between(text: &str, start: Option<(usize, usize)>, end: Option<(usize, usize)>) -> (r: String)
    requires
        start matches Some(m) ==> m.1 <= utf8_len(text@) && is_boundary(text@, m.1 as int),
        end matches Some(m) ==> m.0 <= utf8_len(text@) && is_boundary(text@, m.0 as int),
    ensures
        r@ == strip_spec(text@, start, end),
{
    proof {
        lemma_ends_are_boundaries(text@);
    }
    let cs = chars_of(text);
    let nbytes = crate::text::byte_len(&cs);
    let s: usize = match start {
        Some(m) => m.1,
        None => 0,
    };
    let e: usize = match end {
        Some(m) => m.0,
        None => nbytes,
    };
    if e > s {
        let si = char_index_of_byte(&cs, s);
        let ei = char_index_of_byte(&cs, e);
        match (si, ei) {
            (Some(a), Some(b)) => {
                proof {
                    if a > b {
                        crate::text::lemma_utf8_len_mono(cs@, b as int, a as int);
                    }
                }
                let piece = slice_chars(&cs, a, b);
                string_of(&piece)
            },
            _ => {
                proof {
                    assert(false);
                }
                text.to_string()
            },
        }
    } else {
        text.to_string()
    }
}

/// Keeps the body of a Project Gutenberg text: what lies between the first match of
/// `start_re` (the "*** START OF ..." line) and the first match of `end_re`.
pub fn strip_boilerplate(text: &str, start_re: &Pattern, end_re: &Pattern) -> (r: String)
    ensures
        r@ == strip_spec(text@, regex_find(start_re.source(), text@), regex_find(end_re.source(), text@)),
{
    let start = start_re.find_raw(text);
    let end = end_re.find_raw(text);
    strip_between(text, start, end)
}

/// The pattern of the line that opens the body of a Project Gutenberg text.
pub fn gutenberg_start_source() -> (s: &'static str)
    ensures
        s@ == "(?im)^\\*\\*\\*\\s*START OF TH.*?PROJECT GUTENBERG.*?\\*\\*\\*\\s*$"@,
{
    "(?im)^\\*\\*\\*\\s*START OF TH.*?PROJECT GUTENBERG.*?\\*\\*\\*\\s*$"
}

/// The pattern of the line that closes the body of a Project Gutenberg text.
pub fn gutenberg_end_source() -> (s: &'static str)
    ensures
        s@ == "(?im)^\\*\\*\\*\\s*END OF TH.*?PROJECT GUTENBERG.*?\\*\\*\\*\\s*$"@,
{
    "(?im)^\\*\\*\\*\\s*END OF TH.*?PROJECT GUTENBERG.*?\\*\\*\\*\\s*$"
}

} // verus!
