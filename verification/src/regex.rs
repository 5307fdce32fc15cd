//! Regular expressions of `fancy_regex`: compiling a pattern, the
//! successive matches of a compiled pattern in a text, and splitting a text
//! at those matches. Texts and patterns are spoken of by their UTF-8 bytes.

use fancy_regex::Regex;
use vstd::prelude::*;
use vstd::string::StringSliceAdditionalSpecFns;
use vstd::utf8::{encode_utf8, is_char_boundary, is_continuation_byte, valid_utf8};

verus! {

broadcast use vstd::utf8::group_utf8_lib;

/// `fancy_regex::Regex`, a compiled regular expression, carried through as
/// an opaque value.
#[verifier::external_type_specification]
#[verifier::external_body]
pub struct ExRegex(Regex);

/// Whether `fancy_regex` accepts the pattern with these UTF-8 bytes.
pub uninterp spec fn regex_compiles(pattern: Seq<u8>) -> bool;

/// The byte ranges of the successive matches that the pattern finds in the
/// text, both given by their UTF-8 bytes; `None` where the engine gives up
/// (it stops at the first error, such as a backtracking limit).
pub uninterp spec fn regex_matches(pattern: Seq<u8>, text: Seq<u8>) -> Option<Seq<(usize, usize)>>;

/// Whether the byte is a character that has a meaning in a pattern: the
/// ASCII codes of `\ . + * ? ( ) | [ ] { } ^ $ #`, in this order.
pub open spec fn is_special_byte(b: u8) -> bool {
    b == 0x5c || b == 0x2e || b == 0x2b || b == 0x2a || b == 0x3f || b == 0x28 || b == 0x29 || b == 0x7c || b == 0x5b
        || b == 0x5d || b == 0x7b || b == 0x7d || b == 0x5e || b == 0x24 || b == 0x23
}

/// One byte of a text, written in a pattern so that it stands for itself:
/// newline (0x0a), tab (0x09) and carriage return (0x0d) as a backslash
/// (0x5c) followed by `n` (0x6e), `t` (0x74) or `r` (0x72); a character with
/// a meaning behind a backslash; any other byte as it is.
pub open spec fn quote_byte(b: u8) -> Seq<u8> {
    if b == 0x0a {
        seq![0x5cu8, 0x6eu8]
    } else if b == 0x09 {
        seq![0x5cu8, 0x74u8]
    } else if b == 0x0d {
        seq![0x5cu8, 0x72u8]
    } else if is_special_byte(b) {
        seq![0x5cu8, b]
    } else {
        seq![b]
    }
}

/// Every byte of a text quoted, one after the other.
pub open spec fn quote_bytes(text: Seq<u8>) -> Seq<u8>
    decreases text.len(),
{
    if text.len() == 0 {
        Seq::empty()
    } else {
        quote_bytes(text.drop_last()) + quote_byte(text.last())
    }
}

/// The pattern that matches exactly the given text: the text itself where
/// none of its characters has a meaning in a pattern, else every byte
/// quoted. All the characters concerned are single bytes, and the other
/// bytes of a multi-byte character are left as they are.
pub open spec fn regex_escaped(text: Seq<u8>) -> Seq<u8> {
    if exists|i: int| 0 <= i < text.len() && is_special_byte(#[trigger] text[i]) {
        quote_bytes(text)
    } else {
        text
    }
}

/// Ranges that lie in `bytes` on character boundaries, each starting where
/// or after the one before it ends.
pub open spec fn ranges_in_order(m: Seq<(usize, usize)>, bytes: Seq<u8>) -> bool {
    &&& forall|i: int|
        0 <= i < m.len() ==> #[trigger] m[i].0 <= m[i].1 <= bytes.len() && is_char_boundary(bytes, m[i].0 as int)
            && is_char_boundary(bytes, m[i].1 as int)
    &&& forall|i: int| 0 <= i < m.len() - 1 ==> #[trigger] m[i].1 <= m[i + 1].0
}

/// The pieces of a text of length `len` between the matches `m`: before
/// the first match, between each two, and after the last.
pub open spec fn split_pieces(m: Seq<(usize, usize)>, len: int) -> Seq<(int, int)> {
    Seq::new(
        m.len() + 1,
        |i: int|
            (
                if i == 0 {
                    0
                } else {
                    m[i - 1].1 as int
                },
                if i < m.len() {
                    m[i].0 as int
                } else {
                    len
                },
            ),
    )
}

/// A compiled regular expression, together with the pattern that it was
/// compiled from.
pub struct Pattern {
    source: String,
    compiled: Regex,
}

/// `std::str::from_utf8`: the text with these bytes, if they are valid
/// UTF-8.
#[verifier::external_body]
pub(crate) fn utf8_str(bytes: &[u8]) -> (r: Option<&str>)
    ensures
        r is Some <==> valid_utf8(bytes@),
        r matches Some(s) ==> s.spec_bytes() == bytes@,
{
    std::str::from_utf8(bytes).ok()
}

/// `fancy_regex::escape`: the pattern that matches exactly `text`. It
/// returns the text unchanged where it holds none of the characters
/// `\ . + * ? ( ) | [ ] { } ^ $ #`, else it puts a backslash before each of
/// those and writes newline, tab and carriage return as `\n`, `\t`, `\r`.
#[verifier::external_body]
pub(crate) fn escape(text: &str) -> (r: String)
    ensures
        encode_utf8(r@) == regex_escaped(text.spec_bytes()),
{
    fancy_regex::escape(text).into_owned()
}

/// The part of `text` from byte `start` to byte `end`.
pub fn substr(text: &str, start: usize, end: usize) -> (r: &str)
    requires
        start <= end <= text.spec_bytes().len(),
        is_char_boundary(text.spec_bytes(), start as int),
        is_char_boundary(text.spec_bytes(), end as int),
    ensures
        r.spec_bytes() == text.spec_bytes().subrange(start as int, end as int),
{
    let ghost bytes = text.spec_bytes();
    let (_, rest) = text.split_at(start);
    let ghost rb = rest.spec_bytes();
    proof {
        assert(valid_utf8(rb));
        let k = end - start;
        if 0 < k < rb.len() {
            assert(rb[k] == bytes[end as int]);
            assert(is_continuation_byte(rb[k]) == is_continuation_byte(bytes[end as int]));
        }
        assert(is_char_boundary(rb, 0));
        assert(is_char_boundary(rb, rb.len() as int));
        assert(is_char_boundary(rb, k));
    }
    let (piece, _) = rest.split_at(end - start);
    proof {
        assert(piece.spec_bytes() =~= bytes.subrange(start as int, end as int));
    }
    piece
}

impl Pattern {
    /// The UTF-8 bytes of the pattern that this was compiled from.
    pub closed spec fn source(&self) -> Seq<u8> {
        encode_utf8(self.source@)
    }

    /// `Regex::new`: compiles `pattern`, if `fancy_regex` accepts it.
    #[verifier::external_body]
    pub(crate) fn compile(pattern: &str) -> (r: Option<Pattern>)
        ensures
            r is Some <==> regex_compiles(pattern.spec_bytes()),
            r matches Some(p) ==> p.source() == pattern.spec_bytes(),
    {
        match Regex::new(pattern) {
            Ok(compiled) => Some(Pattern { source: pattern.to_string(), compiled }),
            Err(_) => None,
        }
    }

    /// `Regex::find_iter`, collected: the byte ranges of the successive
    /// matches in `text`, or `None` where the engine gave up. Matches do
    /// not overlap, come in order and lie on character boundaries.
    #[verifier::external_body]
    pub(crate) fn find_ranges(&self, text: &str) -> (r: Option<Vec<(usize, usize)>>)
        ensures
            r is Some <==> regex_matches(self.source(), text.spec_bytes()) is Some,
            r matches Some(v) ==> regex_matches(self.source(), text.spec_bytes()) == Some(v@)
                && ranges_in_order(v@, text.spec_bytes()),
    {
        self.compiled.find_iter(text).map(|m| m.map(|m| (m.start(), m.end()))).collect::<Result<Vec<(usize, usize)>, fancy_regex::Error>>().ok()
    }

    /// Splits `text` at the matches: the pieces before the first match,
    /// between each two and after the last, or `None` where the engine gave
    /// up.
    pub fn split<'t>(&self, text: &'t str) -> (r: Option<Vec<&'t str>>)
        ensures
            r is Some <==> regex_matches(self.source(), text.spec_bytes()) is Some,
            r is Some ==> {
                let v = r.unwrap();
                let pieces = split_pieces(
                    regex_matches(self.source(), text.spec_bytes()).unwrap(),
                    text.spec_bytes().len() as int,
                );
                &&& ranges_in_order(regex_matches(self.source(), text.spec_bytes()).unwrap(), text.spec_bytes())
                &&& v@.len() == pieces.len()
                &&& forall|i: int|
                    0 <= i < v@.len() ==> #[trigger] v@[i].spec_bytes() == text.spec_bytes().subrange(
                        pieces[i].0,
                        pieces[i].1,
                    )
            },
    {
        let ghost bytes = text.spec_bytes();
        let found = self.find_ranges(text);
        match found {
            None => None,
            Some(m) => {
                let ghost pieces = split_pieces(m@, bytes.len() as int);
                let mut out: Vec<&'t str> = Vec::new();
                let mut next_start: usize = 0;
                let mut i: usize = 0;
                proof {
                    assert(is_char_boundary(bytes, 0));
                }
                while i < m.len()
                    invariant
                        bytes == text.spec_bytes(),
                        ranges_in_order(m@, bytes),
                        pieces == split_pieces(m@, bytes.len() as int),
                        0 <= i <= m@.len(),
                        out@.len() == i,
                        next_start == pieces[i as int].0,
                        next_start <= bytes.len(),
                        is_char_boundary(bytes, next_start as int),
                        i < m@.len() ==> next_start <= m@[i as int].0,
                        forall|j: int| 0 <= j < i ==> #[trigger] out@[j].spec_bytes() == bytes.subrange(pieces[j].0, pieces[j].1),
                    decreases m@.len() - i,
                {
                    let (start, end) = m[i];
                    proof {
                        assert(m@[i as int].0 <= m@[i as int].1);
                    }
                    let piece = substr(text, next_start, start);
                    out.push(piece);
                    next_start = end;
                    i = i + 1;
                    proof {
                        if i < m@.len() {
                            assert(m@[i - 1].1 <= m@[i as int].0);
                        }
                    }
                }
                proof {
                    assert(is_char_boundary(bytes, bytes.len() as int));
                }
                let last = substr(text, next_start, text.as_bytes().len());
                out.push(last);
                Some(out)
            },
        }
    }
}

} // verus!
