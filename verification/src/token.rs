//! Positions, spans, tokens and parse errors.
//!
//! A `Location` is a point in the source text: `index` is its byte offset in
//! the UTF-8 encoding, `line` counts the newlines advanced over, and
//! `column` the characters since the last newline.  A `Span` is a pair of
//! locations, a `Token` is a span together with its textual content, and an
//! `Error` is a fatal parse failure with the location it was raised at.

use vstd::prelude::*;
use vstd::utf8::encode_utf8;
use crate::text::byte_len;
use crate::text::col_cnt;
use crate::text::lemma_byte_len_is_utf8;
use crate::text::lemma_byte_len_prefix;
use crate::text::lemma_encode_utf8_concat;
use crate::text::line_cnt;

verus! {

/// A point in the source text.  `index` is the byte offset; `line` and
/// `column` are derived by counting the characters advanced over.
#[derive(Debug, Copy, Clone, PartialEq, Eq, Structural)]
pub struct Location {
    pub line: usize,
    pub column: usize,
    pub index: usize,
}

/// A half-open range of the source text, from `start` (inclusive) to `end`
/// (exclusive), with `start.index <= end.index`.
#[derive(Debug, Copy, Clone)]
pub struct Span {
    pub start: Location,
    pub end: Location,
}

/// A token's content: either a slice of the source buffer itself (the
/// common, zero-copy case) or an independently owned decoded string.
#[derive(Debug)]
pub enum Content<'a> {
    Borrowed(&'a str),
    Owned(String),
}

/// A lexeme: the span it was scanned from, plus its content.  When no
/// escape decoding took place, the content is byte-identical to the source
/// slice described by the span.
#[derive(Debug)]
pub struct Token<'a> {
    pub span: Span,
    pub content: Content<'a>,
}

/// A fatal parse failure: a message and the exact location of the character
/// at which the expectation was violated.
#[derive(Debug, Clone)]
pub struct Error {
    pub message: String,
    pub location: Location,
}

/// `l` is the location of character position `p` in source `s`: its byte
/// offset, line and column are those reached by advancing over `s.take(p)`.
pub open spec fn loc_is(l: Location, s: Seq<char>, p: int) -> bool {
    &&& l.index as nat == byte_len(s.take(p))
    &&& l.line as nat == line_cnt(s.take(p))
    &&& l.column as nat == col_cnt(s.take(p))
}

/// `sp` covers character positions `p` (inclusive) to `q` (exclusive) of `s`.
pub open spec fn span_is(sp: Span, s: Seq<char>, p: int, q: int) -> bool {
    &&& loc_is(sp.start, s, p)
    &&& loc_is(sp.end, s, q)
}

/// A token scanned verbatim from positions `p..q` of `s`: its span covers
/// the range, and its content borrows the very characters of the range.
pub open spec fn token_from(t: Token<'_>, s: Seq<char>, p: int, q: int) -> bool {
    &&& span_is(t.span, s, p, q)
    &&& t.content is Borrowed
    &&& t.text() == s.subrange(p, q)
}

/// The error's location is a real position of this source text: the
/// location of some character position within it (never a fabricated
/// offset).  Every fatal parse failure of this crate satisfies it.
pub open spec fn err_in(e: Error, s: Seq<char>) -> bool {
    exists|q: int|
        #![trigger loc_is(e.location, s, q)]
        0 <= q <= s.len() && loc_is(e.location, s, q)
}

/// An error whose location describes a position of `s` points into `s`.
pub proof fn lemma_err_at(e: Error, s: Seq<char>, q: int)
    requires
        0 <= q <= s.len(),
        loc_is(e.location, s, q),
    ensures
        err_in(e, s),
{
    assert(0 <= q <= s.len() && loc_is(e.location, s, q));
}

/// Law: the byte offset never decreases as the cursor moves forward.  Any
/// two locations reached by scanning forward over one source compare by
/// their positions, so every sequence of consume operations yields
/// monotonically non-decreasing `index` values.
pub proof fn lemma_index_monotone(l1: Location, l2: Location, s: Seq<char>, p1: int, p2: int)
    requires
        loc_is(l1, s, p1),
        loc_is(l2, s, p2),
        0 <= p1 <= p2 <= s.len(),
    ensures
        l1.index <= l2.index,
{
    lemma_byte_len_prefix(s, p1, p2);
}

/// Law: a token scanned verbatim (not escape-decoded) has content
/// byte-identical to the slice of the UTF-8 encoded source between its
/// span's `start.index` and `end.index`.
pub proof fn lemma_token_bytes(t: Token<'_>, s: Seq<char>, p: int, q: int)
    requires
        token_from(t, s, p, q),
        0 <= p <= q <= s.len(),
    ensures
        encode_utf8(t.text()) == encode_utf8(s).subrange(
            t.span.start.index as int,
            t.span.end.index as int,
        ),
{
    let a = s.take(p);
    let mid = s.subrange(p, q);
    assert(s.take(q) =~= a + mid);
    assert(s =~= s.take(q) + s.subrange(q, s.len() as int));
    lemma_encode_utf8_concat(a, mid);
    lemma_encode_utf8_concat(s.take(q), s.subrange(q, s.len() as int));
    lemma_byte_len_is_utf8(a);
    lemma_byte_len_is_utf8(s.take(q));
    assert(encode_utf8(s).subrange(
        t.span.start.index as int,
        t.span.end.index as int,
    ) =~= encode_utf8(mid));
}

impl<'a> Token<'a> {
    /// The characters of this token's content, whether borrowed or owned.
    pub open spec fn text(&self) -> Seq<char> {
        match self.content {
            Content::Borrowed(c) => c@,
            Content::Owned(ref c) => c@,
        }
    }

    /// The token's content.  Comparisons against plain strings go through
    /// this; the span plays no part in them.
    pub fn content(&self) -> (r: &str)
        ensures
            r@ == self.text(),
    {
        match &self.content {
            Content::Borrowed(c) => c,
            Content::Owned(c) => c.as_str(),
        }
    }
}

impl Location {
    /// The origin: line 0, column 0, byte offset 0.
    pub fn zero() -> (r: Location)
        ensures
            r.line == 0 && r.column == 0 && r.index == 0,
            forall|s: Seq<char>| loc_is(r, s, 0),
    {
        proof {
            assert forall|s: Seq<char>| loc_is(
                Location { line: 0, column: 0, index: 0 },
                s,
                0,
            ) by {
                assert(s.take(0) =~= Seq::<char>::empty());
            }
        }
        Location { line: 0, column: 0, index: 0 }
    }
}

impl Span {
    /// The span's length in bytes (not characters).
    pub fn len(&self) -> (r: usize)
        requires
            self.start.index <= self.end.index,
        ensures
            r == self.end.index - self.start.index,
    {
        self.end.index - self.start.index
    }
}

} // verus!
