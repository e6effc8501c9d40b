//! The mathematical model of source text scanning.
//!
//! Source text is modelled as a sequence of characters.  This module defines
//! the byte length of a character prefix (the `index` of a `Location`), the
//! line and column counts derived from the characters advanced over, the
//! endpoints of maximal character runs (whitespace, identifier and numeric
//! runs), and literal/word matching at a position.

use vstd::prelude::*;
use vstd::utf8::encode_scalar;
use vstd::utf8::encode_utf8;

verus! {

broadcast use vstd::utf8::char_is_scalar;

/// Whitespace, in the sense of `char::is_whitespace`.
pub uninterp spec fn is_space(c: char) -> bool;

/// Alphanumeric, in the sense of `char::is_alphanumeric`.
pub uninterp spec fn is_alnum(c: char) -> bool;

/// Numeric, in the sense of `char::is_numeric`.
pub uninterp spec fn is_numeric(c: char) -> bool;

/// Relies on `char::is_whitespace`: whether a character has the Unicode
/// `White_Space` property, a fixed function of the character alone.
#[verifier::external_body]
pub fn char_is_space(c: char) -> (b: bool)
    ensures
        b == is_space(c),
{
    c.is_whitespace()
}

/// Relies on `char::is_alphanumeric`: whether a character is in the Unicode
/// `Alphabetic` or `Number` categories, a fixed function of the character.
#[verifier::external_body]
pub fn char_is_alnum(c: char) -> (b: bool)
    ensures
        b == is_alnum(c),
{
    c.is_alphanumeric()
}

/// Relies on `char::is_numeric`: whether a character is in the Unicode
/// `Number` categories, a fixed function of the character alone.
#[verifier::external_body]
pub fn char_is_numeric(c: char) -> (b: bool)
    ensures
        b == is_numeric(c),
{
    c.is_numeric()
}

/// Relies on `char::from_u32`: the documentation promises `Some` exactly for
/// code points that are Unicode scalar values (not surrogates, not above
/// `char::MAX`), carrying the same code point.
#[verifier::external_body]
pub fn char_from_u32(v: u32) -> (r: Option<char>)
    ensures
        r is Some <==> vstd::utf8::is_scalar(v),
        r matches Some(c) ==> c as u32 == v,
{
    char::from_u32(v)
}

/// Relies on `String::push`: appends exactly the given character.
#[verifier::external_body]
pub fn push_char(s: &mut String, c: char)
    ensures
        final(s)@ == old(s)@.push(c),
{
    s.push(c);
}

/// The number of bytes of the UTF-8 encoding of one character.
pub open spec fn char_bytes(c: char) -> nat {
    encode_scalar(c as u32).len()
}

/// The number of bytes of the UTF-8 encoding of a character sequence.
pub open spec fn byte_len(s: Seq<char>) -> nat
    decreases s.len(),
{
    if s.len() == 0 {
        0
    } else {
        char_bytes(s[0]) + byte_len(s.drop_first())
    }
}

/// The UTF-8 length of one character, computed from its code point.
pub fn utf8_len_of(c: char) -> (n: usize)
    ensures
        n == char_bytes(c),
{
    let v = c as u32;
    if v < 0x80 {
        1
    } else if v < 0x800 {
        2
    } else if v < 0x10000 {
        3
    } else {
        4
    }
}

/// Appending a character adds its encoding length to the byte length.
pub proof fn lemma_byte_len_push(s: Seq<char>, c: char)
    ensures
        byte_len(s.push(c)) == byte_len(s) + char_bytes(c),
    decreases s.len(),
{
    if s.len() == 0 {
        assert(s.push(c).drop_first() =~= Seq::<char>::empty());
        assert(s.push(c)[0] == c);
        assert(byte_len(s.push(c)) == char_bytes(c) + byte_len(Seq::<char>::empty()));
        assert(byte_len(s.push(c)) == char_bytes(c));
    } else {
        assert(s.push(c)[0] == s[0]);
        assert(s.push(c).drop_first() =~= s.drop_first().push(c));
        lemma_byte_len_push(s.drop_first(), c);
        assert(byte_len(s.push(c)) == char_bytes(s[0]) + byte_len(s.drop_first().push(c)));
        assert(byte_len(s.push(c)) == char_bytes(s[0]) + byte_len(s.drop_first()) + char_bytes(c));
        assert(byte_len(s) == char_bytes(s[0]) + byte_len(s.drop_first()));
    }
}

/// The byte length of a prefix, one character longer.
pub proof fn lemma_byte_len_take_step(s: Seq<char>, p: int)
    requires
        0 <= p < s.len(),
    ensures
        byte_len(s.take(p + 1)) == byte_len(s.take(p)) + char_bytes(s[p]),
{
    assert(s.take(p + 1) =~= s.take(p).push(s[p]));
    lemma_byte_len_push(s.take(p), s[p]);
}

/// Byte length dominates character count, and prefixes take no more bytes
/// than the whole.
pub proof fn lemma_byte_len_mono(s: Seq<char>, p: int)
    requires
        0 <= p <= s.len(),
    ensures
        byte_len(s.take(p)) + (s.len() - p) <= byte_len(s),
        p <= byte_len(s.take(p)),
    decreases s.len() - p,
{
    if p < s.len() {
        lemma_byte_len_take_step(s, p);
        lemma_byte_len_mono(s, p + 1);
        assert(s.take(s.len() as int) =~= s);
    } else {
        assert(s.take(p) =~= s);
    }
    if p > 0 {
        lemma_byte_len_take_step(s, p - 1);
        lemma_byte_len_mono_aux(s, p - 1);
    }
}

proof fn lemma_byte_len_mono_aux(s: Seq<char>, p: int)
    requires
        0 <= p <= s.len(),
    ensures
        p <= byte_len(s.take(p)),
    decreases p,
{
    if p > 0 {
        lemma_byte_len_take_step(s, p - 1);
        lemma_byte_len_mono_aux(s, p - 1);
    }
}

/// UTF-8 encoding distributes over concatenation.
pub proof fn lemma_encode_utf8_concat(a: Seq<char>, b: Seq<char>)
    ensures
        encode_utf8(a + b) == encode_utf8(a) + encode_utf8(b),
    decreases a.len(),
{
    if a.len() == 0 {
        assert(a + b =~= b);
        assert(encode_utf8(a) + encode_utf8(b) =~= encode_utf8(b));
    } else {
        assert((a + b)[0] == a[0]);
        assert((a + b).drop_first() =~= a.drop_first() + b);
        lemma_encode_utf8_concat(a.drop_first(), b);
        assert(encode_scalar(a[0] as u32) + (encode_utf8(a.drop_first()) + encode_utf8(b))
            =~= (encode_scalar(a[0] as u32) + encode_utf8(a.drop_first())) + encode_utf8(b));
    }
}

/// `byte_len` agrees with the byte length of the UTF-8 encoding, so a
/// `Location`'s `index` is a genuine byte offset into the encoded source.
pub proof fn lemma_byte_len_is_utf8(s: Seq<char>)
    ensures
        byte_len(s) == encode_utf8(s).len(),
    decreases s.len(),
{
    if s.len() > 0 {
        lemma_byte_len_is_utf8(s.drop_first());
    }
}

/// The number of newline characters in a sequence: the `line` reached after
/// advancing over it from line zero.
pub open spec fn line_cnt(s: Seq<char>) -> nat
    decreases s.len(),
{
    if s.len() == 0 {
        0
    } else if s.last() == '\n' {
        line_cnt(s.drop_last()) + 1
    } else {
        line_cnt(s.drop_last())
    }
}

/// The number of characters after the last newline: the `column` reached
/// after advancing over the sequence from column zero.
pub open spec fn col_cnt(s: Seq<char>) -> nat
    decreases s.len(),
{
    if s.len() == 0 {
        0
    } else if s.last() == '\n' {
        0
    } else {
        col_cnt(s.drop_last()) + 1
    }
}

/// Line and column counts never exceed the number of characters advanced.
pub proof fn lemma_line_col_bounds(s: Seq<char>)
    ensures
        line_cnt(s) <= s.len(),
        col_cnt(s) <= s.len(),
    decreases s.len(),
{
    if s.len() > 0 {
        lemma_line_col_bounds(s.drop_last());
    }
}

/// Line and column of a prefix, one character longer.
pub proof fn lemma_line_col_take_step(s: Seq<char>, p: int)
    requires
        0 <= p < s.len(),
    ensures
        s[p] == '\n' ==> line_cnt(s.take(p + 1)) == line_cnt(s.take(p)) + 1
            && col_cnt(s.take(p + 1)) == 0,
        s[p] != '\n' ==> line_cnt(s.take(p + 1)) == line_cnt(s.take(p))
            && col_cnt(s.take(p + 1)) == col_cnt(s.take(p)) + 1,
{
    assert(s.take(p + 1) =~= s.take(p).push(s[p]));
    assert(s.take(p).push(s[p]).drop_last() =~= s.take(p));
}

/// The position at the end of the maximal whitespace run starting at `p`.
pub open spec fn ws_end(s: Seq<char>, p: int) -> int
    decreases s.len() - p
        when 0 <= p <= s.len()
{
    if p < s.len() && is_space(s[p]) {
        ws_end(s, p + 1)
    } else {
        p
    }
}

/// Basic facts about `ws_end`: it stays in bounds, skips only whitespace,
/// and stops at the first non-whitespace character.
pub proof fn lemma_ws_end(s: Seq<char>, p: int)
    requires
        0 <= p <= s.len(),
    ensures
        p <= ws_end(s, p) <= s.len(),
        forall|i: int| p <= i < ws_end(s, p) ==> is_space(#[trigger] s[i]),
        ws_end(s, p) < s.len() ==> !is_space(s[ws_end(s, p)]),
    decreases s.len() - p,
{
    if p < s.len() && is_space(s[p]) {
        lemma_ws_end(s, p + 1);
    }
}

/// A position that ends a whitespace run and stops at non-whitespace is
/// exactly `ws_end`.
pub proof fn lemma_ws_end_unique(s: Seq<char>, p: int, q: int)
    requires
        0 <= p <= q <= s.len(),
        forall|i: int| p <= i < q ==> is_space(#[trigger] s[i]),
        q < s.len() ==> !is_space(s[q]),
    ensures
        q == ws_end(s, p),
    decreases q - p,
{
    if p < q {
        lemma_ws_end_unique(s, p + 1, q);
    }
}

/// Skipping whitespace twice moves no further than once.
pub proof fn lemma_ws_end_idem(s: Seq<char>, p: int)
    requires
        0 <= p <= s.len(),
    ensures
        ws_end(s, ws_end(s, p)) == ws_end(s, p),
{
    lemma_ws_end(s, p);
    lemma_ws_end_unique(s, ws_end(s, p), ws_end(s, p));
}

/// The position at the end of the maximal non-whitespace run starting at `p`.
pub open spec fn nonws_end(s: Seq<char>, p: int) -> int
    decreases s.len() - p
        when 0 <= p <= s.len()
{
    if p < s.len() && !is_space(s[p]) {
        nonws_end(s, p + 1)
    } else {
        p
    }
}

/// A position that ends a non-whitespace run and stops at whitespace is
/// exactly `nonws_end`.
pub proof fn lemma_nonws_end_unique(s: Seq<char>, p: int, q: int)
    requires
        0 <= p <= q <= s.len(),
        forall|i: int| p <= i < q ==> !is_space(#[trigger] s[i]),
        q < s.len() ==> is_space(s[q]),
    ensures
        q == nonws_end(s, p),
    decreases q - p,
{
    if p < q {
        lemma_nonws_end_unique(s, p + 1, q);
    }
}

/// Among two prefixes, the longer one takes at least one byte per extra
/// character.
pub proof fn lemma_byte_len_prefix(s: Seq<char>, p: int, q: int)
    requires
        0 <= p <= q <= s.len(),
    ensures
        byte_len(s.take(p)) + (q - p) <= byte_len(s.take(q)),
{
    assert(s.take(q).take(p) =~= s.take(p));
    lemma_byte_len_mono(s.take(q), p);
}

/// A byte offset determines the character position: distinct positions have
/// distinct byte offsets.
pub proof fn lemma_byte_pos_unique(s: Seq<char>, p: int, q: int)
    requires
        0 <= p <= s.len(),
        0 <= q <= s.len(),
        byte_len(s.take(p)) == byte_len(s.take(q)),
    ensures
        p == q,
{
    if p < q {
        lemma_byte_len_prefix(s, p, q);
    }
    if q < p {
        lemma_byte_len_prefix(s, q, p);
    }
}

/// A character that may appear in an identifier: alphanumeric or `_`.
pub open spec fn is_ident_char(c: char) -> bool {
    is_alnum(c) || c == '_'
}

/// A character that may appear in a numeric literal: numeric or `_`.
pub open spec fn is_num_char(c: char) -> bool {
    is_numeric(c) || c == '_'
}

/// The position at the end of the maximal identifier-character run at `p`.
pub open spec fn ident_end(s: Seq<char>, p: int) -> int
    decreases s.len() - p
        when 0 <= p <= s.len()
{
    if p < s.len() && is_ident_char(s[p]) {
        ident_end(s, p + 1)
    } else {
        p
    }
}

/// A position that ends an identifier run and stops at a non-identifier
/// character is exactly `ident_end`.
pub proof fn lemma_ident_end_unique(s: Seq<char>, p: int, q: int)
    requires
        0 <= p <= q <= s.len(),
        forall|i: int| p <= i < q ==> is_ident_char(#[trigger] s[i]),
        q < s.len() ==> !is_ident_char(s[q]),
    ensures
        q == ident_end(s, p),
    decreases q - p,
{
    if p < q {
        lemma_ident_end_unique(s, p + 1, q);
    }
}

/// The position at the end of the maximal numeric-character run at `p`.
pub open spec fn num_end(s: Seq<char>, p: int) -> int
    decreases s.len() - p
        when 0 <= p <= s.len()
{
    if p < s.len() && is_num_char(s[p]) {
        num_end(s, p + 1)
    } else {
        p
    }
}

/// A position that ends a numeric run and stops at a non-numeric character
/// is exactly `num_end`.
pub proof fn lemma_num_end_unique(s: Seq<char>, p: int, q: int)
    requires
        0 <= p <= q <= s.len(),
        forall|i: int| p <= i < q ==> is_num_char(#[trigger] s[i]),
        q < s.len() ==> !is_num_char(s[q]),
    ensures
        q == num_end(s, p),
    decreases q - p,
{
    if p < q {
        lemma_num_end_unique(s, p + 1, q);
    }
}

/// The literal `w` occurs in `s` at position `p`.
pub open spec fn matches_at(s: Seq<char>, p: int, w: Seq<char>) -> bool {
    &&& 0 <= p
    &&& p + w.len() <= s.len()
    &&& s.subrange(p, p + w.len() as int) == w
}

/// The literal `w` occurs at `p` as a whole word: the character after it, if
/// any, is whitespace.
pub open spec fn word_at(s: Seq<char>, p: int, w: Seq<char>) -> bool {
    &&& matches_at(s, p, w)
    &&& w.len() > 0
    &&& (p + w.len() == s.len() || is_space(s[p + w.len()]))
}

/// The value of a hexadecimal digit, or 16 for any other character.
pub open spec fn hex_val(c: char) -> int {
    let v = c as u32;
    if '0' <= c && c <= '9' {
        v - '0' as u32
    } else if 'a' <= c && c <= 'f' {
        v - 'a' as u32 + 10
    } else if 'A' <= c && c <= 'F' {
        v - 'A' as u32 + 10
    } else {
        16
    }
}

/// A hexadecimal digit, as `char::is_digit(16)` accepts them.
pub open spec fn is_hex_digit(c: char) -> bool {
    hex_val(c) < 16
}

/// The value of a hexadecimal digit, or `None` for any other character.
pub fn hex_digit_val(c: char) -> (r: Option<u32>)
    ensures
        r is Some <==> is_hex_digit(c),
        r matches Some(v) ==> v == hex_val(c),
{
    let v = c as u32;
    if '0' as u32 <= v && v <= '9' as u32 {
        Some(v - '0' as u32)
    } else if 'a' as u32 <= v && v <= 'f' as u32 {
        Some(v - 'a' as u32 + 10)
    } else if 'A' as u32 <= v && v <= 'F' as u32 {
        Some(v - 'A' as u32 + 10)
    } else {
        None
    }
}

} // verus!
