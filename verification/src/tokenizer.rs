//! The scanning engine: a mutable cursor over an immutable source text.
//!
//! Every public scanning operation first skips the run of whitespace at the
//! cursor ("shimmy"), so callers never skip whitespace themselves and every
//! span reported starts after it.  Peek operations leave the cursor at the
//! whitespace-skipped position; consume operations commit it to the end of
//! the match.  An operation that would need a character that is not there
//! reports `None`; turning an absence into an error is the caller's business
//! (see `expect`).

use vstd::prelude::*;
use vstd::string::StrSliceExecFns;
use vstd::string::StringExecFns;
use crate::text::byte_len;
use crate::text::char_bytes;
use crate::text::char_is_space;
use crate::text::is_space;
use crate::text::lemma_byte_len_is_utf8;
use crate::text::lemma_byte_len_mono;
use crate::text::lemma_byte_len_prefix;
use crate::text::lemma_byte_pos_unique;
use crate::text::lemma_byte_len_take_step;
use crate::text::lemma_line_col_bounds;
use crate::text::lemma_line_col_take_step;
use crate::text::lemma_ws_end_unique;
use crate::text::lemma_ws_end_idem;
use crate::text::matches_at;
use crate::text::nonws_end;
use crate::text::lemma_nonws_end_unique;
use crate::text::utf8_len_of;
use crate::text::word_at;
use crate::text::ws_end;
use crate::token::loc_is;
use crate::token::span_is;
use crate::token::token_from;
use crate::token::Content;
use crate::token::Error;
use crate::token::Location;
use crate::token::Span;
use crate::token::Token;

verus! {


/// The span covers a maximal run of characters accepted by `f`, starting at
/// the whitespace-skipped position `w`: every character of the run admits
/// `true` from `f`, and the run stops at the end of the text or at a
/// character that admits `false`.
pub open spec fn run_span<F: Fn(char) -> bool>(sp: Span, t: Seq<char>, w: int, f: F) -> bool {
    &&& loc_is(sp.start, t, w)
    &&& exists|q: int|
        #![trigger loc_is(sp.end, t, q)]
        w < q <= t.len() && loc_is(sp.end, t, q) && (forall|i: int|
            w <= i < q ==> call_ensures(f, (t[i],), true)) && (q == t.len() || call_ensures(
            f,
            (t[q],),
            false,
        ))
}

/// The scanning state: the full, immutable source text and a cursor that
/// advances monotonically over it.  `pos` is the cursor's character index;
/// `loc` is the same position as byte offset, line and column.
pub struct Tokenizer<'a> {
    source: &'a str,
    n_chars: usize,
    n_bytes: usize,
    pos: usize,
    loc: Location,
}

impl<'a> Tokenizer<'a> {
    /// The source text, as a character sequence.
    pub closed spec fn src(self) -> Seq<char> {
        self.source@
    }

    /// The cursor, as a character position into `src()`.
    pub closed spec fn at(self) -> int {
        self.pos as int
    }

    /// The cursor, as a `Location`.
    pub closed spec fn cur_loc(self) -> Location {
        self.loc
    }

    /// Well-formedness: the cursor is inside the source and the cached
    /// lengths and the location agree with the model.
    pub closed spec fn wf(self) -> bool {
        &&& self.pos <= self.source@.len()
        &&& self.n_chars == self.source@.len()
        &&& self.n_bytes as nat == byte_len(self.source@)
        &&& loc_is(self.loc, self.source@, self.pos as int)
    }

    /// The cursor's location always describes the cursor's position.
    pub proof fn lemma_wf_loc(self)
        requires
            self.wf(),
        ensures
            loc_is(self.cur_loc(), self.src(), self.at()),
            0 <= self.at() <= self.src().len(),
    {
    }

    /// A fresh tokenizer over `source`, with the cursor at the origin.
    ///
    /// The byte length of the text must fit in `usize` (it does for any
    /// text that is in memory).
    pub fn new(source: &'a str) -> (r: Tokenizer<'a>)
        requires
            byte_len(source@) <= usize::MAX,
        ensures
            r.wf(),
            r.src() == source@,
            r.at() == 0,
    {
        let n_bytes = source.len();
        let n_chars = source.unicode_len();
        proof {
            lemma_byte_len_is_utf8(source@);
        }
        let loc = Location::zero();
        Tokenizer { source, n_chars, n_bytes, pos: 0, loc }
    }

    /// The whole source text.
    pub fn source(&self) -> (r: &'a str)
        ensures
            r@ == self.src(),
    {
        self.source
    }

    /// The cursor's character position (no whitespace skipping).
    pub(crate) fn raw_pos(&self) -> (r: usize)
        ensures
            r == self.at(),
    {
        self.pos
    }

    /// The cursor's location (no whitespace skipping).
    pub(crate) fn raw_loc(&self) -> (r: Location)
        requires
            self.wf(),
        ensures
            r == self.cur_loc(),
            loc_is(r, self.src(), self.at()),
    {
        self.loc
    }

    /// The character at the cursor, if any (no whitespace skipping).
    pub(crate) fn raw_peek(&self) -> (r: Option<char>)
        requires
            self.wf(),
        ensures
            self.at() < self.src().len() ==> r == Some(self.src()[self.at()]),
            self.at() == self.src().len() ==> r is None,
    {
        if self.pos < self.n_chars {
            Some(self.source.get_char(self.pos))
        } else {
            None
        }
    }

    /// Advance the cursor over exactly one character (no whitespace
    /// skipping).
    pub(crate) fn raw_step(&mut self)
        requires
            old(self).wf(),
            old(self).at() < old(self).src().len(),
        ensures
            final(self).wf(),
            final(self).src() == old(self).src(),
            old(self).at() <= final(self).at() <= final(self).src().len(),
            final(self).at() == old(self).at() + 1,
    {
        let ghost s = self.source@;
        let ghost p = self.pos as int;
        let c = self.source.get_char(self.pos);
        proof {
            lemma_byte_len_take_step(s, p);
            lemma_byte_len_mono(s, p + 1);
            lemma_line_col_take_step(s, p);
            lemma_line_col_bounds(s.take(p + 1));
        }
        Self::adv(&mut self.loc, c);
        self.pos = self.pos + 1;
    }

    /// Position bookkeeping for one decoded character: `index` grows by the
    /// character's UTF-8 byte length; a newline starts the next line at
    /// column 0, any other character moves one column to the right.
    pub fn adv(l: &mut Location, c: char)
        requires
            old(l).index + char_bytes(c) <= usize::MAX,
            c == '\n' ==> old(l).line < usize::MAX,
            c != '\n' ==> old(l).column < usize::MAX,
        ensures
            final(l).index == old(l).index + char_bytes(c),
            c == '\n' ==> final(l).line == old(l).line + 1 && final(l).column == 0,
            c != '\n' ==> final(l).line == old(l).line && final(l).column == old(l).column + 1,
    {
        l.index = l.index + utf8_len_of(c);
        if c == '\n' {
            l.line = l.line + 1;
            l.column = 0;
        } else {
            l.column = l.column + 1;
        }
    }

    /// Skip the run of whitespace at the cursor.
    fn shimmy(&mut self)
        requires
            old(self).wf(),
        ensures
            final(self).wf(),
            final(self).src() == old(self).src(),
            old(self).at() <= final(self).at() <= final(self).src().len(),
            final(self).at() == ws_end(old(self).src(), old(self).at()),
    {
        loop
            invariant
                self.wf(),
                self.src() == old(self).src(),
                old(self).at() <= self.at() <= self.src().len(),
                forall|i: int|
                    old(self).at() <= i < self.at() ==> is_space(#[trigger] old(self).src()[i]),
            ensures
                self.wf(),
                self.src() == old(self).src(),
                old(self).at() <= self.at() <= self.src().len(),
                forall|i: int|
                    old(self).at() <= i < self.at() ==> is_space(#[trigger] old(self).src()[i]),
                self.at() == self.src().len() || !is_space(self.src()[self.at()]),
            decreases self.src().len() - self.at(),
        {
            if self.pos >= self.n_chars {
                break;
            }
            let c = self.source.get_char(self.pos);
            if !char_is_space(c) {
                break;
            }
            self.raw_step();
        }
        proof {
            lemma_ws_end_unique(self.src(), old(self).at(), self.at());
        }
    }

    /// Advance the cursor to position `q` (no whitespace skipping).
    fn advance_to(&mut self, q: usize)
        requires
            old(self).wf(),
            old(self).at() <= q <= old(self).src().len(),
        ensures
            final(self).wf(),
            final(self).src() == old(self).src(),
            old(self).at() <= final(self).at() <= final(self).src().len(),
            final(self).at() == q,
    {
        while self.pos < q
            invariant
                self.wf(),
                self.src() == old(self).src(),
                old(self).at() <= self.at() <= q <= self.src().len(),
            decreases q - self.at(),
        {
            self.raw_step();
        }
    }

    /// The remaining unconsumed text, after whitespace.
    pub fn cursor(&mut self) -> (r: &'a str)
        requires
            old(self).wf(),
        ensures
            final(self).wf(),
            final(self).src() == old(self).src(),
            old(self).at() <= final(self).at() <= final(self).src().len(),
            final(self).at() == ws_end(old(self).src(), old(self).at()),
            r@ == old(self).src().subrange(
                ws_end(old(self).src(), old(self).at()),
                old(self).src().len() as int,
            ),
    {
        self.shimmy();
        let src: &'a str = self.source;
        src.substring_char(self.pos, self.n_chars)
    }

    /// The cursor's location, after whitespace.
    pub fn location(&mut self) -> (r: Location)
        requires
            old(self).wf(),
        ensures
            final(self).wf(),
            final(self).src() == old(self).src(),
            old(self).at() <= final(self).at() <= final(self).src().len(),
            final(self).at() == ws_end(old(self).src(), old(self).at()),
            loc_is(r, old(self).src(), ws_end(old(self).src(), old(self).at())),
            r == final(self).cur_loc(),
    {
        self.shimmy();
        self.loc
    }

    /// Whether any non-whitespace text remains.
    pub fn has_more_tokens(&mut self) -> (r: bool)
        requires
            old(self).wf(),
        ensures
            final(self).wf(),
            final(self).src() == old(self).src(),
            old(self).at() <= final(self).at() <= final(self).src().len(),
            final(self).at() == ws_end(old(self).src(), old(self).at()),
            r == (ws_end(old(self).src(), old(self).at()) < old(self).src().len()),
    {
        self.shimmy();
        self.pos < self.n_chars
    }

    /// The first character after whitespace, without consuming it.
    pub fn peek(&mut self) -> (r: Option<char>)
        requires
            old(self).wf(),
        ensures
            final(self).wf(),
            final(self).src() == old(self).src(),
            old(self).at() <= final(self).at() <= final(self).src().len(),
            final(self).at() == ws_end(old(self).src(), old(self).at()),
            ({
                let s = old(self).src();
                let w = ws_end(s, old(self).at());
                r == if w < s.len() {
                    Some(s[w])
                } else {
                    None::<char>
                }
            }),
    {
        self.shimmy();
        self.raw_peek()
    }

    /// Consume exactly one character, after whitespace.
    pub fn advance(&mut self) -> (r: Option<char>)
        requires
            old(self).wf(),
        ensures
            final(self).wf(),
            final(self).src() == old(self).src(),
            old(self).at() <= final(self).at() <= final(self).src().len(),
            ({
                let s = old(self).src();
                let w = ws_end(s, old(self).at());
                if w < s.len() {
                    r == Some(s[w]) && final(self).at() == w + 1
                } else {
                    r is None && final(self).at() == w
                }
            }),
    {
        self.shimmy();
        match self.raw_peek() {
            Some(c) => {
                self.raw_step();
                Some(c)
            },
            None => None,
        }
    }

    /// The location reached from `start` (the location of position `from`)
    /// by advancing over the characters up to position `to`.
    fn walk_loc(&self, start: Location, from: usize, to: usize) -> (l: Location)
        requires
            self.wf(),
            from <= to <= self.src().len(),
            loc_is(start, self.src(), from as int),
        ensures
            loc_is(l, self.src(), to as int),
    {
        let ghost t = self.src();
        let mut l = start;
        let mut p = from;
        while p < to
            invariant
                self.wf(),
                t == self.src(),
                from <= p <= to <= self.src().len(),
                loc_is(l, t, p as int),
            decreases to - p,
        {
            let c = self.source.get_char(p);
            proof {
                lemma_byte_len_take_step(t, p as int);
                lemma_byte_len_mono(t, p as int + 1);
                lemma_line_col_take_step(t, p as int);
                lemma_line_col_bounds(t.take(p as int));
                lemma_line_col_bounds(t.take(p as int + 1));
            }
            Self::adv(&mut l, c);
            p = p + 1;
        }
        l
    }

    /// Match the literal `s` character for character at the cursor, after
    /// whitespace, without consuming anything.  The literal must be
    /// non-empty and present in full, else `None`.
    pub fn peek_str(&mut self, s: &str) -> (r: Option<Span>)
        requires
            old(self).wf(),
        ensures
            final(self).wf(),
            final(self).src() == old(self).src(),
            old(self).at() <= final(self).at() <= final(self).src().len(),
            final(self).at() == ws_end(old(self).src(), old(self).at()),
            ({
                let t = old(self).src();
                let w = ws_end(t, old(self).at());
                let lit = s@;
                match r {
                    Some(sp) => matches_at(t, w, lit) && lit.len() > 0 && span_is(
                        sp,
                        t,
                        w,
                        w + lit.len(),
                    ),
                    None => !(matches_at(t, w, lit) && lit.len() > 0),
                }
            }),
    {
        self.shimmy();
        let ghost t = self.src();
        let ghost w = self.at();
        let ghost lit = s@;
        let k = s.unicode_len();
        if k == 0 {
            return None;
        }
        if k > self.n_chars - self.pos {
            return None;
        }
        let mut i: usize = 0;
        while i < k
            invariant
                self.wf(),
                t == self.src(),
                t == old(self).src(),
                w == self.at(),
                w == ws_end(t, old(self).at()),
                old(self).at() <= w,
                lit == s@,
                0 <= i <= k,
                k == lit.len(),
                w + k <= t.len(),
                forall|j: int| 0 <= j < i ==> t[w + j] == #[trigger] lit[j],
            decreases k - i,
        {
            let a = s.get_char(i);
            let b = self.source.get_char(self.pos + i);
            if a != b {
                proof {
                    if matches_at(t, w, lit) {
                        assert(t.subrange(w, w + lit.len() as int)[i as int] == t[w + i]);
                    }
                }
                return None;
            }
            i = i + 1;
        }
        proof {
            assert(t.subrange(w, w + lit.len() as int) =~= lit);
        }
        let end = self.walk_loc(self.loc, self.pos, self.pos + k);
        Some(Span { start: self.loc, end })
    }

    /// Match the literal `s` at the cursor and require a word boundary after
    /// it: the following character, if any, must be whitespace.
    fn word_span(&mut self, s: &str) -> (r: Option<Span>)
        requires
            old(self).wf(),
        ensures
            final(self).wf(),
            final(self).src() == old(self).src(),
            old(self).at() <= final(self).at() <= final(self).src().len(),
            final(self).at() == ws_end(old(self).src(), old(self).at()),
            ({
                let t = old(self).src();
                let w = ws_end(t, old(self).at());
                let lit = s@;
                match r {
                    Some(sp) => word_at(t, w, lit) && span_is(sp, t, w, w + lit.len()),
                    None => !word_at(t, w, lit),
                }
            }),
    {
        let ghost t = old(self).src();
        let ghost w = ws_end(t, old(self).at());
        match self.peek_str(s) {
            None => None,
            Some(sp) => {
                let k = s.unicode_len();
                let q = self.pos + k;
                if q < self.n_chars {
                    let c = self.source.get_char(q);
                    if !char_is_space(c) {
                        return None;
                    }
                }
                Some(sp)
            },
        }
    }

    /// Whether the word `s` is present at the cursor, without consuming it.
    pub fn match_word(&mut self, s: &str) -> (r: bool)
        requires
            old(self).wf(),
        ensures
            final(self).wf(),
            final(self).src() == old(self).src(),
            old(self).at() <= final(self).at() <= final(self).src().len(),
            final(self).at() == ws_end(old(self).src(), old(self).at()),
            r == word_at(old(self).src(), ws_end(old(self).src(), old(self).at()), s@),
    {
        self.word_span(s).is_some()
    }

    /// Consume the word `s`: its literal characters followed by a word
    /// boundary.  The returned token borrows the matched source slice.
    pub fn consume_word(&mut self, s: &str) -> (r: Option<Token<'a>>)
        requires
            old(self).wf(),
        ensures
            final(self).wf(),
            final(self).src() == old(self).src(),
            old(self).at() <= final(self).at() <= final(self).src().len(),
            ({
                let t = old(self).src();
                let w = ws_end(t, old(self).at());
                let lit = s@;
                match r {
                    Some(tk) => word_at(t, w, lit) && token_from(tk, t, w, w + lit.len())
                        && tk.text() == lit && final(self).at() == w + lit.len(),
                    None => !word_at(t, w, lit) && final(self).at() == w,
                }
            }),
    {
        let ghost t = old(self).src();
        let ghost w = ws_end(t, old(self).at());
        match self.word_span(s) {
            None => None,
            Some(sp) => {
                let start_pos = self.pos;
                let k = s.unicode_len();
                self.advance_to(start_pos + k);
                let src: &'a str = self.source;
                let content = src.substring_char(start_pos, start_pos + k);
                Some(Token { span: sp, content: Content::Borrowed(content) })
            },
        }
    }

    /// Scan the maximal run of characters satisfying `f` at the cursor,
    /// after whitespace, without consuming it.  `None` when the run is
    /// empty.
    #[verifier::spinoff_prover]
    #[verifier::rlimit(50)]
    pub fn peek_while<F: Fn(char) -> bool>(&mut self, f: F) -> (r: Option<Span>)
        requires
            old(self).wf(),
            forall|c: char| #[trigger] call_requires(f, (c,)),
        ensures
            final(self).wf(),
            final(self).src() == old(self).src(),
            old(self).at() <= final(self).at() <= final(self).src().len(),
            final(self).at() == ws_end(old(self).src(), old(self).at()),
            ({
                let t = old(self).src();
                let w = ws_end(t, old(self).at());
                match r {
                    Some(sp) => run_span(sp, t, w, f),
                    None => w == t.len() || call_ensures(f, (t[w],), false),
                }
            }),
    {
        self.shimmy();
        let ghost t = self.src();
        let ghost w = self.at();
        let mut l = self.loc;
        let mut p = self.pos;
        loop
            invariant
                self.wf(),
                t == self.src(),
                t == old(self).src(),
                w == self.at(),
                w == ws_end(t, old(self).at()),
                w <= p <= t.len(),
                loc_is(l, t, p as int),
                forall|i: int| w <= i < p ==> call_ensures(f, (t[i],), true),
                forall|c: char| #[trigger] call_requires(f, (c,)),
            ensures
                self.wf(),
                t == self.src(),
                t == old(self).src(),
                w == self.at(),
                w == ws_end(t, old(self).at()),
                w <= p <= t.len(),
                loc_is(l, t, p as int),
                forall|i: int| w <= i < p ==> call_ensures(f, (t[i],), true),
                p == t.len() || call_ensures(f, (t[p as int],), false),
            decreases t.len() - p,
        {
            if p >= self.n_chars {
                break;
            }
            let c = self.source.get_char(p);
            if !f(c) {
                break;
            }
            proof {
                lemma_byte_len_take_step(t, p as int);
                lemma_byte_len_mono(t, p as int + 1);
                lemma_line_col_take_step(t, p as int);
                lemma_line_col_bounds(t.take(p as int));
                lemma_line_col_bounds(t.take(p as int + 1));
            }
            Self::adv(&mut l, c);
            p = p + 1;
        }
        if p == self.pos {
            None
        } else {
            let sp = Span { start: self.loc, end: l };
            proof {
                let q = p as int;
                assert(w < q <= t.len() && loc_is(sp.end, t, q) && (forall|i: int|
                    w <= i < q ==> call_ensures(f, (t[i],), true)) && (q == t.len()
                    || call_ensures(f, (t[q],), false)));
                assert(exists|q2: int|
                    #![trigger loc_is(sp.end, t, q2)]
                    w < q2 <= t.len() && loc_is(sp.end, t, q2) && (forall|i: int|
                        w <= i < q2 ==> call_ensures(f, (t[i],), true)) && (q2 == t.len()
                        || call_ensures(f, (t[q2],), false)));
                assert(run_span(sp, t, w, f));
            }
            Some(sp)
        }
    }

    /// Scan the maximal run of non-whitespace characters at the cursor,
    /// without consuming it.
    pub fn peek_word(&mut self) -> (r: Option<Span>)
        requires
            old(self).wf(),
        ensures
            final(self).wf(),
            final(self).src() == old(self).src(),
            old(self).at() <= final(self).at() <= final(self).src().len(),
            final(self).at() == ws_end(old(self).src(), old(self).at()),
            ({
                let t = old(self).src();
                let w = ws_end(t, old(self).at());
                match r {
                    Some(sp) => w < nonws_end(t, w) && span_is(sp, t, w, nonws_end(t, w)),
                    None => w == nonws_end(t, w),
                }
            }),
    {
        self.shimmy();
        let ghost t = self.src();
        let ghost w = self.at();
        let mut l = self.loc;
        let mut p = self.pos;
        loop
            invariant
                self.wf(),
                t == self.src(),
                t == old(self).src(),
                w == self.at(),
                w == ws_end(t, old(self).at()),
                w <= p <= t.len(),
                loc_is(l, t, p as int),
                forall|i: int| w <= i < p ==> !is_space(#[trigger] t[i]),
            ensures
                self.wf(),
                t == self.src(),
                t == old(self).src(),
                w == self.at(),
                w == ws_end(t, old(self).at()),
                w <= p <= t.len(),
                loc_is(l, t, p as int),
                forall|i: int| w <= i < p ==> !is_space(#[trigger] t[i]),
                p == t.len() || is_space(t[p as int]),
            decreases t.len() - p,
        {
            if p >= self.n_chars {
                break;
            }
            let c = self.source.get_char(p);
            if char_is_space(c) {
                break;
            }
            proof {
                lemma_byte_len_take_step(t, p as int);
                lemma_byte_len_mono(t, p as int + 1);
                lemma_line_col_take_step(t, p as int);
                lemma_line_col_bounds(t.take(p as int));
                lemma_line_col_bounds(t.take(p as int + 1));
            }
            Self::adv(&mut l, c);
            p = p + 1;
        }
        proof {
            lemma_nonws_end_unique(t, w, p as int);
        }
        if p == self.pos {
            None
        } else {
            Some(Span { start: self.loc, end: l })
        }
    }

    /// Consume the maximal run of characters satisfying `f` at the cursor.
    /// `None` (and no cursor movement past the whitespace) when the run is
    /// empty; otherwise a token borrowing the run.
    pub fn consume_while<F: Fn(char) -> bool>(&mut self, f: F) -> (r: Option<Token<'a>>)
        requires
            old(self).wf(),
            forall|c: char| #[trigger] call_requires(f, (c,)),
        ensures
            final(self).wf(),
            final(self).src() == old(self).src(),
            old(self).at() <= final(self).at() <= final(self).src().len(),
            ({
                let t = old(self).src();
                let w = ws_end(t, old(self).at());
                let q = final(self).at();
                match r {
                    Some(tk) => w < q <= t.len() && token_from(tk, t, w, q) && (forall|i: int|
                        w <= i < q ==> call_ensures(f, (t[i],), true)) && (q == t.len()
                        || call_ensures(f, (t[q],), false)),
                    None => q == w && (w == t.len() || call_ensures(f, (t[w],), false)),
                }
            }),
    {
        self.shimmy();
        let ghost t = self.src();
        let ghost w = self.at();
        let start_loc = self.loc;
        let start_pos = self.pos;
        loop
            invariant
                self.wf(),
                t == self.src(),
                t == old(self).src(),
                w == ws_end(t, old(self).at()),
                w <= self.at() <= t.len(),
                w == start_pos as int,
                loc_is(start_loc, t, w),
                forall|i: int| w <= i < self.at() ==> call_ensures(f, (t[i],), true),
                forall|c: char| #[trigger] call_requires(f, (c,)),
            ensures
                self.wf(),
                t == self.src(),
                t == old(self).src(),
                w == ws_end(t, old(self).at()),
                w <= self.at() <= t.len(),
                w == start_pos as int,
                loc_is(start_loc, t, w),
                forall|i: int| w <= i < self.at() ==> call_ensures(f, (t[i],), true),
                self.at() == t.len() || call_ensures(f, (t[self.at()],), false),
            decreases t.len() - self.at(),
        {
            if self.pos >= self.n_chars {
                break;
            }
            let c = self.source.get_char(self.pos);
            if !f(c) {
                break;
            }
            self.raw_step();
        }
        if self.pos == start_pos {
            None
        } else {
            let sp = Span { start: start_loc, end: self.loc };
            let src: &'a str = self.source;
            let content = src.substring_char(start_pos, self.pos);
            Some(Token { span: sp, content: Content::Borrowed(content) })
        }
    }

    /// Consume the literal `s` at the cursor.  `None` (and no cursor
    /// movement past the whitespace) if it is not present in full; otherwise
    /// a token borrowing the matched slice.
    pub fn consume(&mut self, s: &str) -> (r: Option<Token<'a>>)
        requires
            old(self).wf(),
        ensures
            final(self).wf(),
            final(self).src() == old(self).src(),
            old(self).at() <= final(self).at() <= final(self).src().len(),
            ({
                let t = old(self).src();
                let w = ws_end(t, old(self).at());
                let lit = s@;
                match r {
                    Some(tk) => matches_at(t, w, lit) && lit.len() > 0 && token_from(
                        tk,
                        t,
                        w,
                        w + lit.len(),
                    ) && tk.text() == lit && final(self).at() == w + lit.len(),
                    None => !(matches_at(t, w, lit) && lit.len() > 0) && final(self).at() == w,
                }
            }),
    {
        let ghost t = old(self).src();
        let ghost w = ws_end(t, old(self).at());
        match self.peek_str(s) {
            None => None,
            Some(sp) => {
                let start_pos = self.pos;
                let k = s.unicode_len();
                self.advance_to(start_pos + k);
                let src: &'a str = self.source;
                let content = src.substring_char(start_pos, start_pos + k);
                Some(Token { span: sp, content: Content::Borrowed(content) })
            },
        }
    }

    /// Consume the literal `s`, turning its absence into a fatal error that
    /// names the expected literal and carries the whitespace-skipped cursor
    /// location.
    pub fn expect(&mut self, s: &str) -> (r: Result<Token<'a>, Error>)
        requires
            old(self).wf(),
        ensures
            final(self).wf(),
            final(self).src() == old(self).src(),
            old(self).at() <= final(self).at() <= final(self).src().len(),
            ({
                let t = old(self).src();
                let w = ws_end(t, old(self).at());
                let lit = s@;
                match r {
                    Ok(tk) => matches_at(t, w, lit) && lit.len() > 0 && token_from(
                        tk,
                        t,
                        w,
                        w + lit.len(),
                    ) && tk.text() == lit && final(self).at() == w + lit.len(),
                    Err(e) => !(matches_at(t, w, lit) && lit.len() > 0) && final(self).at() == w
                        && loc_is(e.location, t, w) && e.message@ == "expected `"@ + s@ + "`"@,
                }
            }),
    {
        let start = self.location();
        proof {
            lemma_ws_end_idem(old(self).src(), old(self).at());
        }
        match self.consume(s) {
            Some(tk) => Ok(tk),
            None => {
                let mut message = String::from_str("expected `");
                message.append(s);
                message.append("`");
                Err(Error { location: start, message })
            },
        }
    }

    /// The character position whose byte offset is `idx`, if `idx` is on a
    /// character boundary of the source.
    fn char_pos_of(&self, idx: usize) -> (r: Option<usize>)
        requires
            self.wf(),
        ensures
            ({
                let t = self.src();
                match r {
                    Some(p) => p <= t.len() && byte_len(t.take(p as int)) == idx,
                    None => forall|j: int|
                        0 <= j <= t.len() ==> byte_len(#[trigger] t.take(j)) != idx,
                }
            }),
    {
        let ghost t = self.src();
        let mut p: usize = 0;
        let mut b: usize = 0;
        while b < idx && p < self.n_chars
            invariant
                self.wf(),
                t == self.src(),
                0 <= p <= t.len(),
                b as nat == byte_len(t.take(p as int)),
                forall|j: int| 0 <= j < p ==> byte_len(#[trigger] t.take(j)) < idx,
            decreases t.len() - p,
        {
            let c = self.source.get_char(p);
            proof {
                lemma_byte_len_take_step(t, p as int);
                lemma_byte_len_mono(t, p as int + 1);
            }
            b = b + utf8_len_of(c);
            p = p + 1;
        }
        if b == idx {
            Some(p)
        } else {
            proof {
                assert forall|j: int| 0 <= j <= t.len() implies byte_len(
                    #[trigger] t.take(j),
                ) != idx by {
                    if j >= p {
                        lemma_byte_len_prefix(t, p as int, j);
                    }
                }
            }
            None
        }
    }

    /// The source text from the byte offset of `loc` to the end: `None`
    /// when the offset is out of bounds or not on a character boundary.
    /// The location must have been produced against this same source.
    pub fn cursor_for(&self, loc: Location) -> (r: Option<&'a str>)
        requires
            self.wf(),
        ensures
            ({
                let t = self.src();
                match r {
                    Some(c) => exists|p: int|
                        0 <= p < t.len() && byte_len(#[trigger] t.take(p)) == loc.index && c@
                            == t.subrange(p, t.len() as int),
                    None => forall|p: int|
                        0 <= p < t.len() ==> byte_len(#[trigger] t.take(p)) != loc.index,
                }
            }),
    {
        let ghost t = self.src();
        match self.char_pos_of(loc.index) {
            Some(p) => {
                if p < self.n_chars {
                    let src: &'a str = self.source;
                    let c = src.substring_char(p, self.n_chars);
                    proof {
                        assert(0 <= p < t.len() && byte_len(t.take(p as int)) == loc.index && c@
                            == t.subrange(p as int, t.len() as int));
                    }
                    Some(c)
                } else {
                    proof {
                        assert forall|j: int| 0 <= j < t.len() implies byte_len(
                            #[trigger] t.take(j),
                        ) != loc.index by {
                            if byte_len(t.take(j)) == loc.index {
                                lemma_byte_pos_unique(t, j, p as int);
                            }
                        }
                    }
                    None
                }
            },
            None => None,
        }
    }

    /// The source slice whose byte range a span describes: `None` when
    /// either endpoint is out of bounds or not on a character boundary, or
    /// the span is inverted.  The span must have been produced against this
    /// same source.
    pub fn lex_for(&self, span: Span) -> (r: Option<&'a str>)
        requires
            self.wf(),
        ensures
            ({
                let t = self.src();
                match r {
                    Some(c) => exists|p: int, q: int|
                        0 <= p < t.len() && p <= q <= t.len() && byte_len(#[trigger] t.take(p))
                            == span.start.index && byte_len(#[trigger] t.take(q)) == span.end.index
                            && c@ == t.subrange(p, q),
                    None => !(exists|p: int, q: int|
                        0 <= p < t.len() && p <= q <= t.len() && byte_len(#[trigger] t.take(p))
                            == span.start.index && byte_len(#[trigger] t.take(q))
                            == span.end.index),
                }
            }),
    {
        let ghost t = self.src();
        if span.end.index < span.start.index {
            proof {
                assert forall|p: int, q: int|
                    0 <= p < t.len() && p <= q <= t.len() && byte_len(#[trigger] t.take(p))
                        == span.start.index implies byte_len(#[trigger] t.take(q))
                    != span.end.index by {
                    lemma_byte_len_prefix(t, p, q);
                }
            }
            return None;
        }
        match self.char_pos_of(span.start.index) {
            None => None,
            Some(p) => {
                if p >= self.n_chars {
                    proof {
                        assert forall|j: int| 0 <= j < t.len() implies byte_len(
                            #[trigger] t.take(j),
                        ) != span.start.index by {
                            if byte_len(t.take(j)) == span.start.index {
                                lemma_byte_pos_unique(t, j, p as int);
                            }
                        }
                    }
                    return None;
                }
                match self.char_pos_of(span.end.index) {
                    None => None,
                    Some(q) => {
                        proof {
                            if (q as int) < p as int {
                                lemma_byte_len_prefix(t, q as int, p as int);
                            }
                        }
                        let src: &'a str = self.source;
                        let c = src.substring_char(p, q);
                        proof {
                            assert(0 <= p < t.len() && p as int <= q as int <= t.len() && byte_len(
                                t.take(p as int),
                            ) == span.start.index && byte_len(t.take(q as int)) == span.end.index
                                && c@ == t.subrange(p as int, q as int));
                        }
                        Some(c)
                    },
                }
            },
        }
    }
}

} // verus!
