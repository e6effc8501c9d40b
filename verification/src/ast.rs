//! The grammar parser: mutually recursive rules over the tokenizer's
//! primitives, producing AST nodes.
//!
//! Every rule reports one of three outcomes.  `Matched` carries the node and
//! leaves the cursor past the matched text.  `NoMatch` means the rule's
//! leading token was absent; the cursor has moved at most past whitespace
//! and the caller is free to try a sibling alternative.  `Failed` means the
//! rule committed (its leading token was present) and the input then turned
//! out malformed; the error propagates unchanged through every enclosing
//! rule.

use vstd::prelude::*;
use vstd::string::StrSliceExecFns;
use vstd::string::StringExecFns;
use vstd::utf8::is_scalar;
use crate::text::hex_val;
use crate::text::is_hex_digit;
use crate::text::hex_digit_val;
use crate::text::char_from_u32;
use crate::text::is_ident_char;
use crate::text::is_num_char;
use crate::text::char_is_alnum;
use crate::text::char_is_numeric;
use crate::text::ident_end;
use crate::text::num_end;
use crate::text::lemma_ident_end_unique;
use crate::text::lemma_num_end_unique;
use crate::text::lemma_ws_end;
use crate::text::lemma_ws_end_idem;
use crate::text::matches_at;
use crate::text::word_at;
use crate::text::ws_end;
use crate::text::push_char;
use crate::token::err_in;
use crate::token::lemma_err_at;
use crate::token::loc_is;
use crate::token::span_is;
use crate::token::token_from;
use crate::token::Content;
use crate::token::Error;
use crate::token::Span;
use crate::token::Token;
use crate::tokenizer::Tokenizer;

verus! {

broadcast use vstd::utf8::char_u32_cast;

/// The outcome of a grammar rule: a match carrying the node, a clean
/// no-match (try the next alternative), or a committed hard failure.
pub enum Parsed<T> {
    Matched(T),
    NoMatch,
    Failed(Error),
}

/// A top-level declaration: a named function.
pub enum Decl<'a> {
    Func(Token<'a>, Func<'a>),
}

/// A function: its type and its body.
pub struct Func<'a> {
    pub ty: FnType<'a>,
    pub body: Block<'a>,
}

/// A type expression: a plain name, a pointer to a type, or a function
/// type.
pub enum Type<'a> {
    Name(Token<'a>),
    Ptr(Box<Type<'a>>),
    Func(Box<FnType<'a>>),
}

/// A function type: the argument types in order, and an optional return
/// type.
pub struct FnType<'a> {
    pub args: Vec<Type<'a>>,
    pub ret: Option<Type<'a>>,
}

/// An expression: a numeric literal, a string literal, a name, or a
/// left-associative binary form.
pub enum Expr<'a> {
    Num(Token<'a>),
    Str(Token<'a>),
    Name(Token<'a>),
    Add(Box<(Expr<'a>, Expr<'a>)>),
    Sub(Box<(Expr<'a>, Expr<'a>)>),
    Lt(Box<(Expr<'a>, Expr<'a>)>),
}

/// A statement: an `if`, a return, or a nested block.
pub enum Stmt<'a> {
    If(If<'a>),
    Return(Expr<'a>),
    Block(Block<'a>),
}

/// A macro invocation: a name and its argument tokens.
pub struct Macro<'a> {
    pub name: Token<'a>,
    pub args: Vec<Token<'a>>,
}

/// An `if` statement: the condition, the `then` block, and the optional
/// `else` block.
pub struct If<'a> {
    pub condition: Expr<'a>,
    pub then_block: Block<'a>,
    pub otherwise: Option<Block<'a>>,
}

/// A brace-delimited sequence of statements, keeping its delimiter tokens.
pub struct Block<'a> {
    pub left: Token<'a>,
    pub items: Vec<Stmt<'a>>,
    pub right: Token<'a>,
}

/// Whether a character may appear in an identifier: alphanumeric or `_`.
pub fn char_is_ident(c: char) -> (b: bool)
    ensures
        b == is_ident_char(c),
{
    char_is_alnum(c) || c == '_'
}

/// Convert a rule's outcome into a plain result at a point where the rule
/// is required: a no-match becomes a fatal error with the given message at
/// the cursor's (whitespace-skipped) location, while a match or an earlier
/// failure passes through unchanged.
pub fn required<'a, T>(tok: &mut Tokenizer<'a>, outcome: Parsed<T>, msg: &str) -> (r: Result<
    T,
    Error,
>)
    requires
        old(tok).wf(),
    ensures
        final(tok).wf(),
        final(tok).src() == old(tok).src(),
        old(tok).at() <= final(tok).at() <= final(tok).src().len(),
        match outcome {
            Parsed::Matched(v) => r == Ok::<T, Error>(v) && *final(tok) == *old(tok),
            Parsed::Failed(e) => r == Err::<T, Error>(e) && *final(tok) == *old(tok),
            Parsed::NoMatch => ({
                &&& r is Err
                &&& loc_is(
                    r->Err_0.location,
                    old(tok).src(),
                    ws_end(old(tok).src(), old(tok).at()),
                )
                &&& r->Err_0.message@ == msg@
                &&& err_in(r->Err_0, old(tok).src())
                &&& final(tok).at() == ws_end(old(tok).src(), old(tok).at())
            }),
        },
{
    let ghost s = old(tok).src();
    proof {
        tok.lemma_wf_loc();
        lemma_ws_end(s, tok.at());
    }
    match outcome {
        Parsed::Matched(v) => Ok(v),
        Parsed::Failed(e) => Err(e),
        Parsed::NoMatch => {
            let location = tok.location();
            let e = Error { location, message: String::from_str(msg) };
            proof {
                lemma_err_at(e, s, ws_end(s, old(tok).at()));
            }
            Err(e)
        },
    }
}

/// The outcome of scanning a string literal's body, from just after the
/// opening quote: the decoded content together with the position after the
/// closing quote and whether any escape was decoded, or the position and
/// message of the fatal error.
pub enum ScanStr {
    Done { body: Seq<char>, end: int, esc: bool },
    Bad { at: int, msg: Seq<char> },
}

/// Prepend one decoded character to a scan outcome.
pub open spec fn scan_cons(c: char, e: bool, r: ScanStr) -> ScanStr {
    match r {
        ScanStr::Done { body, end, esc } => ScanStr::Done {
            body: seq![c] + body,
            end,
            esc: esc || e,
        },
        bad => bad,
    }
}

/// Whether `k` hexadecimal digits stand at positions `p..p+k`.
pub open spec fn hex_ok(s: Seq<char>, p: int, k: nat) -> bool
    decreases k,
{
    k == 0 || (p < s.len() && is_hex_digit(s[p]) && hex_ok(s, p + 1, (k - 1) as nat))
}

/// The position of the first missing or non-hexadecimal digit among the `k`
/// expected at `p`.
pub open spec fn hex_bad_at(s: Seq<char>, p: int, k: nat) -> int
    decreases k,
{
    if k == 0 {
        p
    } else if !(p < s.len() && is_hex_digit(s[p])) {
        p
    } else {
        hex_bad_at(s, p + 1, (k - 1) as nat)
    }
}

/// The value of the `k` hexadecimal digits at positions `p..p+k`.
pub open spec fn hex_value(s: Seq<char>, p: int, k: nat) -> int
    decreases k,
{
    if k == 0 {
        0
    } else {
        16 * hex_value(s, p, (k - 1) as nat) + hex_val(s[p + k - 1])
    }
}

/// Sixteen to the `k`-th power: the bound on a `k`-digit hexadecimal value.
pub open spec fn pow16(k: nat) -> int
    decreases k,
{
    if k == 0 {
        1
    } else {
        16 * pow16((k - 1) as nat)
    }
}

/// One step of `pow16`, and its values over the escape widths in use.
pub proof fn lemma_pow16(k: nat)
    ensures
        pow16(k + 1) == 16 * pow16(k),
        pow16(0) == 1,
        pow16(1) == 16,
        pow16(2) == 256,
        pow16(3) == 4096,
        pow16(4) == 65536,
{
    assert(pow16(0) == 1);
    assert(pow16(1) == 16 * pow16(0));
    assert(pow16(2) == 16 * pow16(1));
    assert(pow16(3) == 16 * pow16(2));
    assert(pow16(4) == 16 * pow16(3));
    assert(pow16(k + 1) == 16 * pow16((k + 1 - 1) as nat));
}

/// One more digit extends the value by one hexadecimal place.
pub proof fn lemma_hex_value_step(s: Seq<char>, p: int, i: nat)
    ensures
        hex_value(s, p, i + 1) == 16 * hex_value(s, p, i) + hex_val(s[p + i]),
{
}

/// The outcome of decoding one escape sequence, the backslash standing at
/// the scan position: the decoded character and the position after the
/// escape, or the position and message of the fatal error.
pub enum EscScan {
    Fine { d: char, next: int },
    Bad { at: int, msg: Seq<char> },
}

/// Decode one escape sequence; `p` is the position of the backslash.
/// `n`, `r`, `t`, `\\` and `"` name their single characters; `u`/`x` take a
/// braced run of exactly 4/2 hexadecimal digits naming a Unicode scalar
/// value.  Anything else is fatal.
pub open spec fn scan_esc(s: Seq<char>, p: int) -> EscScan {
    if p + 1 >= s.len() {
        EscScan::Bad { at: p + 1, msg: "expected closing quote"@ }
    } else {
        let e = s[p + 1];
        if e == 'n' {
            EscScan::Fine { d: '\n', next: p + 2 }
        } else if e == 'r' {
            EscScan::Fine { d: '\r', next: p + 2 }
        } else if e == 't' {
            EscScan::Fine { d: '\t', next: p + 2 }
        } else if e == '\\' {
            EscScan::Fine { d: '\\', next: p + 2 }
        } else if e == '"' {
            EscScan::Fine { d: '"', next: p + 2 }
        } else if e == 'u' || e == 'x' {
            let k: nat = if e == 'u' {
                4
            } else {
                2
            };
            if !(p + 2 < s.len() && s[p + 2] == '{') {
                EscScan::Bad { at: p + 2, msg: "expected `{`"@ }
            } else if !hex_ok(s, p + 3, k) {
                EscScan::Bad { at: hex_bad_at(s, p + 3, k), msg: "expected hex digit"@ }
            } else if !(p + 3 + k < s.len() && s[p + 3 + k] == '}') {
                EscScan::Bad { at: p + 3 + k, msg: "expected `}`"@ }
            } else if !is_scalar(hex_value(s, p + 3, k) as u32) {
                EscScan::Bad { at: p + 3, msg: "invalid character code"@ }
            } else {
                EscScan::Fine { d: (hex_value(s, p + 3, k) as u32) as char, next: p + 4 + k }
            }
        } else {
            EscScan::Bad { at: p + 1, msg: "invalid escape"@ }
        }
    }
}

/// Scan a string literal's body, the cursor standing just after the opening
/// quote.  Characters are taken verbatim until the closing quote; `\` opens
/// an escape (`n`, `r`, `t`, `\`, `"`, or `u`/`x` with a braced run of
/// exactly 4/2 hexadecimal digits naming a Unicode scalar value).  A raw
/// newline or carriage return, a missing closing quote, a malformed escape
/// and a code that is no Unicode scalar value are fatal.
pub open spec fn scan_str(s: Seq<char>, p: int) -> ScanStr
    decreases s.len() - p
        when 0 <= p <= s.len()
{
    if p >= s.len() {
        ScanStr::Bad { at: p, msg: "expected closing quote"@ }
    } else {
        let c = s[p];
        if c == '\n' || c == '\r' {
            ScanStr::Bad { at: p, msg: "unterminated string"@ }
        } else if c == '"' {
            ScanStr::Done { body: Seq::empty(), end: p + 1, esc: false }
        } else if c == '\\' {
            match scan_esc(s, p) {
                EscScan::Fine { d, next } => scan_cons(d, true, scan_str(s, next)),
                EscScan::Bad { at, msg } => ScanStr::Bad { at, msg },
            }
        } else {
            scan_cons(c, false, scan_str(s, p + 1))
        }
    }
}

/// The scan from `p0` is the scan from `p`, prefixed by the already-decoded
/// content `acc` (with `esc` recording whether any escape was decoded so
/// far).
pub open spec fn scan_within(s: Seq<char>, p0: int, p: int, acc: Seq<char>, esc: bool) -> bool {
    match scan_str(s, p) {
        ScanStr::Done { body, end, esc: e2 } => scan_str(s, p0) == (ScanStr::Done {
            body: acc + body,
            end,
            esc: esc || e2,
        }),
        ScanStr::Bad { at, msg } => scan_str(s, p0) == (ScanStr::Bad { at, msg }),
    }
}

/// Decode one escape sequence, the cursor standing on the backslash, and
/// leave the cursor just after it.  The error carries the exact location of
/// the violated expectation, as `scan_esc` fixes it.
#[verifier::loop_isolation(false)]
fn read_escape<'a>(tok: &mut Tokenizer<'a>) -> (r: Result<char, Error>)
    requires
        old(tok).wf(),
        old(tok).at() < old(tok).src().len(),
        old(tok).src()[old(tok).at()] == '\\',
    ensures
        final(tok).wf(),
        final(tok).src() == old(tok).src(),
        old(tok).at() <= final(tok).at() <= final(tok).src().len(),
        match scan_esc(old(tok).src(), old(tok).at()) {
            EscScan::Fine { d, next } => r == Ok::<char, Error>(d) && final(tok).at() == next,
            EscScan::Bad { at, msg } => {
                &&& r is Err
                &&& loc_is(r->Err_0.location, old(tok).src(), at)
                &&& r->Err_0.message@ == msg
                &&& err_in(r->Err_0, old(tok).src())
            },
        },
{
    let ghost s = old(tok).src();
    let ghost b0 = old(tok).at();
    tok.raw_step();
    let eopt = tok.raw_peek();
    let e = match eopt {
        None => {
            let location = tok.raw_loc();
            let err = Error { location, message: String::from_str("expected closing quote") };
            proof {
                tok.lemma_wf_loc();
                lemma_err_at(err, s, tok.at());
            }
            return Err(err);
        },
        Some(e) => e,
    };
    if e == 'n' || e == 'r' || e == 't' || e == '\\' || e == '"' {
        tok.raw_step();
        Ok(
            if e == 'n' {
                '\n'
            } else if e == 'r' {
                '\r'
            } else if e == 't' {
                '\t'
            } else if e == '\\' {
                '\\'
            } else {
                '"'
            },
        )
    } else if e == 'u' || e == 'x' {
        let k: usize = if e == 'u' {
            4
        } else {
            2
        };
        tok.raw_step();
        let bopt = tok.raw_peek();
        let open_ok = match bopt {
            Some(bc) => bc == '{',
            None => false,
        };
        if !open_ok {
            let location = tok.raw_loc();
            let err = Error { location, message: String::from_str("expected `{`") };
            proof {
                tok.lemma_wf_loc();
                lemma_err_at(err, s, tok.at());
            }
            return Err(err);
        }
        tok.raw_step();
        let digits_loc = tok.raw_loc();
        let ghost dig0 = tok.at();
        proof {
            tok.lemma_wf_loc();
        }
        let mut acc_v: u32 = 0;
        let mut i: usize = 0;
        while i < k
            invariant
                tok.wf(),
                tok.src() == s,
                0 <= i <= k,
                tok.at() == dig0 + i,
                tok.at() <= s.len(),
                acc_v == hex_value(s, dig0, i as nat),
                acc_v < pow16(i as nat),
                hex_ok(s, dig0, k as nat) <==> hex_ok(s, dig0 + i, (k - i) as nat),
                !hex_ok(s, dig0 + i, (k - i) as nat) ==> hex_bad_at(s, dig0, k as nat)
                    == hex_bad_at(s, dig0 + i, (k - i) as nat),
            decreases k - i,
        {
            let dopt = tok.raw_peek();
            let dval = match dopt {
                None => None,
                Some(dc) => hex_digit_val(dc),
            };
            let v = match dval {
                None => {
                    let location = tok.raw_loc();
                    let err = Error { location, message: String::from_str("expected hex digit") };
                    proof {
                        tok.lemma_wf_loc();
                        lemma_err_at(err, s, tok.at());
                    }
                    return Err(err);
                },
                Some(v) => v,
            };
            proof {
                lemma_hex_value_step(s, dig0, i as nat);
                lemma_pow16(i as nat);
                lemma_pow16(0);
                lemma_pow16(1);
                lemma_pow16(2);
                lemma_pow16(3);
            }
            tok.raw_step();
            acc_v = acc_v * 16 + v;
            i = i + 1;
        }
        let cb = tok.raw_peek();
        let close_ok = match cb {
            Some(cc) => cc == '}',
            None => false,
        };
        if !close_ok {
            let location = tok.raw_loc();
            let err = Error { location, message: String::from_str("expected `}`") };
            proof {
                tok.lemma_wf_loc();
                lemma_err_at(err, s, tok.at());
            }
            return Err(err);
        }
        tok.raw_step();
        match char_from_u32(acc_v) {
            None => {
                let err = Error {
                    location: digits_loc,
                    message: String::from_str("invalid character code"),
                };
                proof {
                    lemma_err_at(err, s, dig0);
                }
                Err(err)
            },
            Some(ch) => {
                proof {
                    assert(acc_v == hex_value(s, b0 + 3, if e == 'u' {
                        4nat
                    } else {
                        2nat
                    }));
                    vstd::utf8::char_u32_cast(ch, acc_v);
                }
                Ok(ch)
            },
        }
    } else {
        let location = tok.raw_loc();
        let err = Error { location, message: String::from_str("invalid escape") };
        proof {
            tok.lemma_wf_loc();
            lemma_err_at(err, s, tok.at());
        }
        Err(err)
    }
}

/// A successful scan ends past at least the closing quote, inside the
/// text; a failed scan points inside the text or just past its end.
pub proof fn lemma_scan_str_end(s: Seq<char>, p: int)
    requires
        0 <= p <= s.len(),
    ensures
        scan_str(s, p) matches ScanStr::Done { body, end, esc } ==> p < end <= s.len(),
    decreases s.len() - p,
{
    if p < s.len() {
        let c = s[p];
        if c == '\n' || c == '\r' || c == '"' {
        } else if c == '\\' {
            match scan_esc(s, p) {
                EscScan::Fine { d, next } => {
                    lemma_scan_str_end(s, next);
                },
                EscScan::Bad { at, msg } => {},
            }
        } else {
            lemma_scan_str_end(s, p + 1);
        }
    }
}

/// Parse a string literal at the cursor and decode its escapes.
///
/// No-match when the whitespace-skipped cursor does not stand on `"`.
/// Otherwise the literal is scanned to its closing quote exactly as
/// `scan_str` describes; on success the token spans the whole literal,
/// quotes included, and its content is the decoded body — borrowing the
/// source slice exactly when no escape was decoded.
#[verifier::loop_isolation(false)]
#[verifier::spinoff_prover]
#[verifier::rlimit(100)]
pub fn parse_expr_str<'a>(tok: &mut Tokenizer<'a>) -> (r: Parsed<Token<'a>>)
    requires
        old(tok).wf(),
    ensures
        final(tok).wf(),
        final(tok).src() == old(tok).src(),
        old(tok).at() <= final(tok).at() <= final(tok).src().len(),
        ({
            let s = old(tok).src();
            let w = ws_end(s, old(tok).at());
            if !(w < s.len() && s[w] == '"') {
                r is NoMatch && final(tok).at() == w
            } else {
                match scan_str(s, w + 1) {
                    ScanStr::Done { body, end, esc } => {
                        &&& r matches Parsed::Matched(t) && span_is(t.span, s, w, end) && t.text()
                            == body && (t.content is Borrowed <==> !esc)
                        &&& final(tok).at() == end
                    },
                    ScanStr::Bad { at, msg } => {
                        &&& r matches Parsed::Failed(e) && loc_is(e.location, s, at) && e.message@
                            == msg && err_in(e, s)
                    },
                }
            }
        }),
{
    let ghost s = old(tok).src();
    proof {
        tok.lemma_wf_loc();
        lemma_ws_end(s, tok.at());
    }
    let c0 = tok.peek();
    let ghost w = tok.at();
    let is_quote = match c0 {
        Some(c) => c == '"',
        None => false,
    };
    if !is_quote {
        return Parsed::NoMatch;
    }
    let start = tok.raw_loc();
    let from = tok.raw_pos();
    tok.raw_step();
    let mut buf: Option<String> = None;
    proof {
        match scan_str(s, w + 1) {
            ScanStr::Done { body, end, esc } => {
                assert(s.subrange(w + 1, w + 1) + body =~= body);
            },
            ScanStr::Bad { at, msg } => {},
        }
    }
    loop
        invariant
            tok.wf(),
            tok.src() == s,
            w + 1 <= tok.at() <= s.len(),
            scan_within(
                s,
                w + 1,
                tok.at(),
                match buf {
                    Some(b) => b@,
                    None => s.subrange(w + 1, tok.at()),
                },
                buf is Some,
            ),
        decreases s.len() - tok.at(),
    {
        let ghost cur = tok.at();
        let ghost acc = match buf {
            Some(ref b) => b@,
            None => s.subrange(w + 1, cur),
        };
        let copt = tok.raw_peek();
        let c = match copt {
            None => {
                let location = tok.raw_loc();
                let err = Error { location, message: String::from_str("expected closing quote") };
                proof {
                    tok.lemma_wf_loc();
                    lemma_err_at(err, s, tok.at());
                }
                return Parsed::Failed(err);
            },
            Some(c) => c,
        };
        if c == '\n' || c == '\r' {
            let location = tok.raw_loc();
            let err = Error { location, message: String::from_str("unterminated string") };
            proof {
                tok.lemma_wf_loc();
                lemma_err_at(err, s, tok.at());
            }
            return Parsed::Failed(err);
        }
        if c == '"' {
            let at_quote = tok.raw_pos();
            tok.raw_step();
            let end_loc = tok.raw_loc();
            proof {
                assert(acc + Seq::<char>::empty() =~= acc);
            }
            let content = match buf {
                None => Content::Borrowed(tok.source().substring_char(from + 1, at_quote)),
                Some(b) => Content::Owned(b),
            };
            return Parsed::Matched(Token { span: Span { start, end: end_loc }, content });
        }
        if c != '\\' {
            tok.raw_step();
            buf = match buf {
                Some(mut b) => {
                    push_char(&mut b, c);
                    Some(b)
                },
                None => None,
            };
            proof {
                assert(s.subrange(w + 1, cur + 1) =~= s.subrange(w + 1, cur).push(c));
                assert(acc.push(c) =~= acc + seq![c]);
                match scan_str(s, cur + 1) {
                    ScanStr::Done { body, end, esc } => {
                        assert(acc + (seq![c] + body) =~= (acc + seq![c]) + body);
                    },
                    ScanStr::Bad { at, msg } => {},
                }
            }
            continue;
        }
        // An escape: the backslash stands at `cur`.  The decoded content
        // gathered so far becomes owned at the first escape.
        let at_slash = tok.raw_pos();
        buf = match buf {
            Some(b) => Some(b),
            None => Some(tok.source().substring_char(from + 1, at_slash).to_owned()),
        };
        let d = match read_escape(tok) {
            Err(err) => {
                return Parsed::Failed(err);
            },
            Ok(d) => d,
        };
        buf = match buf {
            Some(mut b) => {
                push_char(&mut b, d);
                Some(b)
            },
            None => None,
        };
        proof {
            assert(acc.push(d) =~= acc + seq![d]);
            match scan_str(s, tok.at()) {
                ScanStr::Done { body, end, esc } => {
                    assert(acc + (seq![d] + body) =~= (acc + seq![d]) + body);
                },
                ScanStr::Bad { at, msg } => {},
            }
        }
    }
}

/// A type could begin at `p`: after whitespace there is a `(` or an
/// identifier character.
pub open spec fn type_start(s: Seq<char>, p: int) -> bool {
    let w = ws_end(s, p);
    matches_at(s, w, "("@) || (w < s.len() && is_ident_char(s[w]))
}

/// Where the cursor ends after reading the type `t` from position `p`.
///
/// Positions are cursor positions: a rule leaves the cursor past the
/// trailing whitespace it probed over, so every end returned here is a
/// whitespace fixpoint.
pub open spec fn ty_end(t: Type<'_>, s: Seq<char>, p: int) -> int
    decreases t,
{
    match t {
        Type::Name(_) => ws_end(s, ident_end(s, ws_end(s, p))),
        Type::Ptr(inner) => ws_end(s, ty_end(*inner, s, p) + 1),
        Type::Func(ft) => fnty_end(*ft, s, p),
    }
}

/// Where the cursor ends after reading the function type `ft` from `p`.
pub open spec fn fnty_end(ft: FnType<'_>, s: Seq<char>, p: int) -> int
    decreases ft,
{
    let m = args_end(ft.args@, s, ws_end(s, p) + 1);
    match ft.ret {
        Some(t) => ty_end(t, s, m),
        None => ws_end(s, m),
    }
}

/// Where the cursor ends after reading this argument list and its closing
/// `)` from `p`: just past the `)`.
pub open spec fn args_end(args: Seq<Type<'_>>, s: Seq<char>, p: int) -> int
    decreases args,
{
    if args.len() == 0 {
        ws_end(s, p) + 1
    } else {
        let m = ty_end(args[0], s, p);
        if matches_at(s, m, ","@) {
            args_end(args.subrange(1, args.len() as int), s, m + 1)
        } else {
            m + 1
        }
    }
}

/// The text at `p` reads as the type `t`: a `(`-free name token, or a
/// pointer star after an inner type, or a function type.
pub open spec fn ty_ok(t: Type<'_>, s: Seq<char>, p: int) -> bool
    decreases t,
{
    match t {
        Type::Name(tk) => {
            let w = ws_end(s, p);
            let e = ident_end(s, w);
            &&& !matches_at(s, w, "("@)
            &&& w < e
            &&& token_from(tk, s, w, e)
        },
        Type::Ptr(inner) => ty_ok(*inner, s, p) && matches_at(s, ty_end(*inner, s, p), "*"@),
        Type::Func(ft) => fnty_ok(*ft, s, p),
    }
}

/// The text at `p` reads as the function type `ft`: `(`, its argument
/// list, `)`, and then its return type — or no return type, when no type
/// begins after the `)`.
pub open spec fn fnty_ok(ft: FnType<'_>, s: Seq<char>, p: int) -> bool
    decreases ft,
{
    let w = ws_end(s, p);
    let m = args_end(ft.args@, s, w + 1);
    &&& matches_at(s, w, "("@)
    &&& args_ok(ft.args@, s, w + 1)
    &&& match ft.ret {
        Some(t) => ty_ok(t, s, m),
        None => !type_start(s, m),
    }
}

/// The text at `p` reads as this argument list closed by `)`: each
/// argument is followed by a `,` (a trailing comma before the `)` is
/// allowed), except possibly the last, which may abut the `)` directly.
pub open spec fn args_ok(args: Seq<Type<'_>>, s: Seq<char>, p: int) -> bool
    decreases args,
{
    if args.len() == 0 {
        matches_at(s, ws_end(s, p), ")"@)
    } else {
        let m = ty_end(args[0], s, p);
        &&& ty_ok(args[0], s, p)
        &&& if matches_at(s, m, ","@) {
            args_ok(args.subrange(1, args.len() as int), s, m + 1)
        } else {
            args.len() == 1 && matches_at(s, m, ")"@)
        }
    }
}

/// The text from `p` reads as the type `t` with the cursor ending at `q`.
pub open spec fn ty_text(t: Type<'_>, s: Seq<char>, p: int, q: int) -> bool {
    ty_ok(t, s, p) && q == ty_end(t, s, p)
}

/// The text from `p` reads as the function type `ft` with the cursor
/// ending at `q`.
pub open spec fn fnty_text(ft: FnType<'_>, s: Seq<char>, p: int, q: int) -> bool {
    fnty_ok(ft, s, p) && q == fnty_end(ft, s, p)
}

/// Reading a type ignores leading whitespace: two start positions with the
/// same whitespace-skipped position read the same types to the same end.
pub proof fn lemma_ty_ws(t: Type<'_>, s: Seq<char>, p1: int, p2: int)
    requires
        ws_end(s, p1) == ws_end(s, p2),
    ensures
        ty_end(t, s, p1) == ty_end(t, s, p2),
        ty_ok(t, s, p1) == ty_ok(t, s, p2),
    decreases t,
{
    match t {
        Type::Name(_) => {
            assert(ty_end(t, s, p1) == ws_end(s, ident_end(s, ws_end(s, p1))));
            assert(ty_end(t, s, p2) == ws_end(s, ident_end(s, ws_end(s, p2))));
            assert(ty_ok(t, s, p1) ==> ty_ok(t, s, p2));
            assert(ty_ok(t, s, p2) ==> ty_ok(t, s, p1));
        },
        Type::Ptr(inner) => {
            lemma_ty_ws(*inner, s, p1, p2);
            assert(ty_end(t, s, p1) == ws_end(s, ty_end(*inner, s, p1) + 1));
            assert(ty_end(t, s, p2) == ws_end(s, ty_end(*inner, s, p2) + 1));
            assert(ty_ok(t, s, p1) == (ty_ok(*inner, s, p1) && matches_at(
                s,
                ty_end(*inner, s, p1),
                "*"@,
            )));
            assert(ty_ok(t, s, p2) == (ty_ok(*inner, s, p2) && matches_at(
                s,
                ty_end(*inner, s, p2),
                "*"@,
            )));
        },
        Type::Func(ft) => {
            let m1 = args_end((*ft).args@, s, ws_end(s, p1) + 1);
            let m2 = args_end((*ft).args@, s, ws_end(s, p2) + 1);
            assert(m1 == m2);
            assert(ty_end(t, s, p1) == fnty_end(*ft, s, p1));
            assert(ty_end(t, s, p2) == fnty_end(*ft, s, p2));
            assert(args_ok((*ft).args@, s, ws_end(s, p1) + 1) == args_ok(
                (*ft).args@,
                s,
                ws_end(s, p2) + 1,
            ));
            assert(ty_ok(t, s, p1) == fnty_ok(*ft, s, p1));
            assert(ty_ok(t, s, p2) == fnty_ok(*ft, s, p2));
            assert(fnty_ok(*ft, s, p1) == fnty_ok(*ft, s, p2));
        },
    }
}

/// An argument list already read, each argument followed by its comma.
pub open spec fn open_args_ok(done: Seq<Type<'_>>, s: Seq<char>, p: int) -> bool
    decreases done.len(),
{
    done.len() == 0 || {
        let m = ty_end(done[0], s, p);
        &&& ty_ok(done[0], s, p)
        &&& matches_at(s, m, ","@)
        &&& open_args_ok(done.subrange(1, done.len() as int), s, m + 1)
    }
}

/// Where such a comma-terminated prefix ends (just past its last comma).
pub open spec fn open_args_end(done: Seq<Type<'_>>, s: Seq<char>, p: int) -> int
    decreases done.len(),
{
    if done.len() == 0 {
        p
    } else {
        open_args_end(done.subrange(1, done.len() as int), s, ty_end(done[0], s, p) + 1)
    }
}

/// One more comma-terminated argument extends an open prefix.
pub proof fn lemma_open_snoc(done: Seq<Type<'_>>, s: Seq<char>, p: int, t: Type<'_>)
    requires
        open_args_ok(done, s, p),
        ty_ok(t, s, open_args_end(done, s, p)),
        matches_at(s, ty_end(t, s, open_args_end(done, s, p)), ","@),
    ensures
        open_args_ok(done.push(t), s, p),
        open_args_end(done.push(t), s, p) == ty_end(t, s, open_args_end(done, s, p)) + 1,
    decreases done.len(),
{
    let whole = done.push(t);
    let tail = whole.subrange(1, whole.len() as int);
    if done.len() == 0 {
        assert(whole[0] == t);
        assert(tail =~= Seq::<Type<'_>>::empty());
        assert(open_args_end(done, s, p) == p);
        assert(open_args_ok(tail, s, ty_end(whole[0], s, p) + 1));
        assert(open_args_end(tail, s, ty_end(whole[0], s, p) + 1) == ty_end(t, s, p) + 1);
    } else {
        assert(whole[0] == done[0]);
        let rest = done.subrange(1, done.len() as int);
        assert(tail =~= rest.push(t));
        let m0 = ty_end(done[0], s, p);
        assert(open_args_end(done, s, p) == open_args_end(rest, s, m0 + 1));
        lemma_open_snoc(rest, s, m0 + 1, t);
        assert(ty_end(whole[0], s, p) == m0);
        assert(open_args_ok(tail, s, m0 + 1));
        assert(open_args_end(whole, s, p) == open_args_end(tail, s, m0 + 1));
    }
}

/// An open prefix followed directly by `)` closes into a full argument
/// list (its last argument carried a trailing comma).
pub proof fn lemma_open_close(done: Seq<Type<'_>>, s: Seq<char>, p: int)
    requires
        open_args_ok(done, s, p),
        matches_at(s, ws_end(s, open_args_end(done, s, p)), ")"@),
    ensures
        args_ok(done, s, p),
        args_end(done, s, p) == ws_end(s, open_args_end(done, s, p)) + 1,
    decreases done.len(),
{
    if done.len() > 0 {
        lemma_open_close(done.subrange(1, done.len() as int), s, ty_end(done[0], s, p) + 1);
    }
}

/// An open prefix, one more argument and a `)` with no separating comma
/// close into a full argument list.
pub proof fn lemma_open_close_last(done: Seq<Type<'_>>, s: Seq<char>, p: int, t: Type<'_>)
    requires
        open_args_ok(done, s, p),
        ty_ok(t, s, open_args_end(done, s, p)),
        !matches_at(s, ty_end(t, s, open_args_end(done, s, p)), ","@),
        matches_at(s, ty_end(t, s, open_args_end(done, s, p)), ")"@),
    ensures
        args_ok(done.push(t), s, p),
        args_end(done.push(t), s, p) == ty_end(t, s, open_args_end(done, s, p)) + 1,
    decreases done.len(),
{
    let whole = done.push(t);
    let tail = whole.subrange(1, whole.len() as int);
    if done.len() == 0 {
        assert(whole[0] == t);
        assert(tail =~= Seq::<Type<'_>>::empty());
        assert(open_args_end(done, s, p) == p);
        assert(whole.len() == 1);
    } else {
        assert(whole[0] == done[0]);
        let rest = done.subrange(1, done.len() as int);
        assert(tail =~= rest.push(t));
        let m0 = ty_end(done[0], s, p);
        assert(open_args_end(done, s, p) == open_args_end(rest, s, m0 + 1));
        lemma_open_close_last(rest, s, m0 + 1, t);
        assert(ty_end(whole[0], s, p) == m0);
        assert(args_ok(tail, s, m0 + 1));
        assert(args_end(whole, s, p) == args_end(tail, s, m0 + 1));
    }
}

/// Parse a type: a function type, or a name suffixed by any number of `*`
/// pointer markers (each wrapping the type one level deeper).
///
/// No-match exactly when neither alternative's leading token is present; a
/// hard failure can only come from a committed function type.  On a match
/// the cursor ends past the trailing whitespace it probed over, and a name
/// or pointer type is maximal: no further `*` follows it.
#[verifier::loop_isolation(false)]
pub fn parse_type<'a>(tok: &mut Tokenizer<'a>) -> (r: Parsed<Type<'a>>)
    requires
        old(tok).wf(),
    ensures
        final(tok).wf(),
        final(tok).src() == old(tok).src(),
        old(tok).at() <= final(tok).at() <= final(tok).src().len(),
        ({
            let s = old(tok).src();
            let p = old(tok).at();
            let w = ws_end(s, p);
            match r {
                Parsed::Matched(t) => {
                    &&& ty_text(t, s, p, final(tok).at())
                    &&& !(t is Func) ==> !matches_at(s, final(tok).at(), "*"@)
                    &&& w < final(tok).at()
                    &&& ws_end(s, final(tok).at()) == final(tok).at()
                },
                Parsed::NoMatch => !type_start(s, p) && final(tok).at() == w,
                Parsed::Failed(e) => matches_at(s, w, "("@) && err_in(e, s),
            }
        }),
    decreases old(tok).src().len() - old(tok).at(), 1int,
{
    let ghost s = old(tok).src();
    let ghost p = old(tok).at();
    proof {
        tok.lemma_wf_loc();
        lemma_ws_end(s, p);
        reveal_strlit("(");
        reveal_strlit("*");
    }
    match parse_fn_type(tok) {
        Parsed::Failed(e) => Parsed::Failed(e),
        Parsed::Matched(ft) => Parsed::Matched(Type::Func(Box::new(ft))),
        Parsed::NoMatch => {
            let word = tok.consume_while(char_is_ident);
            match word {
                None => {
                    proof {
                        lemma_ws_end_idem(s, p);
                    }
                    Parsed::NoMatch
                },
                Some(tk) => {
                    let ghost e0 = tok.at();
                    proof {
                        lemma_ident_end_unique(s, ws_end(s, p), e0);
                    }
                    let mut out = Type::Name(tk);
                    loop
                        invariant
                            tok.wf(),
                            tok.src() == s,
                            ws_end(s, p) < tok.at() <= s.len(),
                            ty_ok(out, s, p),
                            ty_end(out, s, p) == ws_end(s, tok.at()),
                            !(out is Func),
                        decreases s.len() - tok.at(),
                    {
                        let ghost prev = tok.at();
                        proof {
                            lemma_ws_end(s, prev);
                        }
                        let star = tok.consume("*");
                        if star.is_none() {
                            break;
                        }
                        out = Type::Ptr(Box::new(out));
                        proof {
                            lemma_ws_end(s, tok.at());
                        }
                    }
                    Parsed::Matched(out)
                },
            }
        },
    }
}

/// Parse a function type: `(`, comma-separated argument types until `)`,
/// then an optional return type with no separator.  No-match if `(` is
/// absent; hard failure for a malformed argument, a missing `)`, or a
/// malformed return type.
#[verifier::loop_isolation(false)]
pub fn parse_fn_type<'a>(tok: &mut Tokenizer<'a>) -> (r: Parsed<FnType<'a>>)
    requires
        old(tok).wf(),
    ensures
        final(tok).wf(),
        final(tok).src() == old(tok).src(),
        old(tok).at() <= final(tok).at() <= final(tok).src().len(),
        ({
            let s = old(tok).src();
            let p = old(tok).at();
            let w = ws_end(s, p);
            match r {
                Parsed::Matched(ft) => {
                    &&& fnty_text(ft, s, p, final(tok).at())
                    &&& w < final(tok).at()
                    &&& ws_end(s, final(tok).at()) == final(tok).at()
                },
                Parsed::NoMatch => !matches_at(s, w, "("@) && final(tok).at() == w,
                Parsed::Failed(e) => matches_at(s, w, "("@) && err_in(e, s),
            }
        }),
    decreases old(tok).src().len() - old(tok).at(), 0int,
{
    let ghost s = old(tok).src();
    let ghost p = old(tok).at();
    let ghost w = ws_end(s, p);
    proof {
        tok.lemma_wf_loc();
        lemma_ws_end(s, p);
        reveal_strlit("(");
        reveal_strlit(")");
        reveal_strlit(",");
    }
    if tok.consume("(").is_none() {
        return Parsed::NoMatch;
    }
    let mut args: Vec<Type<'a>> = Vec::new();
    proof {
        assert(args@ =~= Seq::<Type<'a>>::empty());
    }
    loop
        invariant
            tok.wf(),
            tok.src() == s,
            w + 1 <= tok.at() <= s.len(),
            open_args_ok(args@, s, w + 1),
            ws_end(s, open_args_end(args@, s, w + 1)) == ws_end(s, tok.at()),
        decreases s.len() - tok.at(),
    {
        let ghost pre = tok.at();
        let ghost oe = open_args_end(args@, s, w + 1);
        if !tok.has_more_tokens() {
            proof {
                lemma_ws_end_idem(s, pre);
                lemma_finish_pre(args, s, w, tok.at(), oe);
            }
            return finish_fn_type(tok, args, Ghost(s), Ghost(p));
        }
        proof {
            lemma_ws_end_idem(s, pre);
        }
        let ghost atw = tok.at();
        if tok.peek_str(")").is_some() {
            proof {
                lemma_ws_end_idem(s, atw);
                lemma_finish_pre(args, s, w, tok.at(), oe);
            }
            return finish_fn_type(tok, args, Ghost(s), Ghost(p));
        }
        proof {
            lemma_ws_end_idem(s, atw);
        }
        let ghost cur = tok.at();
        let arg_out = parse_type(tok);
        let arg = match required(tok, arg_out, "expected type") {
            Ok(t) => t,
            Err(e) => {
                return Parsed::Failed(e);
            },
        };
        let ghost m = tok.at();
        proof {
            lemma_ty_ws(arg, s, cur, oe);
        }
        let ghost done = args@;
        args.push(arg);
        if tok.consume(",").is_none() {
            // No separator after this argument: it closes the list at the
            // `)` that `finish_fn_type` now requires.
            proof {
                lemma_ws_end(s, m);
                if matches_at(s, ws_end(s, tok.at()), ")"@) {
                    lemma_open_close_last(done, s, w + 1, arg);
                }
                assert(args@ =~= done.push(arg));
            }
            return finish_fn_type(tok, args, Ghost(s), Ghost(p));
        }
        proof {
            lemma_open_snoc(done, s, w + 1, arg);
            assert(args@ =~= done.push(arg));
        }
    }
}

/// At a point where a `)` stands ready to close the argument list, the
/// list read so far satisfies `finish_fn_type`'s premise.
proof fn lemma_finish_pre(
    args: Vec<Type<'_>>,
    s: Seq<char>,
    w: int,
    at: int,
    oe: int,
)
    requires
        open_args_ok(args@, s, w + 1),
        ws_end(s, oe) == ws_end(s, at),
        oe == open_args_end(args@, s, w + 1),
    ensures
        matches_at(s, ws_end(s, at), ")"@) ==> args_ok(args@, s, w + 1) && args_end(
            args@,
            s,
            w + 1,
        ) == ws_end(s, at) + 1,
{
    if matches_at(s, ws_end(s, at), ")"@) {
        lemma_open_close(args@, s, w + 1);
    }
}

/// The `)` closing an argument list is required here; after it, an
/// optional return type completes the function type.
fn finish_fn_type<'a>(
    tok: &mut Tokenizer<'a>,
    args: Vec<Type<'a>>,
    Ghost(s): Ghost<Seq<char>>,
    Ghost(p): Ghost<int>,
) -> (r: Parsed<FnType<'a>>)
    requires
        old(tok).wf(),
        old(tok).src() == s,
        0 <= p <= s.len(),
        matches_at(s, ws_end(s, p), "("@),
        ws_end(s, p) < old(tok).at() <= s.len(),
        matches_at(s, ws_end(s, old(tok).at()), ")"@) ==> args_ok(args@, s, ws_end(s, p) + 1)
            && args_end(args@, s, ws_end(s, p) + 1) == ws_end(s, old(tok).at()) + 1,
    ensures
        final(tok).wf(),
        final(tok).src() == old(tok).src(),
        old(tok).at() <= final(tok).at() <= final(tok).src().len(),
        ({
            let w = ws_end(s, p);
            match r {
                Parsed::Matched(ft) => {
                    &&& fnty_text(ft, s, p, final(tok).at())
                    &&& w < final(tok).at()
                    &&& ws_end(s, final(tok).at()) == final(tok).at()
                    &&& ft.args@ == args@
                },
                Parsed::NoMatch => false,
                Parsed::Failed(e) => matches_at(s, w, "("@) && err_in(e, s),
            }
        }),
    decreases s.len() - old(tok).at(), 2int,
{
    let ghost before = tok.at();
    proof {
        tok.lemma_wf_loc();
        lemma_ws_end(s, before);
        reveal_strlit(")");
    }
    match tok.expect(")") {
        Err(e) => {
            proof {
                lemma_err_at(e, s, ws_end(s, before));
            }
            Parsed::Failed(e)
        },
        Ok(_) => {
            let ghost m = tok.at();
            match parse_type(tok) {
                Parsed::Failed(e) => Parsed::Failed(e),
                Parsed::Matched(t) => {
                    let ft = FnType { args, ret: Some(t) };
                    Parsed::Matched(ft)
                },
                Parsed::NoMatch => {
                    proof {
                        lemma_ws_end(s, m);
                        lemma_ws_end_idem(s, m);
                    }
                    let ft = FnType { args, ret: None };
                    Parsed::Matched(ft)
                },
            }
        },
    }
}

/// An expression could begin at `p`: a numeric character or a `"`.
pub open spec fn expr_start(s: Seq<char>, p: int) -> bool {
    let w = ws_end(s, p);
    w < s.len() && (is_num_char(s[w]) || s[w] == '"')
}

/// The text at `p` reads as this primary expression: a maximal numeric
/// run, or a string literal as `scan_str` decodes it.
pub open spec fn prim_ok(e: Expr<'_>, s: Seq<char>, p: int) -> bool {
    let w = ws_end(s, p);
    match e {
        Expr::Num(tk) => w < num_end(s, w) && token_from(tk, s, w, num_end(s, w)),
        Expr::Str(tk) => {
            &&& w < s.len() && s[w] == '"'
            &&& match scan_str(s, w + 1) {
                ScanStr::Done { body, end, esc } => span_is(tk.span, s, w, end) && tk.text()
                    == body && (tk.content is Borrowed <==> !esc),
                ScanStr::Bad { at, msg } => false,
            }
        },
        _ => false,
    }
}

/// Where the cursor ends after a primary expression read from `p`.
pub open spec fn prim_end(e: Expr<'_>, s: Seq<char>, p: int) -> int {
    let w = ws_end(s, p);
    match e {
        Expr::Num(_) => num_end(s, w),
        Expr::Str(_) => match scan_str(s, w + 1) {
            ScanStr::Done { body, end, esc } => end,
            ScanStr::Bad { at, msg } => w,
        },
        _ => w,
    }
}

/// The text at `p` reads as this additive-level expression: a chain of
/// primaries joined left-associatively by `+` and `-`.
pub open spec fn term_ok(e: Expr<'_>, s: Seq<char>, p: int) -> bool
    decreases e,
{
    match e {
        Expr::Add(pair) => {
            let m = ws_end(s, term_end((*pair).0, s, p));
            &&& term_ok((*pair).0, s, p)
            &&& matches_at(s, m, "+"@)
            &&& prim_ok((*pair).1, s, m + 1)
        },
        Expr::Sub(pair) => {
            let m = ws_end(s, term_end((*pair).0, s, p));
            &&& term_ok((*pair).0, s, p)
            &&& matches_at(s, m, "-"@)
            &&& prim_ok((*pair).1, s, m + 1)
        },
        _ => prim_ok(e, s, p),
    }
}

/// Where the cursor ends after an additive-level expression read from `p`.
pub open spec fn term_end(e: Expr<'_>, s: Seq<char>, p: int) -> int
    decreases e,
{
    match e {
        Expr::Add(pair) => prim_end((*pair).1, s, ws_end(s, term_end((*pair).0, s, p)) + 1),
        Expr::Sub(pair) => prim_end((*pair).1, s, ws_end(s, term_end((*pair).0, s, p)) + 1),
        _ => prim_end(e, s, p),
    }
}

/// The text at `p` reads as this comparison-level expression: a chain of
/// additive-level expressions joined left-associatively by `<`.  The right
/// operand of each `<` is a maximal additive chain.
pub open spec fn cmp_ok(e: Expr<'_>, s: Seq<char>, p: int) -> bool
    decreases e,
{
    match e {
        Expr::Lt(pair) => {
            let m = ws_end(s, cmp_end((*pair).0, s, p));
            let b_end = ws_end(s, term_end((*pair).1, s, m + 1));
            &&& cmp_ok((*pair).0, s, p)
            &&& matches_at(s, m, "<"@)
            &&& term_ok((*pair).1, s, m + 1)
            &&& !matches_at(s, b_end, "+"@)
            &&& !matches_at(s, b_end, "-"@)
        },
        _ => term_ok(e, s, p),
    }
}

/// Where the cursor ends after a comparison-level expression read from `p`.
pub open spec fn cmp_end(e: Expr<'_>, s: Seq<char>, p: int) -> int
    decreases e,
{
    match e {
        Expr::Lt(pair) => term_end((*pair).1, s, ws_end(s, cmp_end((*pair).0, s, p)) + 1),
        _ => term_end(e, s, p),
    }
}

/// An additive-level expression can only read where an expression can
/// begin: its leftmost leaf is a primary at the start position.
pub proof fn lemma_term_start(e: Expr<'_>, s: Seq<char>, p: int)
    requires
        0 <= p <= s.len(),
        term_ok(e, s, p),
    ensures
        expr_start(s, p),
    decreases e,
{
    lemma_ws_end(s, p);
    match e {
        Expr::Add(pair) => lemma_term_start((*pair).0, s, p),
        Expr::Sub(pair) => lemma_term_start((*pair).0, s, p),
        Expr::Num(_) => {
            let w = ws_end(s, p);
            assert(w < num_end(s, w));
            assert(w < s.len() && is_num_char(s[w]));
        },
        Expr::Str(_) => {},
        _ => {},
    }
}

/// A comparison-level expression can only read where an expression can
/// begin.
pub proof fn lemma_cmp_start(e: Expr<'_>, s: Seq<char>, p: int)
    requires
        0 <= p <= s.len(),
        cmp_ok(e, s, p),
    ensures
        expr_start(s, p),
    decreases e,
{
    match e {
        Expr::Lt(pair) => lemma_cmp_start((*pair).0, s, p),
        _ => lemma_term_start(e, s, p),
    }
}

/// Parse a primary expression: a numeric literal (digits and `_`), else a
/// string literal, else no-match.
pub fn parse_expr_primary<'a>(tok: &mut Tokenizer<'a>) -> (r: Parsed<Expr<'a>>)
    requires
        old(tok).wf(),
    ensures
        final(tok).wf(),
        final(tok).src() == old(tok).src(),
        old(tok).at() <= final(tok).at() <= final(tok).src().len(),
        ({
            let s = old(tok).src();
            let p = old(tok).at();
            let w = ws_end(s, p);
            match r {
                Parsed::Matched(e) => {
                    &&& prim_ok(e, s, p)
                    &&& final(tok).at() == prim_end(e, s, p)
                    &&& w < final(tok).at()
                },
                Parsed::NoMatch => !expr_start(s, p) && final(tok).at() == w,
                Parsed::Failed(err) => w < s.len() && s[w] == '"' && err_in(err, s) && (scan_str(
                    s,
                    w + 1,
                ) matches ScanStr::Bad { at, msg } && loc_is(err.location, s, at) && err.message@
                    == msg),
            }
        }),
{
    let ghost s = old(tok).src();
    let ghost p = old(tok).at();
    proof {
        tok.lemma_wf_loc();
        lemma_ws_end(s, p);
        lemma_ws_end_idem(s, p);
        if ws_end(s, p) + 1 <= s.len() {
            lemma_scan_str_end(s, ws_end(s, p) + 1);
        }
    }
    let num = tok.consume_while(char_is_num);
    match num {
        Some(tk) => {
            proof {
                lemma_num_end_unique(s, ws_end(s, p), tok.at());
            }
            Parsed::Matched(Expr::Num(tk))
        },
        None => {
            match parse_expr_str(tok) {
                Parsed::Matched(tk) => Parsed::Matched(Expr::Str(tk)),
                Parsed::NoMatch => Parsed::NoMatch,
                Parsed::Failed(e) => Parsed::Failed(e),
            }
        },
    }
}

/// Whether a character may appear in a numeric literal: numeric or `_`.
pub fn char_is_num(c: char) -> (b: bool)
    ensures
        b == is_num_char(c),
{
    char_is_numeric(c) || c == '_'
}

/// Parse an additive-level expression: primaries folded left-associatively
/// over `+` and `-`.  The chain is maximal: no further `+` or `-` follows.
#[verifier::loop_isolation(false)]
pub fn parse_expr_term<'a>(tok: &mut Tokenizer<'a>) -> (r: Parsed<Expr<'a>>)
    requires
        old(tok).wf(),
    ensures
        final(tok).wf(),
        final(tok).src() == old(tok).src(),
        old(tok).at() <= final(tok).at() <= final(tok).src().len(),
        ({
            let s = old(tok).src();
            let p = old(tok).at();
            let w = ws_end(s, p);
            match r {
                Parsed::Matched(e) => {
                    &&& term_ok(e, s, p)
                    &&& final(tok).at() == ws_end(s, term_end(e, s, p))
                    &&& ws_end(s, final(tok).at()) == final(tok).at()
                    &&& !matches_at(s, final(tok).at(), "+"@)
                    &&& !matches_at(s, final(tok).at(), "-"@)
                    &&& w < final(tok).at()
                },
                Parsed::NoMatch => !expr_start(s, p) && final(tok).at() == w,
                Parsed::Failed(err) => expr_start(s, p) && err_in(err, s),
            }
        }),
{
    let ghost s = old(tok).src();
    let ghost p = old(tok).at();
    proof {
        tok.lemma_wf_loc();
        lemma_ws_end(s, p);
        reveal_strlit("+");
        reveal_strlit("-");
    }
    let first = parse_expr_primary(tok);
    let mut out = match first {
        Parsed::NoMatch => {
            return Parsed::NoMatch;
        },
        Parsed::Failed(e) => {
            return Parsed::Failed(e);
        },
        Parsed::Matched(e) => e,
    };
    loop
        invariant
            tok.wf(),
            tok.src() == s,
            ws_end(s, p) < tok.at() <= s.len(),
            term_ok(out, s, p),
            tok.at() == term_end(out, s, p),
        decreases s.len() - tok.at(),
    {
        let ghost prev = tok.at();
        proof {
            lemma_ws_end(s, prev);
            lemma_ws_end_idem(s, prev);
        }
        let is_add = tok.consume("+").is_some();
        if is_add || tok.consume("-").is_some() {
            let rhs_out = parse_expr_primary(tok);
            let rhs = match required(tok, rhs_out, "expected binary expression: + or -") {
                Ok(e) => e,
                Err(e) => {
                    proof {
                        lemma_term_start(out, s, p);
                    }
                    return Parsed::Failed(e);
                },
            };
            out = if is_add {
                Expr::Add(Box::new((out, rhs)))
            } else {
                Expr::Sub(Box::new((out, rhs)))
            };
        } else {
            proof {
                lemma_ws_end_idem(s, prev);
            }
            break;
        }
    }
    Parsed::Matched(out)
}

/// Parse a comparison-level expression: additive chains folded
/// left-associatively over `<`.
#[verifier::loop_isolation(false)]
#[verifier::spinoff_prover]
#[verifier::rlimit(60)]
pub fn parse_expr_cmp<'a>(tok: &mut Tokenizer<'a>) -> (r: Parsed<Expr<'a>>)
    requires
        old(tok).wf(),
    ensures
        final(tok).wf(),
        final(tok).src() == old(tok).src(),
        old(tok).at() <= final(tok).at() <= final(tok).src().len(),
        ({
            let s = old(tok).src();
            let p = old(tok).at();
            let w = ws_end(s, p);
            match r {
                Parsed::Matched(e) => {
                    &&& cmp_ok(e, s, p)
                    &&& final(tok).at() == ws_end(s, cmp_end(e, s, p))
                    &&& ws_end(s, final(tok).at()) == final(tok).at()
                    &&& !matches_at(s, final(tok).at(), "<"@)
                    &&& !matches_at(s, final(tok).at(), "+"@)
                    &&& !matches_at(s, final(tok).at(), "-"@)
                    &&& w < final(tok).at()
                },
                Parsed::NoMatch => !expr_start(s, p) && final(tok).at() == w,
                Parsed::Failed(err) => expr_start(s, p) && err_in(err, s),
            }
        }),
{
    let ghost s = old(tok).src();
    let ghost p = old(tok).at();
    proof {
        tok.lemma_wf_loc();
        lemma_ws_end(s, p);
        reveal_strlit("<");
    }
    let first = parse_expr_term(tok);
    let mut out = match first {
        Parsed::NoMatch => {
            return Parsed::NoMatch;
        },
        Parsed::Failed(e) => {
            return Parsed::Failed(e);
        },
        Parsed::Matched(e) => e,
    };
    loop
        invariant
            tok.wf(),
            tok.src() == s,
            ws_end(s, p) < tok.at() <= s.len(),
            cmp_ok(out, s, p),
            tok.at() == ws_end(s, cmp_end(out, s, p)),
            ws_end(s, tok.at()) == tok.at(),
            !matches_at(s, tok.at(), "+"@),
            !matches_at(s, tok.at(), "-"@),
        decreases s.len() - tok.at(),
    {
        let ghost prev = tok.at();
        proof {
            lemma_ws_end(s, prev);
            lemma_ws_end_idem(s, prev);
        }
        if tok.consume("<").is_none() {
            break;
        }
        let rhs_out = parse_expr_term(tok);
        let rhs = match required(tok, rhs_out, "expected binary expression: <") {
            Ok(e) => e,
            Err(e) => {
                proof {
                    lemma_cmp_start(out, s, p);
                }
                return Parsed::Failed(e);
            },
        };
        let ghost a = out;
        out = Expr::Lt(Box::new((out, rhs)));
        proof {
            let m = ws_end(s, cmp_end(a, s, p));
            assert(m == prev);
            assert(matches_at(s, m, "<"@));
            assert(term_ok(rhs, s, m + 1));
            assert(cmp_ok(a, s, p));
            assert(out matches Expr::Lt(pair) && (*pair).0 == a && (*pair).1 == rhs);
            assert(cmp_ok(out, s, p));
            assert(cmp_end(out, s, p) == term_end(rhs, s, m + 1));
        }
    }
    Parsed::Matched(out)
}

/// Parse an expression: the comparison level is the lowest-precedence
/// entry of the grammar.
pub fn parse_expr<'a>(tok: &mut Tokenizer<'a>) -> (r: Parsed<Expr<'a>>)
    requires
        old(tok).wf(),
    ensures
        final(tok).wf(),
        final(tok).src() == old(tok).src(),
        old(tok).at() <= final(tok).at() <= final(tok).src().len(),
        ({
            let s = old(tok).src();
            let p = old(tok).at();
            let w = ws_end(s, p);
            match r {
                Parsed::Matched(e) => {
                    &&& cmp_ok(e, s, p)
                    &&& final(tok).at() == ws_end(s, cmp_end(e, s, p))
                    &&& ws_end(s, final(tok).at()) == final(tok).at()
                    &&& !matches_at(s, final(tok).at(), "<"@)
                    &&& !matches_at(s, final(tok).at(), "+"@)
                    &&& !matches_at(s, final(tok).at(), "-"@)
                    &&& w < final(tok).at()
                },
                Parsed::NoMatch => !expr_start(s, p) && final(tok).at() == w,
                Parsed::Failed(err) => expr_start(s, p) && err_in(err, s),
            }
        }),
{
    parse_expr_cmp(tok)
}

/// The text at `p` reads as this block: `{`, a run of statements, `}`,
/// with the delimiter tokens kept.
pub open spec fn block_ok(b: Block<'_>, s: Seq<char>, p: int) -> bool
    decreases b,
{
    let w = ws_end(s, p);
    let c = ws_end(s, items_end(b.items@, s, w + 1));
    &&& matches_at(s, w, "{"@)
    &&& token_from(b.left, s, w, w + 1)
    &&& items_ok(b.items@, s, w + 1)
    &&& matches_at(s, c, "}"@)
    &&& token_from(b.right, s, c, c + 1)
}

/// Where the cursor ends after a block read from `p`: just past its `}`.
pub open spec fn block_end(b: Block<'_>, s: Seq<char>, p: int) -> int
    decreases b,
{
    ws_end(s, items_end(b.items@, s, ws_end(s, p) + 1)) + 1
}

/// The text at `p` reads as this run of statements, one after the other.
pub open spec fn items_ok(items: Seq<Stmt<'_>>, s: Seq<char>, p: int) -> bool
    decreases items,
{
    items.len() == 0 || (stmt_ok(items[0], s, p) && items_ok(
        items.subrange(1, items.len() as int),
        s,
        stmt_end(items[0], s, p),
    ))
}

/// Where the cursor ends after this run of statements.
pub open spec fn items_end(items: Seq<Stmt<'_>>, s: Seq<char>, p: int) -> int
    decreases items,
{
    if items.len() == 0 {
        p
    } else {
        items_end(items.subrange(1, items.len() as int), s, stmt_end(items[0], s, p))
    }
}

/// The text at `p` reads as this statement: a block, or — only where no
/// block opens — an `if` statement.
pub open spec fn stmt_ok(st: Stmt<'_>, s: Seq<char>, p: int) -> bool
    decreases st,
{
    match st {
        Stmt::Block(b) => block_ok(b, s, p),
        Stmt::If(i) => !matches_at(s, ws_end(s, p), "{"@) && if_ok(i, s, p),
        Stmt::Return(_) => false,
    }
}

/// Where the cursor ends after this statement.
pub open spec fn stmt_end(st: Stmt<'_>, s: Seq<char>, p: int) -> int
    decreases st,
{
    match st {
        Stmt::Block(b) => block_end(b, s, p),
        Stmt::If(i) => if_end(i, s, p),
        Stmt::Return(_) => ws_end(s, p),
    }
}

/// The text at `p` reads as this `if` statement: the keyword, a required
/// condition, a required `then` block, and an optional `else` block.
pub open spec fn if_ok(i: If<'_>, s: Seq<char>, p: int) -> bool
    decreases i,
{
    let w = ws_end(s, p);
    let c1 = ws_end(s, cmp_end(i.condition, s, w + 2));
    let b1 = block_end(i.then_block, s, c1);
    &&& word_at(s, w, "if"@)
    &&& cmp_ok(i.condition, s, w + 2)
    &&& block_ok(i.then_block, s, c1)
    &&& match i.otherwise {
        Some(b2) => word_at(s, ws_end(s, b1), "else"@) && block_ok(b2, s, ws_end(s, b1) + 4),
        None => !word_at(s, ws_end(s, b1), "else"@),
    }
}

/// Where the cursor ends after this `if` statement.
pub open spec fn if_end(i: If<'_>, s: Seq<char>, p: int) -> int
    decreases i,
{
    let w = ws_end(s, p);
    let c1 = ws_end(s, cmp_end(i.condition, s, w + 2));
    let b1 = block_end(i.then_block, s, c1);
    match i.otherwise {
        Some(b2) => block_end(b2, s, ws_end(s, b1) + 4),
        None => ws_end(s, b1),
    }
}

/// Reading a statement ignores leading whitespace at its start position.
pub proof fn lemma_stmt_ws(st: Stmt<'_>, s: Seq<char>, p1: int, p2: int)
    requires
        ws_end(s, p1) == ws_end(s, p2),
    ensures
        stmt_ok(st, s, p1) == stmt_ok(st, s, p2),
        stmt_end(st, s, p1) == stmt_end(st, s, p2),
{
    match st {
        Stmt::Block(b) => {
            assert(block_end(b, s, p1) == block_end(b, s, p2));
            assert(block_ok(b, s, p1) == block_ok(b, s, p2));
        },
        Stmt::If(i) => {
            assert(if_end(i, s, p1) == if_end(i, s, p2));
            assert(if_ok(i, s, p1) == if_ok(i, s, p2));
        },
        Stmt::Return(_) => {},
    }
}

/// One more statement extends a parsed run.
pub proof fn lemma_items_snoc(done: Seq<Stmt<'_>>, s: Seq<char>, p: int, t: Stmt<'_>)
    requires
        items_ok(done, s, p),
        stmt_ok(t, s, items_end(done, s, p)),
    ensures
        items_ok(done.push(t), s, p),
        items_end(done.push(t), s, p) == stmt_end(t, s, items_end(done, s, p)),
    decreases done.len(),
{
    let whole = done.push(t);
    let tail = whole.subrange(1, whole.len() as int);
    if done.len() == 0 {
        assert(whole[0] == t);
        assert(tail =~= Seq::<Stmt<'_>>::empty());
        assert(items_end(done, s, p) == p);
        assert(items_ok(tail, s, stmt_end(t, s, p)));
        assert(stmt_ok(whole[0], s, p));
        assert(items_end(tail, s, stmt_end(t, s, p)) == stmt_end(t, s, p));
    } else {
        assert(whole[0] == done[0]);
        let rest = done.subrange(1, done.len() as int);
        assert(tail =~= rest.push(t));
        let m0 = stmt_end(done[0], s, p);
        assert(items_end(done, s, p) == items_end(rest, s, m0));
        lemma_items_snoc(rest, s, m0, t);
        assert(stmt_end(whole[0], s, p) == m0);
        assert(items_ok(tail, s, m0));
        assert(items_end(whole, s, p) == items_end(tail, s, m0));
    }
}

/// Parse a statement: a block, else an `if` statement; no-match when
/// neither leading token is present.
#[verifier::loop_isolation(false)]
pub fn parse_stmt<'a>(tok: &mut Tokenizer<'a>) -> (r: Parsed<Stmt<'a>>)
    requires
        old(tok).wf(),
    ensures
        final(tok).wf(),
        final(tok).src() == old(tok).src(),
        old(tok).at() <= final(tok).at() <= final(tok).src().len(),
        ({
            let s = old(tok).src();
            let p = old(tok).at();
            let w = ws_end(s, p);
            match r {
                Parsed::Matched(st) => {
                    &&& stmt_ok(st, s, p)
                    &&& final(tok).at() == stmt_end(st, s, p)
                    &&& w < final(tok).at()
                },
                Parsed::NoMatch => {
                    &&& !matches_at(s, w, "{"@)
                    &&& !word_at(s, w, "if"@)
                    &&& final(tok).at() == w
                },
                Parsed::Failed(e) => (matches_at(s, w, "{"@) || word_at(s, w, "if"@)) && err_in(
                    e,
                    s,
                ),
            }
        }),
    decreases old(tok).src().len() - old(tok).at(), 2int,
{
    let ghost s = old(tok).src();
    let ghost p = old(tok).at();
    proof {
        tok.lemma_wf_loc();
        lemma_ws_end(s, p);
        lemma_ws_end_idem(s, p);
    }
    match parse_block(tok) {
        Parsed::Matched(b) => Parsed::Matched(Stmt::Block(b)),
        Parsed::Failed(e) => Parsed::Failed(e),
        Parsed::NoMatch => {
            let ghost w = ws_end(s, p);
            match parse_if(tok) {
                Parsed::Matched(i) => {
                    proof {
                        assert(if_ok(i, s, w) == if_ok(i, s, p));
                        assert(if_end(i, s, w) == if_end(i, s, p));
                    }
                    Parsed::Matched(Stmt::If(i))
                },
                Parsed::NoMatch => Parsed::NoMatch,
                Parsed::Failed(e) => Parsed::Failed(e),
            }
        },
    }
}

/// Parse an `if` statement: the keyword `if`, a required condition, a
/// required `then` block, and an optional `else` with its required block.
pub fn parse_if<'a>(tok: &mut Tokenizer<'a>) -> (r: Parsed<If<'a>>)
    requires
        old(tok).wf(),
    ensures
        final(tok).wf(),
        final(tok).src() == old(tok).src(),
        old(tok).at() <= final(tok).at() <= final(tok).src().len(),
        ({
            let s = old(tok).src();
            let p = old(tok).at();
            let w = ws_end(s, p);
            match r {
                Parsed::Matched(i) => {
                    &&& if_ok(i, s, p)
                    &&& final(tok).at() == if_end(i, s, p)
                    &&& w < final(tok).at()
                },
                Parsed::NoMatch => !word_at(s, w, "if"@) && final(tok).at() == w,
                Parsed::Failed(e) => {
                    &&& word_at(s, w, "if"@)
                    &&& err_in(e, s)
                    &&& !expr_start(s, w + 2) ==> e.message@ == "expected condition"@ && loc_is(
                        e.location,
                        s,
                        ws_end(s, w + 2),
                    )
                },
            }
        }),
    decreases old(tok).src().len() - old(tok).at(), 1int,
{
    let ghost s = old(tok).src();
    let ghost p = old(tok).at();
    let ghost w = ws_end(s, p);
    proof {
        tok.lemma_wf_loc();
        lemma_ws_end(s, p);
        reveal_strlit("if");
        reveal_strlit("else");
    }
    if tok.consume_word("if").is_none() {
        return Parsed::NoMatch;
    }
    let cond_out = parse_expr(tok);
    let condition = match required(tok, cond_out, "expected condition") {
        Ok(e) => e,
        Err(e) => {
            proof {
                lemma_ws_end_idem(s, w + 2);
            }
            return Parsed::Failed(e);
        },
    };
    proof {
        lemma_cmp_start(condition, s, w + 2);
    }
    let then_out = parse_block(tok);
    let then_block = match required(tok, then_out, "expected block") {
        Ok(b) => b,
        Err(e) => {
            return Parsed::Failed(e);
        },
    };
    let ghost b1 = tok.at();
    proof {
        lemma_ws_end(s, b1);
    }
    let els = tok.consume_word("else");
    match els {
        None => Parsed::Matched(If { condition, then_block, otherwise: None }),
        Some(_) => {
            let b2_out = parse_block(tok);
            let b2 = match required(tok, b2_out, "expected block") {
                Ok(b) => b,
                Err(e) => {
                    return Parsed::Failed(e);
                },
            };
            Parsed::Matched(If { condition, then_block, otherwise: Some(b2) })
        },
    }
}

/// Parse a block: `{`, statements until the closing `}`.  No-match when no
/// `{` opens it; a missing statement or `}` is fatal.
#[verifier::loop_isolation(false)]
pub fn parse_block<'a>(tok: &mut Tokenizer<'a>) -> (r: Parsed<Block<'a>>)
    requires
        old(tok).wf(),
    ensures
        final(tok).wf(),
        final(tok).src() == old(tok).src(),
        old(tok).at() <= final(tok).at() <= final(tok).src().len(),
        ({
            let s = old(tok).src();
            let p = old(tok).at();
            let w = ws_end(s, p);
            match r {
                Parsed::Matched(b) => {
                    &&& block_ok(b, s, p)
                    &&& final(tok).at() == block_end(b, s, p)
                    &&& w < final(tok).at()
                },
                Parsed::NoMatch => !matches_at(s, w, "{"@) && final(tok).at() == w,
                Parsed::Failed(e) => matches_at(s, w, "{"@) && err_in(e, s),
            }
        }),
    decreases old(tok).src().len() - old(tok).at(), 0int,
{
    let ghost s = old(tok).src();
    let ghost p = old(tok).at();
    let ghost w = ws_end(s, p);
    proof {
        tok.lemma_wf_loc();
        lemma_ws_end(s, p);
        reveal_strlit("{");
        reveal_strlit("}");
    }
    let left = match tok.consume("{") {
        None => {
            return Parsed::NoMatch;
        },
        Some(t) => t,
    };
    let mut items: Vec<Stmt<'a>> = Vec::new();
    proof {
        assert(items@ =~= Seq::<Stmt<'a>>::empty());
    }
    loop
        invariant
            tok.wf(),
            tok.src() == s,
            w + 1 <= tok.at() <= s.len(),
            items_ok(items@, s, w + 1),
            ws_end(s, items_end(items@, s, w + 1)) == ws_end(s, tok.at()),
        decreases s.len() - tok.at(),
    {
        let ghost pre = tok.at();
        if !tok.has_more_tokens() {
            proof {
                lemma_ws_end_idem(s, pre);
            }
            break;
        }
        proof {
            lemma_ws_end_idem(s, pre);
        }
        let ghost at1 = tok.at();
        if tok.peek_str("}").is_some() {
            proof {
                lemma_ws_end_idem(s, at1);
            }
            break;
        }
        proof {
            lemma_ws_end_idem(s, at1);
        }
        let ghost cur = tok.at();
        let st_out = parse_stmt(tok);
        let st = match required(tok, st_out, "expected statement in block") {
            Ok(t) => t,
            Err(e) => {
                return Parsed::Failed(e);
            },
        };
        let ghost done = items@;
        proof {
            lemma_stmt_ws(st, s, cur, items_end(done, s, w + 1));
            lemma_items_snoc(done, s, w + 1, st);
        }
        items.push(st);
        proof {
            assert(items@ =~= done.push(st));
        }
    }
    let ghost before = tok.at();
    let right = match tok.expect("}") {
        Err(e) => {
            proof {
                lemma_ws_end(s, before);
                lemma_err_at(e, s, ws_end(s, before));
            }
            return Parsed::Failed(e);
        },
        Ok(t) => t,
    };
    Parsed::Matched(Block { left, items, right })
}

/// The text at `p` reads as this declaration: a function name, its
/// function type and its block body.
pub open spec fn decl_ok(d: Decl<'_>, s: Seq<char>, p: int) -> bool {
    match d {
        Decl::Func(name, f) => {
            let w = ws_end(s, p);
            let e = ident_end(s, w);
            &&& w < e
            &&& token_from(name, s, w, e)
            &&& fnty_ok(f.ty, s, e)
            &&& block_ok(f.body, s, fnty_end(f.ty, s, e))
        },
    }
}

/// Where the cursor ends after this declaration: past its body's `}`.
pub open spec fn decl_end(d: Decl<'_>, s: Seq<char>, p: int) -> int {
    match d {
        Decl::Func(name, f) => {
            let e = ident_end(s, ws_end(s, p));
            block_end(f.body, s, fnty_end(f.ty, s, e))
        },
    }
}

/// Parse a declaration: an identifier, a required function type and a
/// required block body.  No-match only when no identifier begins here.
pub fn parse_decl<'a>(tok: &mut Tokenizer<'a>) -> (r: Parsed<Decl<'a>>)
    requires
        old(tok).wf(),
    ensures
        final(tok).wf(),
        final(tok).src() == old(tok).src(),
        old(tok).at() <= final(tok).at() <= final(tok).src().len(),
        ({
            let s = old(tok).src();
            let p = old(tok).at();
            let w = ws_end(s, p);
            match r {
                Parsed::Matched(d) => {
                    &&& decl_ok(d, s, p)
                    &&& final(tok).at() == decl_end(d, s, p)
                    &&& w < final(tok).at()
                },
                Parsed::NoMatch => {
                    &&& !(w < s.len() && is_ident_char(s[w]))
                    &&& final(tok).at() == w
                },
                Parsed::Failed(e) => {
                    &&& w < s.len() && is_ident_char(s[w])
                    &&& err_in(e, s)
                    &&& !matches_at(s, ws_end(s, ident_end(s, w)), "("@) ==> e.message@
                        == "expected function type"@ && loc_is(
                        e.location,
                        s,
                        ws_end(s, ident_end(s, w)),
                    )
                },
            }
        }),
{
    let ghost s = old(tok).src();
    let ghost p = old(tok).at();
    proof {
        tok.lemma_wf_loc();
        lemma_ws_end(s, p);
    }
    let name = match tok.consume_while(char_is_ident) {
        None => {
            return Parsed::NoMatch;
        },
        Some(t) => t,
    };
    proof {
        lemma_ident_end_unique(s, ws_end(s, p), tok.at());
        assert(is_ident_char(s[ws_end(s, p)]));
    }
    let ty_out = parse_fn_type(tok);
    let ty = match required(tok, ty_out, "expected function type") {
        Ok(t) => t,
        Err(e) => {
            proof {
                lemma_ws_end_idem(s, ident_end(s, ws_end(s, p)));
            }
            return Parsed::Failed(e);
        },
    };
    let body_out = parse_block(tok);
    let body = match required(tok, body_out, "expected function body") {
        Ok(b) => b,
        Err(e) => {
            return Parsed::Failed(e);
        },
    };
    Parsed::Matched(Decl::Func(name, Func { ty, body }))
}

} // verus!
