use parse_rs::ast::parse_decl;
use parse_rs::ast::parse_expr;
use parse_rs::ast::parse_expr_str;
use parse_rs::ast::parse_type;
use parse_rs::ast::Decl;
use parse_rs::ast::Expr;
use parse_rs::ast::FnType;
use parse_rs::ast::Parsed;
use parse_rs::ast::Stmt;
use parse_rs::ast::Type;
use parse_rs::token::Location;
use parse_rs::token::Span;
use parse_rs::token::Token;
use parse_rs::tokenizer::Tokenizer;

fn type_of(src: &str) -> Type<'_> {
    let mut tok = Tokenizer::new(src);
    match parse_type(&mut tok) {
        Parsed::Matched(t) => t,
        Parsed::NoMatch => panic!("no type in {:?}", src),
        Parsed::Failed(e) => panic!("error at {}:{} :: {}", e.location.line, e.location.column, e.message),
    }
}

fn named<'a, 'b>(t: &'b Type<'a>) -> &'b str {
    match t {
        Type::Name(n) => n.content(),
        _ => panic!("type is not named!"),
    }
}

fn pointer<'a, 'b>(t: &'b Type<'a>) -> &'b Type<'a> {
    match t {
        Type::Ptr(inner) => inner.as_ref(),
        _ => panic!("type is not a pointer!"),
    }
}

fn func<'a, 'b>(t: &'b Type<'a>) -> &'b FnType<'a> {
    match t {
        Type::Func(f) => f.as_ref(),
        _ => panic!("type is not a function!"),
    }
}

#[test]
fn test_types() {
    let ty = type_of("int");
    assert_eq!(named(&ty), "int");

    let ty = type_of("int**");
    let ty = pointer(&ty);
    let ty = pointer(ty);
    assert_eq!(named(ty), "int");

    let ty = type_of("(int,char**)int");
    let f = func(&ty);
    assert_eq!(f.args.len(), 2);
    assert_eq!(named(&f.args[0]), "int");
    assert_eq!(named(pointer(pointer(&f.args[1]))), "char");
    assert_eq!(named(f.ret.as_ref().unwrap()), "int");

    let ty = type_of("((int,void*)bool,void*)");
    let f = func(&ty);
    assert_eq!(f.args.len(), 2);
    let inner = func(&f.args[0]);
    assert_eq!(inner.args.len(), 2);
    assert_eq!(named(&inner.args[0]), "int");
    assert_eq!(named(pointer(&inner.args[1])), "void");
    assert_eq!(named(inner.ret.as_ref().unwrap()), "bool");
    assert_eq!(named(pointer(&f.args[1])), "void");
    assert!(f.ret.is_none());
}

fn string_of(src: &str) -> Token<'_> {
    let mut tok = Tokenizer::new(src);
    match parse_expr_str(&mut tok) {
        Parsed::Matched(t) => t,
        Parsed::NoMatch => panic!("no string in {:?}", src),
        Parsed::Failed(e) => panic!("error at {}:{} :: {}", e.location.line, e.location.column, e.message),
    }
}

#[test]
fn test_strings() {
    let src = r#""""#;
    let content = string_of(src);
    assert_eq!(content.content(), "");

    let src = r#""Hello World!""#;
    let content = string_of(src);
    assert_eq!(content.content(), "Hello World!");
}

#[test]
fn escape_decoding() {
    assert_eq!(string_of(r#""a\nb""#).content(), "a\nb");
    assert_eq!(string_of(r#""a\tb\rc""#).content(), "a\tb\rc");
    assert_eq!(string_of(r#""\\ and \"""#).content(), "\\ and \"");
    assert_eq!(string_of(r#""\u{0041}B""#).content(), "AB");
    assert_eq!(string_of(r#""pre\x{41}post""#).content(), "preApost");
}

#[test]
fn string_content_aliases_source_without_escapes() {
    // No escape processed: the content is byte-identical to the source
    // slice inside the quotes, and the span covers the whole literal.
    let src = r#"  "plain text"  "#;
    let t = string_of(src);
    assert_eq!(t.content(), "plain text");
    assert_eq!(&src[t.span.start.index + 1..t.span.end.index - 1], "plain text");
    assert!(matches!(t.content, parse_rs::token::Content::Borrowed(_)));
    let t = string_of(r#""a\nb""#);
    assert!(matches!(t.content, parse_rs::token::Content::Owned(_)));
}

fn string_err(src: &str) -> parse_rs::token::Error {
    let mut tok = Tokenizer::new(src);
    match parse_expr_str(&mut tok) {
        Parsed::Failed(e) => e,
        Parsed::Matched(_) => panic!("unexpectedly parsed {:?}", src),
        Parsed::NoMatch => panic!("silent no-match on {:?}", src),
    }
}

#[test]
fn unterminated_strings_are_fatal() {
    // A missing closing quote and a raw newline are errors, never a
    // silent no-match.
    let e = string_err("\"abc");
    assert_eq!(e.message, "expected closing quote");
    assert_eq!(e.location.index, 4);
    let e = string_err("\"ab\ncd\"");
    assert_eq!(e.message, "unterminated string");
    assert_eq!(e.location.index, 3);
    assert_eq!(e.location.line, 0);
    assert_eq!(e.location.column, 3);
}

#[test]
fn malformed_escapes_are_fatal() {
    assert_eq!(string_err(r#""\uA""#).message, "expected `{`");
    assert_eq!(string_err(r#""\u{12}""#).message, "expected hex digit");
    assert_eq!(string_err(r#""\u{004Q}""#).message, "expected hex digit");
    assert_eq!(string_err(r#""\x{411""#).message, "expected `}`");
    assert_eq!(string_err(r#""\u{D800}""#).message, "invalid character code");
    assert_eq!(string_err(r#""\q""#).message, "invalid escape");
}

#[test]
fn cursor_index_is_monotonic() {
    // Across any sequence of consume operations the cursor's byte offset
    // never decreases.
    let src = " int foo( , ) \"s\" 12_3 +";
    let mut tok = Tokenizer::new(src);
    let mut last = tok.location().index;
    loop {
        let before = tok.location().index;
        assert!(before >= last);
        last = before;
        if !tok.has_more_tokens() {
            break;
        }
        if tok.consume_word("int").is_some()
            || tok.consume("(").is_some()
            || tok.consume(",").is_some()
            || tok.consume(")").is_some()
            || tok.consume_while(|c: char| c.is_alphanumeric() || c == '_').is_some()
        {
            continue;
        }
        if tok.advance().is_none() {
            break;
        }
    }
    assert!(tok.location().index >= last);
}

#[test]
fn undecoded_content_equals_source_slice() {
    // For tokens of consume / consume_while / consume_word the content is
    // exactly the byte range of the span, including past multi-byte text.
    let src = "αβ  worth (x)";
    let mut tok = Tokenizer::new(src);
    let t = tok.consume_while(|c: char| c.is_alphanumeric()).unwrap();
    assert_eq!(t.content(), &src[t.span.start.index..t.span.end.index]);
    assert_eq!(t.content(), "αβ");
    let t = tok.consume_word("worth").unwrap();
    assert_eq!(t.content(), &src[t.span.start.index..t.span.end.index]);
    let t = tok.consume("(").unwrap();
    assert_eq!(t.content(), &src[t.span.start.index..t.span.end.index]);
    assert_eq!(t.span.start.index, "αβ  worth ".len());
}

#[test]
fn word_boundaries() {
    // `if` must not match the prefix of `ifx`; it matches before
    // whitespace or end of input; `(` is not a word boundary here.
    let mut tok = Tokenizer::new("ifx");
    assert!(!tok.match_word("if"));
    let mut tok = Tokenizer::new("if ");
    assert!(tok.match_word("if"));
    let mut tok = Tokenizer::new("if");
    assert!(tok.match_word("if"));
    let mut tok = Tokenizer::new("if(");
    assert!(!tok.match_word("if"));
}

#[test]
fn relexing_a_span_reproduces_the_text() {
    let src = "  int  ";
    let mut tok = Tokenizer::new(src);
    let t = match parse_type(&mut tok) {
        Parsed::Matched(Type::Name(t)) => t,
        _ => panic!("expected a named type"),
    };
    assert_eq!(tok.lex_for(t.span), Some("int"));
    assert_eq!(t.content(), "int");
}

#[test]
fn lex_for_rejects_out_of_range_spans() {
    let src = "αbc";
    let tok = Tokenizer::new(src);
    let at = |index: usize| Location { line: 0, column: 0, index };
    assert_eq!(tok.lex_for(Span { start: at(0), end: at(3) }), Some("αb"));
    // inside the two-byte character: not a boundary
    assert_eq!(tok.lex_for(Span { start: at(1), end: at(2) }), None);
    // past the end of the text
    assert_eq!(tok.lex_for(Span { start: at(0), end: at(9) }), None);
    assert_eq!(tok.cursor_for(at(2)), Some("bc"));
    assert_eq!(tok.cursor_for(at(4)), None);
    assert_eq!(tok.cursor_for(at(1)), None);
}

#[test]
fn scanning_primitives() {
    let mut tok = Tokenizer::new("  ab cd");
    assert_eq!(tok.peek(), Some('a'));
    assert_eq!(tok.cursor(), "ab cd");
    assert!(tok.has_more_tokens());
    let sp = tok.peek_word().unwrap();
    assert_eq!(sp.start.index, 2);
    assert_eq!(sp.end.index, 4);
    assert_eq!(tok.advance(), Some('a'));
    assert_eq!(tok.advance(), Some('b'));
    assert_eq!(tok.peek_str("cd").map(|s| s.start.index), Some(5));
    let t = tok.expect("cd").unwrap();
    assert_eq!(t.content(), "cd");
    assert_eq!(tok.advance(), None);
    assert!(!tok.has_more_tokens());
    let e = tok.expect("cd").unwrap_err();
    assert_eq!(e.message, "expected `cd`");
    assert_eq!(e.location.index, 7);
}

#[test]
fn location_tracks_lines_and_columns() {
    let mut tok = Tokenizer::new("a\nbb\n  c");
    assert_eq!(tok.advance(), Some('a'));
    let l = tok.location();
    assert_eq!((l.line, l.column, l.index), (1, 0, 2));
    let t = tok.consume("bb").unwrap();
    assert_eq!((t.span.start.line, t.span.start.column), (1, 0));
    let l = tok.location();
    assert_eq!((l.line, l.column, l.index), (2, 2, 7));
    assert_eq!(Location::zero().index, 0);
    let t = tok.consume("c").unwrap();
    assert_eq!(t.span.len(), 1);
}

#[test]
fn subtraction_is_left_associative() {
    let src = "1-2-3";
    let mut tok = Tokenizer::new(src);
    let e = match parse_expr(&mut tok) {
        Parsed::Matched(e) => e,
        _ => panic!("expected an expression"),
    };
    let outer = match e {
        Expr::Sub(pair) => *pair,
        _ => panic!("expected a subtraction"),
    };
    let (left, right) = outer;
    match right {
        Expr::Num(t) => assert_eq!(t.content(), "3"),
        _ => panic!("right operand should be 3"),
    }
    let (ll, lr) = match left {
        Expr::Sub(pair) => *pair,
        _ => panic!("left operand should itself be a subtraction"),
    };
    match (ll, lr) {
        (Expr::Num(a), Expr::Num(b)) => {
            assert_eq!(a.content(), "1");
            assert_eq!(b.content(), "2");
        },
        _ => panic!("innermost operands should be 1 and 2"),
    }
}

#[test]
fn comparison_binds_looser_than_addition() {
    let mut tok = Tokenizer::new("1+2<3");
    let e = match parse_expr(&mut tok) {
        Parsed::Matched(e) => e,
        _ => panic!("expected an expression"),
    };
    let (l, r) = match e {
        Expr::Lt(pair) => *pair,
        _ => panic!("expected a comparison"),
    };
    assert!(matches!(l, Expr::Add(_)));
    match r {
        Expr::Num(t) => assert_eq!(t.content(), "3"),
        _ => panic!("right operand should be 3"),
    }
}

#[test]
fn declarations_and_statements() {
    let src = "main (int, char**) int { if 1 < 2 { } else { { } } }";
    let mut tok = Tokenizer::new(src);
    let d = match parse_decl(&mut tok) {
        Parsed::Matched(d) => d,
        Parsed::NoMatch => panic!("no declaration"),
        Parsed::Failed(e) => panic!("error at {}:{} :: {}", e.location.line, e.location.column, e.message),
    };
    let Decl::Func(name, f) = d;
    assert_eq!(name.content(), "main");
    assert_eq!(f.ty.args.len(), 2);
    assert_eq!(named(f.ty.ret.as_ref().unwrap()), "int");
    assert_eq!(f.body.items.len(), 1);
    match &f.body.items[0] {
        Stmt::If(i) => {
            assert!(matches!(i.condition, Expr::Lt(_)));
            assert!(i.then_block.items.is_empty());
            let e = i.otherwise.as_ref().unwrap();
            assert_eq!(e.items.len(), 1);
            assert!(matches!(e.items[0], Stmt::Block(_)));
        },
        _ => panic!("expected an if statement"),
    }
    assert_eq!(f.body.left.content(), "{");
    assert_eq!(f.body.right.content(), "}");
    assert!(!tok.has_more_tokens());
}

#[test]
fn declaration_without_type_is_fatal() {
    let mut tok = Tokenizer::new("main = 3");
    match parse_decl(&mut tok) {
        Parsed::Failed(e) => assert_eq!(e.message, "expected function type"),
        _ => panic!("a name without a function type must fail hard"),
    }
    let mut tok = Tokenizer::new("  ");
    assert!(matches!(parse_decl(&mut tok), Parsed::NoMatch));
}

#[test]
fn trailing_comma_and_empty_args() {
    let f = match type_of("()") {
        Type::Func(f) => f,
        _ => panic!("expected a function type"),
    };
    assert!(f.args.is_empty());
    assert!(f.ret.is_none());
    let f = match type_of("(int,)bool") {
        Type::Func(f) => f,
        _ => panic!("expected a function type"),
    };
    assert_eq!(f.args.len(), 1);
    assert_eq!(named(f.ret.as_ref().unwrap()), "bool");
}

#[test]
fn malformed_function_types_are_fatal() {
    let mut tok = Tokenizer::new("(int");
    match parse_type(&mut tok) {
        Parsed::Failed(e) => assert_eq!(e.message, "expected `)`"),
        _ => panic!("unclosed function type must fail hard"),
    }
    let mut tok = Tokenizer::new("( = )");
    match parse_type(&mut tok) {
        Parsed::Failed(e) => assert_eq!(e.message, "expected type"),
        _ => panic!("malformed argument must fail hard"),
    }
    let mut tok = Tokenizer::new("*");
    assert!(matches!(parse_type(&mut tok), Parsed::NoMatch));
}

#[test]
fn multibyte_positions() {
    // line/column count characters; index counts UTF-8 bytes.
    let mut tok = Tokenizer::new("α β\nγd");
    let t = tok.consume("α").unwrap();
    assert_eq!((t.span.end.line, t.span.end.column, t.span.end.index), (0, 1, 2));
    let t = tok.consume("β").unwrap();
    assert_eq!(t.span.start.index, 3);
    let t = tok.consume_word("γd").unwrap();
    assert_eq!((t.span.start.line, t.span.start.column, t.span.start.index), (1, 0, 6));
    assert_eq!(t.content(), "γd");
    assert_eq!(t.span.end.index, 9);
}

#[test]
fn dangling_operator_is_fatal() {
    let mut tok = Tokenizer::new("1-");
    match parse_expr(&mut tok) {
        Parsed::Failed(e) => assert_eq!(e.message, "expected binary expression: + or -"),
        _ => panic!("a dangling operator must fail hard"),
    }
    let mut tok = Tokenizer::new("1<");
    match parse_expr(&mut tok) {
        Parsed::Failed(e) => assert_eq!(e.message, "expected binary expression: <"),
        _ => panic!("a dangling comparison must fail hard"),
    }
    let mut tok = Tokenizer::new("x");
    assert!(matches!(parse_expr(&mut tok), Parsed::NoMatch));
    let mut tok = Tokenizer::new("");
    assert!(matches!(parse_expr(&mut tok), Parsed::NoMatch));
}

#[test]
fn numbers_may_hold_underscores() {
    let mut tok = Tokenizer::new(" 12_3 ");
    match parse_expr(&mut tok) {
        Parsed::Matched(Expr::Num(t)) => assert_eq!(t.content(), "12_3"),
        _ => panic!("expected a numeric literal"),
    }
}

#[test]
fn if_statement_failures_carry_exact_locations() {
    // A missing condition fails at the character where the expression was
    // expected; a missing block fails after the condition.
    let mut tok = Tokenizer::new("if { }");
    match parse_rs::ast::parse_if(&mut tok) {
        Parsed::Failed(e) => {
            assert_eq!(e.message, "expected condition");
            assert_eq!(e.location.index, 3);
        }
        _ => panic!("an if without a condition must fail hard"),
    }
    let mut tok = Tokenizer::new("if 1 x");
    match parse_rs::ast::parse_if(&mut tok) {
        Parsed::Failed(e) => {
            assert_eq!(e.message, "expected block");
            assert_eq!(e.location.index, 5);
        }
        _ => panic!("an if without a block must fail hard"),
    }
    let mut tok = Tokenizer::new("x");
    assert!(matches!(parse_rs::ast::parse_if(&mut tok), Parsed::NoMatch));
}
