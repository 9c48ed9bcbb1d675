use mintc::lexer::{Lexer, TokenKind};

#[test]
fn lex_basic_sequence() {
    let src = r#"fn foo(x: i32) -> i32 { return 42; }"#;
    let kinds: Vec<TokenKind> = Lexer::new(src).tokens().into_iter().map(|t| t.kind).collect();
    assert!(kinds.len() > 0);
    assert!(matches!(kinds[0], TokenKind::Keyword(ref k) if k == "fn"));
}

#[test]
fn lex_full_token_sequence() {
    let src = "fn foo(x: i32) -> i32 { return x; }";
    let kinds: Vec<TokenKind> = Lexer::new(src).tokens().into_iter().map(|t| t.kind).collect();
    let expected = vec![
        TokenKind::Keyword("fn".to_string()),
        TokenKind::Ident("foo".to_string()),
        TokenKind::OpenParen,
        TokenKind::Ident("x".to_string()),
        TokenKind::Symbol(':'),
        TokenKind::Ident("i32".to_string()),
        TokenKind::CloseParen,
        TokenKind::Arrow,
        TokenKind::Ident("i32".to_string()),
        TokenKind::OpenBrace,
        TokenKind::Keyword("return".to_string()),
        TokenKind::Ident("x".to_string()),
        TokenKind::Semicolon,
        TokenKind::CloseBrace,
    ];
    assert_eq!(kinds, expected);
}

#[test]
fn lex_spans_are_ordered() {
    let src = "fn foo(x: i32) -> i32 {\n  // a comment\n  return \"hi\" + 4.25;\n}";
    let toks = Lexer::new(src).tokens();
    assert!(toks.len() > 0);
    for t in &toks {
        assert!(t.span.0 <= t.span.1);
    }
    for w in toks.windows(2) {
        assert!(w[0].span.1 <= w[1].span.0);
    }
}

#[test]
fn lex_span_values_are_byte_offsets() {
    let src = "fn  foo";
    let toks = Lexer::new(src).tokens();
    assert_eq!(toks.len(), 2);
    assert_eq!(toks[0].span, (0, 2));
    assert_eq!(toks[1].span, (4, 7));
}

#[test]
fn lex_unicode_identifier_and_byte_spans() {
    // 'é' is alphabetic and two bytes wide in UTF-8.
    let src = "café;";
    let toks = Lexer::new(src).tokens();
    assert_eq!(toks.len(), 2);
    assert_eq!(toks[0].kind, TokenKind::Ident("café".to_string()));
    assert_eq!(toks[0].span, (0, 5));
    assert_eq!(toks[1].kind, TokenKind::Semicolon);
    assert_eq!(toks[1].span, (5, 6));
}

#[test]
fn lex_comments_and_strings() {
    let src = "// skip me\n\"a b\" 12.5 @";
    let kinds: Vec<TokenKind> = Lexer::new(src).tokens().into_iter().map(|t| t.kind).collect();
    let expected = vec![
        TokenKind::StringLiteral("a b".to_string()),
        TokenKind::Number("12.5".to_string()),
        TokenKind::Symbol('@'),
    ];
    assert_eq!(kinds, expected);
}

#[test]
fn lex_unterminated_string_and_keywords() {
    let src = "if else contract return fn \"open";
    let kinds: Vec<TokenKind> = Lexer::new(src).tokens().into_iter().map(|t| t.kind).collect();
    let expected = vec![
        TokenKind::Keyword("if".to_string()),
        TokenKind::Keyword("else".to_string()),
        TokenKind::Keyword("contract".to_string()),
        TokenKind::Keyword("return".to_string()),
        TokenKind::Keyword("fn".to_string()),
        TokenKind::StringLiteral("open".to_string()),
    ];
    assert_eq!(kinds, expected);
}

#[test]
fn next_token_yields_end_sentinel() {
    let mut lex = Lexer::new("  // only trivia\n   ");
    let t = lex.next_token();
    assert_eq!(t.kind, TokenKind::Eof);
}

#[test]
fn lex_arrow_and_minus() {
    let src = "-> - >";
    let kinds: Vec<TokenKind> = Lexer::new(src).tokens().into_iter().map(|t| t.kind).collect();
    let expected = vec![
        TokenKind::Arrow,
        TokenKind::Symbol('-'),
        TokenKind::Symbol('>'),
    ];
    assert_eq!(kinds, expected);
}
