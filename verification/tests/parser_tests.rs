use mintc::lexer::Lexer;
use mintc::parser::Parser;
use mintc::ast::{Expr, Statement};

fn parse_src(src: &str) -> Result<mintc::ast::Program, String> {
    let mut p = Parser::new(Lexer::new(src));
    p.parse()
}

#[test]
fn parse_params_and_return_type() {
    let src = "fn add(a: i32, b: i32) -> i32 { return a; }";
    let mut p = Parser::new(Lexer::new(src));
    let prog = p.parse().expect("Failed to parse function");
    assert_eq!(prog.statements.len(), 1);
    match &prog.statements[0] {
        Statement::Function { name, params, return_type, body } => {
            assert_eq!(name, "add");
            assert_eq!(params.len(), 2);
            assert_eq!(params[0].name, "a");
            assert_eq!(params[0].ty.as_deref(), Some("i32"));
            assert_eq!(params[1].name, "b");
            assert_eq!(params[1].ty.as_deref(), Some("i32"));
            assert_eq!(return_type.as_deref(), Some("i32"));
            assert_eq!(body.len(), 1);
        }
        _ => panic!("Expected function statement"),
    }
}

#[test]
fn parse_function_with_one_param_and_return() {
    let prog = parse_src("fn foo(x: i32) -> i32 { return x; }").unwrap();
    assert_eq!(prog.statements.len(), 1);
    match &prog.statements[0] {
        Statement::Function { name, params, return_type, body } => {
            assert_eq!(name, "foo");
            assert_eq!(params.len(), 1);
            assert_eq!(params[0].name, "x");
            assert_eq!(params[0].ty.as_deref(), Some("i32"));
            assert_eq!(return_type.as_deref(), Some("i32"));
            assert_eq!(body.len(), 1);
            match &body[0] {
                Statement::Return(Expr::Ident(id)) => assert_eq!(id, "x"),
                _ => panic!("Expected return of an identifier"),
            }
        }
        _ => panic!("Expected function statement"),
    }
}

#[test]
fn parse_addition_is_left_associative() {
    let prog = parse_src("fn f() { return a + b + c; }").unwrap();
    match &prog.statements[0] {
        Statement::Function { body, .. } => match &body[0] {
            Statement::Return(Expr::Binary { left, right, .. }) => {
                match &**right {
                    Expr::Ident(id) => assert_eq!(id, "c"),
                    _ => panic!("Expected identifier on the right"),
                }
                match &**left {
                    Expr::Binary { left: ll, right: lr, .. } => {
                        assert!(matches!(&**ll, Expr::Ident(id) if id == "a"));
                        assert!(matches!(&**lr, Expr::Ident(id) if id == "b"));
                    }
                    _ => panic!("Expected nested binary on the left"),
                }
            }
            _ => panic!("Expected return of a binary expression"),
        },
        _ => panic!("Expected function statement"),
    }
}

#[test]
fn parse_top_level_stops_silently() {
    let prog = parse_src("+ fn f() {}").unwrap();
    assert_eq!(prog.statements.len(), 0);
}

#[test]
fn parse_brackets_accept_symbol_encoding() {
    // number literals kept as text, untyped parameter accepted
    let prog = parse_src("fn g(y) { return 2.5; }").unwrap();
    match &prog.statements[0] {
        Statement::Function { params, return_type, body, .. } => {
            assert_eq!(params[0].name, "y");
            assert_eq!(params[0].ty, None);
            assert_eq!(*return_type, None);
            match &body[0] {
                Statement::Return(Expr::Number(n)) => assert_eq!(n, "2.5"),
                _ => panic!("Expected return of a number"),
            }
        }
        _ => panic!("Expected function statement"),
    }
}

#[test]
fn parse_missing_name_reports_role() {
    let err = parse_src("fn").unwrap_err();
    assert_eq!(err, "Expected function name but found <eof>");
}

#[test]
fn parse_missing_semicolon_reports_it() {
    let err = parse_src("fn f() { return 1 }").unwrap_err();
    assert_eq!(err, "Expected `;` but found }");
}

#[test]
fn parse_bad_body_token_is_hard_error() {
    let err = parse_src("fn f() { 1; }").unwrap_err();
    assert_eq!(err, "Unexpected token in function body: number");
}

#[test]
fn parse_bad_primary_reports_it() {
    let err = parse_src("fn f() { return ; }").unwrap_err();
    assert_eq!(err, "Unexpected token in expression: ;");
}

#[test]
fn parse_invalid_number_literal() {
    let err = parse_src("fn f() { return 1.2.3; }").unwrap_err();
    assert_eq!(err, "Invalid number");
}

#[test]
fn parse_missing_close_paren() {
    let err = parse_src("fn f(a { return a; }").unwrap_err();
    assert_eq!(err, "Expected symbol `)` but found {");
}
