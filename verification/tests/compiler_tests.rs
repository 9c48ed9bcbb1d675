use mintc::lexer::Lexer;
use mintc::parser::Parser;
use mintc::ast::{Program, Statement};
use mintc::compiler::{compile_to_wasm, pretty, type_check, type_from_name, type_label, Type};

fn parse_src(src: &str) -> Program {
    let mut p = Parser::new(Lexer::new(src));
    p.parse().expect("source should parse")
}

#[test]
fn type_check_declared_and_unknown_never_conflict() {
    let prog = parse_src("fn add(a: i32, b: i32) -> i32 { return a; }");
    assert!(type_check(&prog).is_ok());
    // untyped parameter infers Unknown and never conflicts
    let prog2 = parse_src("fn g(x) -> i32 { return x; }");
    assert!(type_check(&prog2).is_ok());
    // no declared return type expects Void and reports nothing
    let prog3 = parse_src("fn h() { return \"hi\"; }");
    assert!(type_check(&prog3).is_ok());
}

#[test]
fn type_check_reports_string_against_i32() {
    let prog = parse_src("fn f() -> i32 { return \"hi\"; }");
    let err = type_check(&prog).unwrap_err();
    assert_eq!(err, "Type error in function `f`: expected `i32` but found `string`");
}

#[test]
fn type_check_reports_fractional_against_i32() {
    let prog = parse_src("fn f() -> i32 { return 1.5; }");
    let err = type_check(&prog).unwrap_err();
    assert_eq!(err, "Type error in function `f`: expected `i32` but found `f64`");
}

#[test]
fn type_check_integral_literal_is_i32() {
    let prog = parse_src("fn f() -> i32 { return 3.0; }");
    assert!(type_check(&prog).is_ok());
}

#[test]
fn type_names_round() {
    assert_eq!(type_from_name("i32"), Type::I32);
    assert_eq!(type_from_name("f64"), Type::F64);
    assert_eq!(type_from_name("string"), Type::String);
    assert_eq!(type_from_name("void"), Type::Void);
    assert_eq!(type_from_name("whatever"), Type::Unknown);
    assert_eq!(type_label(&Type::I32), "i32");
    assert_eq!(type_label(&Type::Unknown), "unknown");
}

#[test]
fn codegen_identity_function() {
    let prog = parse_src("fn id(x: i32) -> i32 { return x; }");
    let bytes = compile_to_wasm(&prog).expect("should compile");
    let expected: Vec<u8> = vec![
        0x00, 0x61, 0x73, 0x6D, // magic
        0x01, 0x00, 0x00, 0x00, // version
        0x01, 0x06, 0x01, 0x60, 0x01, 0x7F, 0x01, 0x7F, // type section
        0x03, 0x02, 0x01, 0x00, // function section
        0x07, 0x06, 0x01, 0x02, 0x69, 0x64, 0x00, 0x00, // export "id"
        0x0A, 0x06, 0x01, 0x04, 0x00, 0x20, 0x00, 0x0B, // code: local.get 0; end
    ];
    assert_eq!(bytes, expected);
}

#[test]
fn codegen_constant_function() {
    let prog = parse_src("fn five() -> i32 { return 5; }");
    let bytes = compile_to_wasm(&prog).expect("should compile");
    let expected: Vec<u8> = vec![
        0x00, 0x61, 0x73, 0x6D, // magic
        0x01, 0x00, 0x00, 0x00, // version
        0x01, 0x05, 0x01, 0x60, 0x00, 0x01, 0x7F, // type section, no params
        0x03, 0x02, 0x01, 0x00, // function section
        0x07, 0x08, 0x01, 0x04, 0x66, 0x69, 0x76, 0x65, 0x00, 0x00, // export "five"
        0x0A, 0x06, 0x01, 0x04, 0x00, 0x41, 0x05, 0x0B, // code: i32.const 5; end
    ];
    assert_eq!(bytes, expected);
}

#[test]
fn codegen_picks_second_parameter() {
    let prog = parse_src("fn pick(a: i32, b: i32) -> i32 { return b; }");
    let bytes = compile_to_wasm(&prog).expect("should compile");
    // code section holds local.get 1
    let n = bytes.len();
    assert_eq!(&bytes[n - 4..], &[0x00, 0x20, 0x01, 0x0B]);
}

#[test]
fn codegen_fails_not_panics_on_unsupported_shapes() {
    let msg = "No suitable function found. Expected e.g. `fn <name>(x: i32, ...) -> i32 { return x; }`";
    // fractional literal
    let prog = parse_src("fn f() -> i32 { return 1.5; }");
    assert_eq!(compile_to_wasm(&prog).unwrap_err(), msg);
    // multi-statement body
    let prog = parse_src("fn f(x: i32) -> i32 { return x; return x; }");
    assert_eq!(compile_to_wasm(&prog).unwrap_err(), msg);
    // non-i32 declared return type
    let prog = parse_src("fn f() -> f64 { return 1; }");
    assert_eq!(compile_to_wasm(&prog).unwrap_err(), msg);
    // no declared return type
    let prog = parse_src("fn f() { return 1; }");
    assert_eq!(compile_to_wasm(&prog).unwrap_err(), msg);
    // returns a name that is no parameter
    let prog = parse_src("fn f(x: i32) -> i32 { return y; }");
    assert_eq!(compile_to_wasm(&prog).unwrap_err(), msg);
    // a non-i32 parameter
    let prog = parse_src("fn f(x: f64) -> i32 { return 3; }");
    assert_eq!(compile_to_wasm(&prog).unwrap_err(), msg);
}

#[test]
fn codegen_skips_to_first_eligible() {
    let prog = parse_src("fn bad() -> f64 { return 1; } fn ok() -> i32 { return 7; }");
    let bytes = compile_to_wasm(&prog).expect("should compile the second function");
    // export section names "ok"
    let name: Vec<u8> = vec![0x02, 0x6F, 0x6B];
    assert!(bytes.windows(3).any(|w| w == &name[..]));
    let n = bytes.len();
    assert_eq!(&bytes[n - 4..], &[0x00, 0x41, 0x07, 0x0B]);
}

#[test]
fn codegen_saturates_large_constants() {
    let prog = parse_src("fn big() -> i32 { return 99999999999; }");
    let bytes = compile_to_wasm(&prog).expect("should compile");
    // i32::MAX = 0x7FFFFFFF encodes as FF FF FF FF 07
    let tail: Vec<u8> = vec![0x41, 0xFF, 0xFF, 0xFF, 0xFF, 0x07, 0x0B];
    let n = bytes.len();
    assert_eq!(&bytes[n - 7..], &tail[..]);
}

#[test]
fn pretty_prints_function_heading_and_body() {
    let prog = parse_src("fn foo(x: i32, y) -> i32 { return x + 1; }");
    let out = pretty(&prog);
    assert_eq!(out, "fn foo(x: i32, y) -> i32 {\n  return x + 1;\n}\n\n");
}

#[test]
fn pretty_then_reparse_preserves_structure() {
    let src = "fn add(a: i32, b) -> i32 { return a + b; } fn five() { return 5; }";
    let prog = parse_src(src);
    let printed = pretty(&prog);
    let prog2 = parse_src(&printed);
    let printed2 = pretty(&prog2);
    assert_eq!(printed, printed2);
    assert_eq!(prog.statements.len(), prog2.statements.len());
    for (a, b) in prog.statements.iter().zip(prog2.statements.iter()) {
        match (a, b) {
            (
                Statement::Function { name: n1, params: p1, return_type: r1, body: b1 },
                Statement::Function { name: n2, params: p2, return_type: r2, body: b2 },
            ) => {
                assert_eq!(n1, n2);
                assert_eq!(r1, r2);
                assert_eq!(p1.len(), p2.len());
                assert_eq!(b1.len(), b2.len());
                for (q1, q2) in p1.iter().zip(p2.iter()) {
                    assert_eq!(q1.name, q2.name);
                    assert_eq!(q1.ty, q2.ty);
                }
            }
            _ => panic!("Expected function statements"),
        }
    }
}
