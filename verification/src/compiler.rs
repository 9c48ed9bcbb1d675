//! The type checker, the pretty-printer, and the bytecode emitter.
//!
//! The type checker validates declared-vs-inferred return types in a
//! single pass; `Unknown` is a deliberate escape value that suppresses
//! mismatch reporting wherever full inference is not attempted.  The
//! emitter pattern-matches one narrowly shaped function and produces a
//! complete binary module for it.

use vstd::prelude::*;
use crate::text::{is_digit, digit_char, str_eq};
use crate::ast::{
    Param, ParamView, BinOp, Expr, ExprView, Statement, StatementView, Program, ProgramView,
    valid_number_text, check_number_text, stmts_view,
};

verus! {

/// The minimal type model of the checker.
#[derive(Debug, Clone, Copy, PartialEq, Eq, Structural)]
pub enum Type {
    I32,
    F64,
    String,
    Void,
    Unknown,
}

/// The type a declared type name denotes; unrecognized names denote
/// `Unknown`.
pub open spec fn spec_type_from_name(n: Seq<char>) -> Type {
    if n == "i32"@ {
        Type::I32
    } else if n == "f64"@ {
        Type::F64
    } else if n == "string"@ {
        Type::String
    } else if n == "void"@ {
        Type::Void
    } else {
        Type::Unknown
    }
}

/// The display name of a type.
pub open spec fn spec_type_name(t: Type) -> Seq<char> {
    match t {
        Type::I32 => "i32"@,
        Type::F64 => "f64"@,
        Type::String => "string"@,
        Type::Void => "void"@,
        Type::Unknown => "unknown"@,
    }
}

/// Maps a declared type name to the checker's type.
pub fn type_from_name(name: &str) -> (t: Type)
    ensures
        t == spec_type_from_name(name@),
{
    if str_eq(name, "i32") {
        Type::I32
    } else if str_eq(name, "f64") {
        Type::F64
    } else if str_eq(name, "string") {
        Type::String
    } else if str_eq(name, "void") {
        Type::Void
    } else {
        Type::Unknown
    }
}

/// The display name of a type.
pub fn type_label(ty: &Type) -> (r: &'static str)
    ensures
        r@ == spec_type_name(*ty),
{
    match ty {
        Type::I32 => "i32",
        Type::F64 => "f64",
        Type::String => "string",
        Type::Void => "void",
        Type::Unknown => "unknown",
    }
}

/// The type a parameter declares, `Unknown` when it declares none.
pub open spec fn declared_type(p: ParamView) -> Type {
    match p.ty {
        Some(t) => spec_type_from_name(t),
        None => Type::Unknown,
    }
}

/// The type of a name in a function's environment: that of the last
/// parameter bearing the name, `Unknown` when none does.
pub open spec fn env_type(params: Seq<ParamView>, n: Seq<char>) -> Type
    decreases params.len(),
{
    if params.len() == 0 {
        Type::Unknown
    } else if params.last().name == n {
        declared_type(params.last())
    } else {
        env_type(params.drop_last(), n)
    }
}

/// The position just before the first dot at or after `i`, or the end.
pub open spec fn dot_pos(t: Seq<char>, i: int) -> int
    decreases t.len() - i,
{
    if i < t.len() && t[i] != '.' {
        dot_pos(t, i + 1)
    } else {
        i
    }
}

/// A number literal with zero fractional part: after the first dot, if
/// any, only zeros follow.
pub open spec fn integral_text(t: Seq<char>) -> bool {
    forall|j: int| dot_pos(t, 0) < j < t.len() ==> #[trigger] t[j] == '0'
}

/// The type inferred for an expression: integral number literals are
/// `I32`, other number literals `F64`, string literals `String`,
/// identifiers their environment type, and any other form `Unknown`.
pub open spec fn spec_infer(e: ExprView, params: Seq<ParamView>) -> Type {
    match e {
        ExprView::Number(t) => if integral_text(t) {
            Type::I32
        } else {
            Type::F64
        },
        ExprView::StringLiteral(_) => Type::String,
        ExprView::Ident(n) => env_type(params, n),
        ExprView::Binary { .. } => Type::Unknown,
    }
}

/// A reportable conflict: both sides concrete, the expectation neither
/// `Void` nor `Unknown`, and the two different.
pub open spec fn spec_mismatch(expected: Type, got: Type) -> bool {
    expected != Type::Unknown && expected != Type::Void && got != Type::Unknown && got != expected
}

/// The inferred type of the first return statement in `body` that
/// conflicts with `expected`, if any.
pub open spec fn first_body_error(
    body: Seq<StatementView>,
    params: Seq<ParamView>,
    expected: Type,
) -> Option<Type>
    decreases body.len(),
{
    if body.len() == 0 {
        None
    } else if body.first() matches StatementView::Return(e) && spec_mismatch(
        expected,
        spec_infer(e, params),
    ) {
        match body.first() {
            StatementView::Return(e) => Some(spec_infer(e, params)),
            _ => None,
        }
    } else {
        first_body_error(body.drop_first(), params, expected)
    }
}

/// The expected return type of a function: its declared return type name
/// resolved, `Void` when none is declared.
pub open spec fn expected_return(rt: Option<Seq<char>>) -> Type {
    match rt {
        Some(t) => spec_type_from_name(t),
        None => Type::Void,
    }
}

/// The first type conflict in the program, as the offending function's
/// name, the expected type, and the found type.
pub open spec fn spec_type_error(stmts: Seq<StatementView>) -> Option<(Seq<char>, Type, Type)>
    decreases stmts.len(),
{
    if stmts.len() == 0 {
        None
    } else {
        match stmts.first() {
            StatementView::Function { name, params, return_type, body } => {
                let expected = expected_return(return_type);
                match first_body_error(body, params, expected) {
                    Some(got) => Some((name, expected, got)),
                    None => spec_type_error(stmts.drop_first()),
                }
            },
            _ => spec_type_error(stmts.drop_first()),
        }
    }
}

/// The message reported for a type conflict.
pub open spec fn type_error_msg(name: Seq<char>, expected: Type, got: Type) -> Seq<char> {
    "Type error in function `"@ + name + "`: expected `"@ + spec_type_name(expected)
        + "` but found `"@ + spec_type_name(got) + "`"@
}

/// Unknown types never conflict: a reported mismatch always has both the
/// expected and the found type concrete, and the expectation non-`Void`.
pub proof fn lemma_unknown_never_conflicts(expected: Type, got: Type)
    ensures
        expected == Type::Unknown || got == Type::Unknown || expected == Type::Void
            ==> !spec_mismatch(expected, got),
        spec_mismatch(expected, got) ==> expected != got,
{
}


proof fn lemma_env_type_no_match(params: Seq<ParamView>, n: Seq<char>)
    requires
        forall|m: int| 0 <= m < params.len() ==> (#[trigger] params[m]).name != n,
    ensures
        env_type(params, n) == Type::Unknown,
    decreases params.len(),
{
    if params.len() > 0 {
        assert(params.last() == params[params.len() - 1]);
        assert(forall|m: int|
            0 <= m < params.drop_last().len() ==> (#[trigger] params.drop_last()[m]).name != n);
        lemma_env_type_no_match(params.drop_last(), n);
    }
}

proof fn lemma_env_type_at(params: Seq<ParamView>, n: Seq<char>, j: int)
    requires
        0 <= j < params.len(),
        params[j].name == n,
        forall|m: int| j < m < params.len() ==> (#[trigger] params[m]).name != n,
    ensures
        env_type(params, n) == declared_type(params[j]),
    decreases params.len(),
{
    if j == params.len() - 1 {
        assert(params.last() == params[j]);
    } else {
        assert(params.last() == params[params.len() - 1]);
        assert(params.last().name != n);
        assert(params.drop_last()[j] == params[j]);
        assert(forall|m: int|
            j < m < params.drop_last().len() ==> (#[trigger] params.drop_last()[m]).name != n);
        lemma_env_type_at(params.drop_last(), n, j);
    }
}

/// Decides whether a number literal's text has zero fractional part.
#[verifier::loop_isolation(false)]
pub fn is_integral_text(t: &str) -> (r: bool)
    ensures
        r == integral_text(t@),
{
    let n = t.unicode_len();
    let mut i: usize = 0;
    while i < n && t.get_char(i) != '.'
        invariant
            n == t@.len(),
            0 <= i <= n,
            dot_pos(t@, 0) == dot_pos(t@, i as int),
        decreases n - i,
    {
        i = i + 1;
    }
    proof {
        assert(dot_pos(t@, 0) == i);
    }
    if i >= n {
        return true;
    }
    let mut ok = true;
    let mut j: usize = i + 1;
    while j < n
        invariant
            n == t@.len(),
            i + 1 <= j <= n,
            dot_pos(t@, 0) == i,
            ok == (forall|m: int| i < m < j ==> #[trigger] t@[m] == '0'),
        decreases n - j,
    {
        if t.get_char(j) != '0' {
            ok = false;
        }
        j = j + 1;
    }
    ok
}

/// Builds the per-function symbol table: each parameter name mapped to
/// its declared type, later parameters shadowing earlier ones.
#[verifier::loop_isolation(false)]
pub fn build_env(params: &Vec<Param>) -> (env: Vec<(String, Type)>)
    ensures
        env@.len() == params@.len(),
        forall|i: int|
            0 <= i < params@.len() ==> (#[trigger] env@[i]).0@ == params@[i].name@ && env@[i].1
                == declared_type(params@[i]@),
{
    let mut env: Vec<(String, Type)> = Vec::new();
    let n = params.len();
    let mut i: usize = 0;
    while i < n
        invariant
            n == params@.len(),
            0 <= i <= n,
            env@.len() == i,
            forall|k: int|
                0 <= k < i ==> (#[trigger] env@[k]).0@ == params@[k].name@ && env@[k].1
                    == declared_type(params@[k]@),
        decreases n - i,
    {
        let ty = match &params[i].ty {
            Some(t) => type_from_name(t.as_str()),
            None => Type::Unknown,
        };
        env.push((params[i].name.clone(), ty));
        i = i + 1;
    }
    env
}

/// Infers an expression's type from literals and the symbol table.
#[verifier::loop_isolation(false)]
fn infer_expr_type(expr: &Expr, env: &Vec<(String, Type)>, Ghost(paramsv): Ghost<Seq<ParamView>>) -> (t:
    Type)
    requires
        env@.len() == paramsv.len(),
        forall|i: int|
            0 <= i < paramsv.len() ==> (#[trigger] env@[i]).0@ == paramsv[i].name && env@[i].1
                == declared_type(paramsv[i]),
    ensures
        t == spec_infer(expr@, paramsv),
{
    match expr {
        Expr::Number(nt) => {
            if is_integral_text(nt.as_str()) {
                Type::I32
            } else {
                Type::F64
            }
        },
        Expr::StringLiteral(_) => Type::String,
        Expr::Ident(name) => {
            let mut j = env.len();
            while j > 0
                invariant
                    0 <= j <= paramsv.len(),
                    env@.len() == paramsv.len(),
                    forall|i: int|
                        0 <= i < paramsv.len() ==> (#[trigger] env@[i]).0@ == paramsv[i].name
                            && env@[i].1 == declared_type(paramsv[i]),
                    forall|m: int| j <= m < paramsv.len() ==> (#[trigger] paramsv[m]).name != name@,
                decreases j,
            {
                j = j - 1;
                if str_eq(env[j].0.as_str(), name.as_str()) {
                    proof {
                        lemma_env_type_at(paramsv, name@, j as int);
                    }
                    return env[j].1;
                }
            }
            proof {
                lemma_env_type_no_match(paramsv, name@);
            }
            Type::Unknown
        },
        Expr::Binary { .. } => Type::Unknown,
    }
}

/// Builds the message reported for a type conflict.
fn type_error_message(name: &str, expected: &Type, got: &Type) -> (r: String)
    ensures
        r@ == type_error_msg(name@, *expected, *got),
{
    let mut m = String::from_str("Type error in function `");
    m.append(name);
    m.append("`: expected `");
    m.append(type_label(expected));
    m.append("` but found `");
    m.append(type_label(got));
    m.append("`");
    m
}

/// Type-checks the program: for every top-level function, every return
/// statement directly in its body must agree with the declared return
/// type, except where either side is `Unknown` or nothing is expected.
/// Succeeds exactly when the program holds no such conflict; otherwise
/// reports the first one, naming the function and the two types.
#[verifier::loop_isolation(false)]
pub fn type_check(program: &Program) -> (r: Result<(), String>)
    ensures
        match r {
            Ok(u) => spec_type_error(program@.statements) is None,
            Err(e) => spec_type_error(program@.statements) matches Some(t3) && e@ == type_error_msg(
                t3.0,
                t3.1,
                t3.2,
            ),
        },
{
    let ghost sv = program@.statements;
    proof {
        assert(sv.skip(0) =~= sv);
    }
    let n = program.statements.len();
    let mut i: usize = 0;
    while i < n
        invariant
            n == program.statements@.len(),
            sv == program@.statements,
            0 <= i <= n,
            spec_type_error(sv) == spec_type_error(sv.skip(i as int)),
        decreases n - i,
    {
        proof {
            assert(sv[i as int] == program.statements@[i as int]@);
        }
        match &program.statements[i] {
            Statement::Function { name, params, return_type, body } => {
                let ghost paramsv = Seq::new(params@.len(), |k: int| params@[k]@);
                let ghost bodyv = stmts_view(body@);
                let env = build_env(params);
                let expected = match return_type {
                    Some(s2) => type_from_name(s2.as_str()),
                    None => Type::Void,
                };
                proof {
                    assert(bodyv.skip(0) =~= bodyv);
                }
                let m = body.len();
                let mut k: usize = 0;
                while k < m
                    invariant
                        m == body@.len(),
                        bodyv == stmts_view(body@),
                        bodyv.len() == m,
                        0 <= k <= m,
                        env@.len() == paramsv.len(),
                        forall|q: int|
                            0 <= q < paramsv.len() ==> (#[trigger] env@[q]).0@ == paramsv[q].name
                                && env@[q].1 == declared_type(paramsv[q]),
                        first_body_error(bodyv, paramsv, expected) == first_body_error(
                            bodyv.skip(k as int),
                            paramsv,
                            expected,
                        ),
                    decreases m - k,
                {
                    proof {
                        assert(bodyv[k as int] == body@[k as int]@);
                        assert(bodyv.skip(k as int).first() == bodyv[k as int]);
                        assert(bodyv.skip(k as int).drop_first() =~= bodyv.skip(k as int + 1));
                    }
                    match &body[k] {
                        Statement::Return(e2) => {
                            let got = infer_expr_type(e2, &env, Ghost(paramsv));
                            if expected != Type::Unknown && expected != Type::Void && got
                                != Type::Unknown && got != expected {
                                return Err(type_error_message(name.as_str(), &expected, &got));
                            }
                        },
                        _ => {},
                    }
                    k = k + 1;
                }
                proof {
                    assert(bodyv.skip(m as int) =~= Seq::<StatementView>::empty());
                    assert(first_body_error(bodyv, paramsv, expected) is None);
                    assert(sv.skip(i as int).first() == sv[i as int]);
                    assert(sv.skip(i as int).drop_first() =~= sv.skip(i as int + 1));
                }
            },
            _ => {
                proof {
                    assert(sv.skip(i as int).first() == sv[i as int]);
                    assert(sv.skip(i as int).drop_first() =~= sv.skip(i as int + 1));
                }
            },
        }
        i = i + 1;
    }
    proof {
        assert(sv.skip(n as int) =~= Seq::<StatementView>::empty());
    }
    Ok(())
}


/// The printed form of an expression; binary operations print their
/// operands around ` + `, without parentheses, which re-reads as the
/// same strictly left-associated tree.
pub open spec fn spec_pretty_expr(e: ExprView) -> Seq<char>
    decreases e,
{
    match e {
        ExprView::Number(t) => t,
        ExprView::StringLiteral(s2) => "\""@ + s2 + "\""@,
        ExprView::Ident(id) => id,
        ExprView::Binary { op, left, right } => spec_pretty_expr(*left) + " + "@
            + spec_pretty_expr(*right),
    }
}

/// The printed form of a parameter: its name, and `: ty` when a type is
/// declared.
pub open spec fn spec_pretty_param(p: ParamView) -> Seq<char> {
    match p.ty {
        Some(t) => p.name + ": "@ + t,
        None => p.name,
    }
}

/// The printed forms of the parameters from index `i` on, separated by
/// commas.
pub open spec fn spec_pretty_params_from(ps: Seq<ParamView>, i: int) -> Seq<char>
    decreases ps.len() - i,
{
    if i < 0 || i >= ps.len() {
        Seq::empty()
    } else {
        (if i > 0 {
            ", "@
        } else {
            Seq::empty()
        }) + spec_pretty_param(ps[i]) + spec_pretty_params_from(ps, i + 1)
    }
}

/// The printed line of a body statement: return statements and
/// expression statements, indented and terminated; nested function
/// declarations print nothing.
pub open spec fn spec_pretty_line(st: StatementView) -> Seq<char> {
    match st {
        StatementView::Return(e) => "  return "@ + spec_pretty_expr(e) + ";\n"@,
        StatementView::Expr(e) => "  "@ + spec_pretty_expr(e) + ";\n"@,
        StatementView::Function { .. } => Seq::empty(),
    }
}

/// The printed lines of a function body from index `i` on.
pub open spec fn spec_pretty_body_from(body: Seq<StatementView>, i: int) -> Seq<char>
    decreases body.len() - i,
{
    if i < 0 || i >= body.len() {
        Seq::empty()
    } else {
        spec_pretty_line(body[i]) + spec_pretty_body_from(body, i + 1)
    }
}

/// The printed form of a top-level statement: a whole function
/// declaration; anything else prints nothing.
pub open spec fn spec_pretty_stmt(st: StatementView) -> Seq<char> {
    match st {
        StatementView::Function { name, params, return_type, body } => "fn "@ + name + "("@
            + spec_pretty_params_from(params, 0) + ")"@ + (match return_type {
            Some(t) => " -> "@ + t,
            None => Seq::empty(),
        }) + " {\n"@ + spec_pretty_body_from(body, 0) + "}\n\n"@,
        _ => Seq::empty(),
    }
}

/// The printed forms of the top-level statements from index `i` on.
pub open spec fn spec_pretty_from(stmts: Seq<StatementView>, i: int) -> Seq<char>
    decreases stmts.len() - i,
{
    if i < 0 || i >= stmts.len() {
        Seq::empty()
    } else {
        spec_pretty_stmt(stmts[i]) + spec_pretty_from(stmts, i + 1)
    }
}

/// The pretty-printed form of a whole program.
pub open spec fn spec_pretty(p: ProgramView) -> Seq<char> {
    spec_pretty_from(p.statements, 0)
}

/// Appends the printed form of an expression.
fn pretty_expr_into(e: &Expr, out: &mut String)
    ensures
        final(out)@ == old(out)@ + spec_pretty_expr(e@),
    decreases e,
{
    match e {
        Expr::Number(t) => {
            out.append(t.as_str());
        },
        Expr::StringLiteral(s2) => {
            out.append("\"");
            out.append(s2.as_str());
            out.append("\"");
            proof {
                assert(final(out)@ =~= old(out)@ + ("\""@ + s2@ + "\""@));
            }
        },
        Expr::Ident(id) => {
            out.append(id.as_str());
        },
        Expr::Binary { op, left, right } => {
            pretty_expr_into(left, out);
            out.append(" + ");
            pretty_expr_into(right, out);
            proof {
                assert(final(out)@ =~= old(out)@ + (spec_pretty_expr((**left)@) + " + "@
                    + spec_pretty_expr((**right)@)));
            }
        },
    }
}

/// Pretty-prints the program: each top-level function declaration, its
/// parameters and return type on the heading line, and each body
/// statement indented on a line of its own.
#[verifier::loop_isolation(false)]
#[verifier::rlimit(60)]
pub fn pretty(program: &Program) -> (r: String)
    ensures
        r@ == spec_pretty(program@),
{
    let ghost sv = program@.statements;
    let mut out = String::new();
    let n = program.statements.len();
    let mut i: usize = 0;
    while i < n
        invariant
            n == program.statements@.len(),
            sv == program@.statements,
            0 <= i <= n,
            out@ + spec_pretty_from(sv, i as int) == spec_pretty_from(sv, 0),
        decreases n - i,
    {
        proof {
            assert(sv[i as int] == program.statements@[i as int]@);
        }
        let ghost o_stmt = out@;
        match &program.statements[i] {
            Statement::Function { name, params, return_type, body } => {
                let ghost psv = Seq::new(params@.len(), |k: int| params@[k]@);
                let ghost bodyv = stmts_view(body@);
                out.append("fn ");
                out.append(name.as_str());
                out.append("(");
                let ghost o1 = out@;
                let np = params.len();
                let mut pi: usize = 0;
                while pi < np
                    invariant
                        np == params@.len(),
                        psv == Seq::new(params@.len(), |k: int| params@[k]@),
                        0 <= pi <= np,
                        o1 + spec_pretty_params_from(psv, 0) == out@ + spec_pretty_params_from(
                            psv,
                            pi as int,
                        ),
                    decreases np - pi,
                {
                    let ghost o_it = out@;
                    if pi > 0 {
                        out.append(", ");
                    }
                    match &params[pi].ty {
                        Some(t) => {
                            out.append(params[pi].name.as_str());
                            out.append(": ");
                            out.append(t.as_str());
                        },
                        None => {
                            out.append(params[pi].name.as_str());
                        },
                    }
                    proof {
                        assert(psv[pi as int] == params@[pi as int]@);
                        assert(out@ =~= o_it + ((if pi > 0 {
                            ", "@
                        } else {
                            Seq::<char>::empty()
                        }) + spec_pretty_param(psv[pi as int])));
                        assert(out@ + spec_pretty_params_from(psv, pi + 1) =~= o_it
                            + spec_pretty_params_from(psv, pi as int));
                    }
                    pi = pi + 1;
                }
                out.append(")");
                match return_type {
                    Some(ret) => {
                        out.append(" -> ");
                        out.append(ret.as_str());
                    },
                    None => {},
                }
                out.append(" {\n");
                let ghost o2 = out@;
                let nb = body.len();
                let mut bi: usize = 0;
                while bi < nb
                    invariant
                        nb == body@.len(),
                        bodyv == stmts_view(body@),
                        0 <= bi <= nb,
                        o2 + spec_pretty_body_from(bodyv, 0) == out@ + spec_pretty_body_from(
                            bodyv,
                            bi as int,
                        ),
                    decreases nb - bi,
                {
                    let ghost o_it = out@;
                    proof {
                        assert(bodyv[bi as int] == body@[bi as int]@);
                    }
                    match &body[bi] {
                        Statement::Return(expr) => {
                            out.append("  return ");
                            pretty_expr_into(expr, &mut out);
                            out.append(";\n");
                            proof {
                                assert(out@ =~= o_it + ("  return "@ + spec_pretty_expr(
                                    expr@,
                                ) + ";\n"@));
                            }
                        },
                        Statement::Expr(expr) => {
                            out.append("  ");
                            pretty_expr_into(expr, &mut out);
                            out.append(";\n");
                            proof {
                                assert(out@ =~= o_it + ("  "@ + spec_pretty_expr(expr@)
                                    + ";\n"@));
                            }
                        },
                        Statement::Function { .. } => {},
                    }
                    proof {
                        assert(out@ + spec_pretty_body_from(bodyv, bi + 1) =~= o_it
                            + spec_pretty_body_from(bodyv, bi as int));
                    }
                    bi = bi + 1;
                }
                out.append("}\n\n");
                proof {
                    assert(o2 == (((((o_stmt + "fn "@) + name@) + "("@)
                        + spec_pretty_params_from(psv, 0)) + ")"@) + (match return_type {
                        Some(t) => " -> "@ + t@,
                        None => Seq::<char>::empty(),
                    }) + " {\n"@) by {
                        assert(o2 =~= (((((o_stmt + "fn "@) + name@) + "("@)
                            + spec_pretty_params_from(psv, 0)) + ")"@) + (match return_type {
                            Some(t) => " -> "@ + t@,
                            None => Seq::<char>::empty(),
                        }) + " {\n"@);
                    }
                    assert(out@ =~= o_stmt + spec_pretty_stmt(sv[i as int]));
                }
            },
            _ => {
                proof {
                    assert(spec_pretty_stmt(sv[i as int]) =~= Seq::<char>::empty());
                }
            },
        }
        proof {
            assert(out@ + spec_pretty_from(sv, i + 1) =~= o_stmt + spec_pretty_from(
                sv,
                i as int,
            ));
        }
        i = i + 1;
    }
    out
}


/// The unsigned base-128 variable-length encoding: seven value bits per
/// byte, least-significant group first, continuation bit on all but the
/// last byte.
pub open spec fn uleb(v: nat) -> Seq<u8>
    decreases v,
{
    if v < 128 {
        seq![v as u8]
    } else {
        seq![(v % 128 + 128) as u8] + uleb((v / 128) as nat)
    }
}

/// Appends the variable-length encoding of `v`.
#[verifier::loop_isolation(false)]
pub fn write_uleb(v: u32, out: &mut Vec<u8>)
    ensures
        final(out)@ == old(out)@ + uleb(v as nat),
{
    let ghost v0 = v as nat;
    let mut v = v;
    let mut more = true;
    while more
        invariant
            more ==> old(out)@ + uleb(v0) == out@ + uleb(v as nat),
            !more ==> out@ == old(out)@ + uleb(v0),
        decreases v, (if more {
            1int
        } else {
            0int
        }),
    {
        let b0: u8 = (v & 0x7F) as u8;
        let v2 = v >> 7;
        let b = if v2 != 0 {
            b0 | 0x80
        } else {
            b0
        };
        proof {
            assert((v & 0x7F) == v % 128) by (bit_vector);
            assert((v >> 7) == v / 128) by (bit_vector);
            assert(v % 128 < 128) by (bit_vector);
            if v2 != 0 {
                assert((v >> 7) != 0 ==> v >= 128) by (bit_vector);
                assert(b0 < 128 ==> (b0 | 0x80) == b0 + 128) by (bit_vector);
                assert(uleb(v as nat) == seq![(v as nat % 128 + 128) as u8] + uleb(
                    (v as nat / 128) as nat,
                ));
                assert(b == (v as nat % 128 + 128) as u8);
            } else {
                assert((v >> 7) == 0 ==> v < 128) by (bit_vector);
                assert(uleb(v as nat) == seq![(v as nat) as u8]);
                assert(b == (v as nat) as u8);
            }
        }
        out.push(b);
        proof {
            if v2 != 0 {
                assert(out@ + uleb(v2 as nat) =~= old(out)@ + uleb(v0));
            } else {
                assert(out@ =~= old(out)@ + uleb(v0));
            }
        }
        v = v2;
        more = v2 != 0;
    }
}

/// A section: its one-byte ID, the length of its content in the
/// variable-length encoding, then the content.
pub open spec fn spec_section(id: u8, content: Seq<u8>) -> Seq<u8> {
    seq![id] + uleb((content.len() as u32) as nat) + content
}

/// Appends a section with the given ID and content.
pub fn section(id: u8, content: Vec<u8>, out: &mut Vec<u8>)
    ensures
        final(out)@ == old(out)@ + spec_section(id, content@),
{
    out.push(id);
    let len32: u32 = #[verifier::truncate] (content.len() as u32);
    write_uleb(len32, out);
    let ghost cv = content@;
    let mut c = content;
    out.append(&mut c);
    proof {
        assert(final(out)@ =~= old(out)@ + (seq![id] + uleb((cv.len() as u32) as nat) + cv));
    }
}


/// Every parameter is declared `i32` or declares no type; the emitter
/// optimistically treats untyped parameters as `i32`.
pub open spec fn all_params_i32(ps: Seq<ParamView>) -> bool {
    forall|i: int|
        0 <= i < ps.len() ==> match (#[trigger] ps[i]).ty {
            Some(t) => t == "i32"@,
            None => true,
        }
}

/// The position of the first parameter bearing `name`, if any.
pub open spec fn param_pos(ps: Seq<ParamView>, name: Seq<char>) -> Option<int>
    decreases ps.len(),
{
    if ps.len() == 0 {
        None
    } else if ps.first().name == name {
        Some(0)
    } else {
        match param_pos(ps.drop_first(), name) {
            Some(i) => Some(i + 1),
            None => None,
        }
    }
}

proof fn lemma_param_pos_at(ps: Seq<ParamView>, name: Seq<char>, j: int)
    requires
        0 <= j < ps.len(),
        ps[j].name == name,
        forall|m: int| 0 <= m < j ==> (#[trigger] ps[m]).name != name,
    ensures
        param_pos(ps, name) == Some(j),
    decreases ps.len(),
{
    if j == 0 {
        assert(ps.first() == ps[0]);
    } else {
        assert(ps.first() == ps[0]);
        assert(ps.first().name != name);
        assert(ps.drop_first()[j - 1] == ps[j]);
        assert(forall|m: int|
            0 <= m < j - 1 ==> (#[trigger] ps.drop_first()[m]).name != name);
        lemma_param_pos_at(ps.drop_first(), name, j - 1);
    }
}

proof fn lemma_param_pos_none(ps: Seq<ParamView>, name: Seq<char>)
    requires
        forall|m: int| 0 <= m < ps.len() ==> (#[trigger] ps[m]).name != name,
    ensures
        param_pos(ps, name) is None,
    decreases ps.len(),
{
    if ps.len() > 0 {
        assert(ps.first() == ps[0]);
        assert(forall|m: int|
            0 <= m < ps.drop_first().len() ==> (#[trigger] ps.drop_first()[m]).name != name);
        lemma_param_pos_none(ps.drop_first(), name);
    }
}

/// What an eligible function returns: a non-negative constant, or one of
/// its parameters by zero-based position.
pub ghost enum RetSource {
    Const(int),
    Param(int),
}

/// The integer value of a run of decimal digits.
pub open spec fn digits_value(t: Seq<char>) -> int
    decreases t.len(),
{
    if t.len() == 0 {
        0
    } else {
        digits_value(t.drop_last()) * 10 + (t.last() as u32 - 0x30)
    }
}

/// The integer part of a number literal's text: the digits before the
/// first dot.
pub open spec fn lit_value(t: Seq<char>) -> int {
    digits_value(t.take(dot_pos(t, 0)))
}

/// The constant the emitter records for an integral literal: its value,
/// held at the largest signed 32-bit value.
pub open spec fn const_value(t: Seq<char>) -> int {
    if lit_value(t) > 0x7FFFFFFF {
        0x7FFFFFFF
    } else {
        lit_value(t)
    }
}

/// The return source of a single-return body, if its one statement has
/// the supported shape.
pub open spec fn ret_source(params: Seq<ParamView>, body: Seq<StatementView>) -> Option<RetSource> {
    if body.len() == 1 {
        match body[0] {
            StatementView::Return(e) => match e {
                ExprView::Ident(id) => match param_pos(params, id) {
                    Some(i) => Some(RetSource::Param(i)),
                    None => None,
                },
                ExprView::Number(t) => if valid_number_text(t) && integral_text(t) {
                    Some(RetSource::Const(const_value(t)))
                } else {
                    None
                },
                _ => None,
            },
            _ => None,
        }
    } else {
        None
    }
}

/// Whether a statement is an emittable function, and what the emitter
/// records of it: its name, its parameter count, and its return source.
pub open spec fn eligible(st: StatementView) -> Option<(Seq<char>, int, RetSource)> {
    match st {
        StatementView::Function { name, params, return_type, body } => {
            if return_type == Some("i32"@) && body.len() == 1 && all_params_i32(params) {
                match ret_source(params, body) {
                    Some(src) => Some((name, params.len() as int, src)),
                    None => None,
                }
            } else {
                None
            }
        },
        _ => None,
    }
}

/// The first emittable function of the program, in declaration order.
pub open spec fn first_eligible(stmts: Seq<StatementView>) -> Option<(Seq<char>, int, RetSource)>
    decreases stmts.len(),
{
    if stmts.len() == 0 {
        None
    } else {
        match eligible(stmts.first()) {
            Some(t) => Some(t),
            None => first_eligible(stmts.drop_first()),
        }
    }
}

/// The message reported when no function is emittable.
pub open spec fn no_eligible_msg() -> Seq<char> {
    "No suitable function found. Expected e.g. `fn <name>(x: i32, ...) -> i32 { return x; }`"@
}

/// The complete binary module for one emittable function: the 8-byte
/// header, then the type, function, export and code sections, each with
/// a one-byte ID and a length-prefixed content.
pub open spec fn spec_module(name: Seq<char>, param_count: int, src: RetSource) -> Seq<u8> {
    let name_bytes = vstd::utf8::encode_utf8(name);
    let ty = uleb(1) + seq![0x60u8] + uleb((param_count as u32) as nat) + Seq::new(
        param_count as nat,
        |i: int| 0x7Fu8,
    ) + uleb(1) + seq![0x7Fu8];
    let func = uleb(1) + uleb(0);
    let exp = uleb(1) + uleb((name_bytes.len() as u32) as nat) + name_bytes + seq![0x00u8] + uleb(
        0,
    );
    let fbody = seq![0x00u8] + (match src {
        RetSource::Const(v) => seq![0x41u8] + uleb((v as u32) as nat),
        RetSource::Param(i) => seq![0x20u8] + uleb((i as u32) as nat),
    }) + seq![0x0Bu8];
    let code = uleb(1) + uleb((fbody.len() as u32) as nat) + fbody;
    seq![0x00u8, 0x61u8, 0x73u8, 0x6Du8, 0x01u8, 0x00u8, 0x00u8, 0x00u8] + spec_section(1, ty)
        + spec_section(3, func) + spec_section(7, exp) + spec_section(10, code)
}

/// The recorded constant of an integral literal, computed from its text
/// with saturation at the largest signed 32-bit value.
#[verifier::loop_isolation(false)]
fn lit_value_sat(t: &str) -> (v: u32)
    requires
        valid_number_text(t@),
    ensures
        v as int == const_value(t@),
        v <= 0x7FFFFFFF,
{
    let n = t.unicode_len();
    let mut dp: usize = 0;
    while dp < n && t.get_char(dp) != '.'
        invariant
            n == t@.len(),
            0 <= dp <= n,
            dot_pos(t@, 0) == dot_pos(t@, dp as int),
            forall|j: int| 0 <= j < dp ==> #[trigger] t@[j] != '.',
        decreases n - dp,
    {
        dp = dp + 1;
    }
    proof {
        assert(dot_pos(t@, 0) == dp);
        assert(t@.take(0) =~= Seq::<char>::empty());
    }
    let mut v: u32 = 0;
    let mut i: usize = 0;
    while i < dp
        invariant
            n == t@.len(),
            valid_number_text(t@),
            0 <= i <= dp <= n,
            forall|j: int| 0 <= j < dp ==> #[trigger] t@[j] != '.',
            v <= 0x7FFFFFFF,
            v as int == (if digits_value(t@.take(i as int)) > 0x7FFFFFFF {
                0x7FFFFFFFint
            } else {
                digits_value(t@.take(i as int))
            }),
            digits_value(t@.take(i as int)) >= 0,
        decreases dp - i,
    {
        let c = t.get_char(i);
        proof {
            assert(is_digit(t@[i as int]) || t@[i as int] == '.');
            assert(is_digit(c));
        }
        let d: u32 = (c as u32) - 0x30;
        let ghost dv = digits_value(t@.take(i as int));
        let ghost dv2 = dv * 10 + d;
        proof {
            assert(t@.take(i + 1).drop_last() =~= t@.take(i as int));
            assert(t@.take(i + 1).last() == t@[i as int]);
            assert(digits_value(t@.take(i + 1)) == dv * 10 + d);
            assert(dv * 10 + d >= 0) by (nonlinear_arith)
                requires
                    dv >= 0,
            ;
        }
        if v > (0x7FFFFFFF - d) / 10 {
            proof {
                let m: int = 0x7FFFFFFF;
                assert(10 * ((m - d) / 10) >= m - d - 9);
                assert(v as int * 10 >= ((m - d) / 10 + 1) * 10) by (nonlinear_arith)
                    requires
                        v as int >= (m - d) / 10 + 1,
                ;
                assert(v * 10 + d > m);
                assert(dv >= v);
                assert(dv * 10 + d >= v as int * 10 + d) by (nonlinear_arith)
                    requires
                        dv >= v as int,
                ;
                assert(dv2 > m);
            }
            v = 0x7FFFFFFF;
        } else {
            proof {
                let m: int = 0x7FFFFFFF;
                assert(10 * ((m - d) / 10) <= m - d);
                assert(v as int * 10 <= ((m - d) / 10) * 10) by (nonlinear_arith)
                    requires
                        v as int <= (m - d) / 10,
                ;
                assert(v as int * 10 + d <= m);
                if dv > m {
                    assert((m - d) / 10 < m);
                    assert(false);
                }
                assert(dv == v as int);
                assert(dv2 == v as int * 10 + d);
            }
            v = v * 10 + d;
        }
        i = i + 1;
    }
    proof {
        assert(t@.take(dp as int) == t@.take(dot_pos(t@, 0)));
    }
    v
}


/// The return source as the emitter records it at run time.
enum RetSrc {
    Const(u32),
    Param(usize),
}

/// The mathematical value of a recorded return source.
spec fn ret_src_view(r: RetSrc) -> RetSource {
    match r {
        RetSrc::Const(v) => RetSource::Const(v as int),
        RetSrc::Param(i) => RetSource::Param(i as int),
    }
}

/// Decides whether one statement is an emittable function, yielding what
/// the emitter records of it.
#[verifier::loop_isolation(false)]
fn check_candidate(st: &Statement) -> (r: Option<(String, usize, RetSrc)>)
    ensures
        match r {
            Some(t) => eligible(st@) == Some((t.0@, t.1 as int, ret_src_view(t.2))),
            None => eligible(st@) is None,
        },
{
    match st {
        Statement::Function { name, params, return_type, body } => {
            let ghost psv = Seq::new(params@.len(), |k: int| params@[k]@);
            let rt_ok = match return_type {
                Some(t) => str_eq(t.as_str(), "i32"),
                None => false,
            };
            if !rt_ok {
                proof {
                    match return_type {
                        Some(t) => {
                            assert(t@ != "i32"@);
                            assert(st@->Function_return_type == Some(t@));
                        },
                        None => {
                            assert(st@->Function_return_type == None::<Seq<char>>);
                        },
                    }
                    assert(eligible(st@) is None);
                }
                return None;
            }
            if body.len() != 1 {
                proof {
                    assert(stmts_view(body@).len() == body@.len());
                    assert(eligible(st@) is None);
                }
                return None;
            }
            let np = params.len();
            let mut j: usize = 0;
            let mut ok = true;
            while j < np
                invariant
                    np == params@.len(),
                    psv == Seq::new(params@.len(), |k: int| params@[k]@),
                    0 <= j <= np,
                    ok == (forall|m: int|
                        0 <= m < j ==> match (#[trigger] psv[m]).ty {
                            Some(t) => t == "i32"@,
                            None => true,
                        }),
                decreases np - j,
            {
                proof {
                    assert(psv[j as int] == params@[j as int]@);
                }
                match &params[j].ty {
                    Some(t) => {
                        if !str_eq(t.as_str(), "i32") {
                            ok = false;
                        }
                    },
                    None => {},
                }
                j = j + 1;
            }
            if !ok {
                return None;
            }
            proof {
                assert(all_params_i32(psv));
                assert(stmts_view(body@)[0] == body@[0]@);
            }
            match &body[0] {
                Statement::Return(e) => match e {
                    Expr::Ident(id) => {
                        let mut k: usize = 0;
                        while k < np
                            invariant
                                np == params@.len(),
                                psv == Seq::new(params@.len(), |q: int| params@[q]@),
                                0 <= k <= np,
                                forall|m: int| 0 <= m < k ==> (#[trigger] psv[m]).name != id@,
                            decreases np - k,
                        {
                            proof {
                                assert(psv[k as int] == params@[k as int]@);
                            }
                            if str_eq(params[k].name.as_str(), id.as_str()) {
                                proof {
                                    lemma_param_pos_at(psv, id@, k as int);
                                }
                                return Some((name.clone(), np, RetSrc::Param(k)));
                            }
                            k = k + 1;
                        }
                        proof {
                            lemma_param_pos_none(psv, id@);
                        }
                        None
                    },
                    Expr::Number(t) => {
                        if check_number_text(t.as_str()) && is_integral_text(t.as_str()) {
                            let v = lit_value_sat(t.as_str());
                            Some((name.clone(), np, RetSrc::Const(v)))
                        } else {
                            None
                        }
                    },
                    _ => None,
                },
                _ => None,
            }
        },
        _ => None,
    }
}

/// Emits the complete binary module for the first emittable function of
/// the program: a function declared `-> i32`, with every parameter
/// declared `i32` or untyped, whose body is exactly one return of a
/// parameter or of a non-negative integral number literal.  Fails, with
/// a message describing the required shape, exactly when no function of
/// the program has that shape.
#[verifier::loop_isolation(false)]
pub fn compile_to_wasm(program: &Program) -> (r: Result<Vec<u8>, String>)
    ensures
        match r {
            Ok(bytes) => first_eligible(program@.statements) matches Some(t) && bytes@
                == spec_module(t.0, t.1, t.2),
            Err(e) => first_eligible(program@.statements) is None && e@ == no_eligible_msg(),
        },
{
    let ghost sv = program@.statements;
    proof {
        assert(sv.skip(0) =~= sv);
    }
    let n = program.statements.len();
    let mut i: usize = 0;
    let mut found: Option<(String, usize, RetSrc)> = None;
    while i < n && found.is_none()
        invariant
            n == program.statements@.len(),
            sv == program@.statements,
            0 <= i <= n,
            found is None ==> first_eligible(sv) == first_eligible(sv.skip(i as int)),
            found matches Some(t) ==> first_eligible(sv) == Some(
                (t.0@, t.1 as int, ret_src_view(t.2)),
            ),
        decreases n - i,
    {
        proof {
            assert(sv[i as int] == program.statements@[i as int]@);
            assert(sv.skip(i as int).first() == sv[i as int]);
            assert(sv.skip(i as int).drop_first() =~= sv.skip(i as int + 1));
        }
        match check_candidate(&program.statements[i]) {
            Some(t) => {
                found = Some(t);
            },
            None => {},
        }
        i = i + 1;
    }
    match found {
        None => {
            proof {
                assert(sv.skip(n as int) =~= Seq::<StatementView>::empty());
            }
            Err(
                String::from_str(
                    "No suitable function found. Expected e.g. `fn <name>(x: i32, ...) -> i32 { return x; }`",
                ),
            )
        },
        Some((export, param_count, src)) => {
            let ghost namev = export@;
            let ghost pcv = param_count as int;
            let ghost srcv = ret_src_view(src);
            let ghost name_bytes = vstd::utf8::encode_utf8(namev);
            let ghost tyv = uleb(1) + seq![0x60u8] + uleb((pcv as u32) as nat) + Seq::new(
                pcv as nat,
                |x: int| 0x7Fu8,
            ) + uleb(1) + seq![0x7Fu8];
            let ghost funcv = uleb(1) + uleb(0);
            let ghost expv = uleb(1) + uleb((name_bytes.len() as u32) as nat) + name_bytes + seq![
                0x00u8,
            ] + uleb(0);
            let ghost fbodyv = seq![0x00u8] + (match srcv {
                RetSource::Const(v) => seq![0x41u8] + uleb((v as u32) as nat),
                RetSource::Param(ix) => seq![0x20u8] + uleb((ix as u32) as nat),
            }) + seq![0x0Bu8];
            let ghost codev = uleb(1) + uleb((fbodyv.len() as u32) as nat) + fbodyv;

            let mut out: Vec<u8> = Vec::new();
            out.push(0x00);
            out.push(0x61);
            out.push(0x73);
            out.push(0x6D);
            out.push(0x01);
            out.push(0x00);
            out.push(0x00);
            out.push(0x00);
            proof {
                assert(out@ =~= seq![
                    0x00u8,
                    0x61u8,
                    0x73u8,
                    0x6Du8,
                    0x01u8,
                    0x00u8,
                    0x00u8,
                    0x00u8,
                ]);
            }
            // type section: one function type, all parameters i32, one
            // i32 result
            let mut ty: Vec<u8> = Vec::new();
            write_uleb(1, &mut ty);
            ty.push(0x60);
            let pc32: u32 = #[verifier::truncate] (param_count as u32);
            write_uleb(pc32, &mut ty);
            let ghost ty0 = ty@;
            let mut q: usize = 0;
            while q < param_count
                invariant
                    0 <= q <= param_count,
                    ty@ == ty0 + Seq::new(q as nat, |x: int| 0x7Fu8),
                decreases param_count - q,
            {
                ty.push(0x7F);
                proof {
                    assert(ty@ =~= ty0 + Seq::new((q + 1) as nat, |x: int| 0x7Fu8));
                }
                q = q + 1;
            }
            write_uleb(1, &mut ty);
            ty.push(0x7F);
            proof {
                assert(ty@ =~= tyv);
            }
            section(1, ty, &mut out);
            // function section: one function, of type index zero
            let mut fsec: Vec<u8> = Vec::new();
            write_uleb(1, &mut fsec);
            write_uleb(0, &mut fsec);
            proof {
                assert(fsec@ =~= funcv);
            }
            section(3, fsec, &mut out);
            // export section: function index zero under the source name
            let mut exp: Vec<u8> = Vec::new();
            write_uleb(1, &mut exp);
            let nb = vstd::slice::slice_to_vec(export.as_str().as_bytes());
            let nb_len32: u32 = #[verifier::truncate] (nb.len() as u32);
            write_uleb(nb_len32, &mut exp);
            let ghost nbv = nb@;
            let mut nbm = nb;
            exp.append(&mut nbm);
            exp.push(0x00);
            write_uleb(0, &mut exp);
            proof {
                assert(nbv == name_bytes);
                assert(exp@ =~= expv);
            }
            section(7, exp, &mut out);
            // code section: one body, no locals, one instruction and the
            // terminator
            let mut fb: Vec<u8> = Vec::new();
            fb.push(0x00);
            match &src {
                RetSrc::Const(v) => {
                    fb.push(0x41);
                    write_uleb(*v, &mut fb);
                },
                RetSrc::Param(idx) => {
                    fb.push(0x20);
                    let idx32: u32 = #[verifier::truncate] (*idx as u32);
                    write_uleb(idx32, &mut fb);
                },
            }
            fb.push(0x0B);
            proof {
                assert(fb@ =~= fbodyv);
            }
            let mut code: Vec<u8> = Vec::new();
            write_uleb(1, &mut code);
            let fb_len32: u32 = #[verifier::truncate] (fb.len() as u32);
            write_uleb(fb_len32, &mut code);
            let mut fbm = fb;
            code.append(&mut fbm);
            proof {
                assert(code@ =~= codev);
            }
            section(10, code, &mut out);
            proof {
                assert(out@ =~= spec_module(namev, pcv, srcv));
            }
            Ok(out)
        },
    }
}


/// Code generation rejects, function by function, the unsupported
/// shapes: a declared return type other than `i32` (or none), a body of
/// more than one statement, and a returned number literal with a nonzero
/// fractional part.  A negative literal cannot arise at all: a number
/// literal's text begins with a digit.  Rejection is by value, through
/// [`compile_to_wasm`]'s contract, never by panic.
pub proof fn lemma_codegen_rejects(st: StatementView)
    ensures
        (st matches StatementView::Function { return_type, .. } && return_type != Some("i32"@))
            ==> eligible(st) is None,
        (st matches StatementView::Function { body, .. } && body.len() != 1) ==> eligible(st)
            is None,
        (st matches StatementView::Function { params, body, .. } && body.len() == 1 && (body[0]
            matches StatementView::Return(e) && (e matches ExprView::Number(t) && !integral_text(
            t,
        )))) ==> eligible(st) is None,
{
}

/// A program none of whose statements is emittable makes code
/// generation fail as a whole.
pub proof fn lemma_no_eligible(stmts: Seq<StatementView>)
    requires
        forall|i: int| 0 <= i < stmts.len() ==> eligible(#[trigger] stmts[i]) is None,
    ensures
        first_eligible(stmts) is None,
    decreases stmts.len(),
{
    if stmts.len() > 0 {
        assert(stmts.first() == stmts[0]);
        assert(forall|i: int|
            0 <= i < stmts.drop_first().len() ==> eligible(
                #[trigger] stmts.drop_first()[i],
            ) is None);
        lemma_no_eligible(stmts.drop_first());
    }
}

} // verus!
