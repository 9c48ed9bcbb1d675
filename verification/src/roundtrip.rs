//! Round-trip idempotence of the pretty-printer.
//!
//! Pretty-printing a program and lexing and parsing the result again
//! yields the program back, for any program drawn from the supported
//! grammar subset.  The proof goes in two halves: lexing the printed
//! text yields exactly the program's token sequence, and parsing that
//! token sequence rebuilds the program.

use vstd::prelude::*;
use crate::text::{is_ws, is_digit, is_alpha, is_alnum};
use crate::ast::{ParamView, BinOp, ExprView, StatementView, ProgramView, valid_number_text};
use crate::lexer::{TokenKindView, is_keyword, spec_tokens, spec_tokens_from};
use crate::parser::{
    kinds, spec_parse_primary, spec_parse_binop_rhs, spec_parse_expression,
    spec_parse_params_loop, spec_parse_params, spec_parse_statement, spec_parse_function,
    spec_parse_function_tail, spec_parse_body, spec_parse_stmts, spec_parse,
};
use crate::compiler::{spec_pretty, spec_pretty_expr, spec_pretty_param, spec_pretty_params_from,
    spec_pretty_line, spec_pretty_body_from, spec_pretty_stmt, spec_pretty_from};

verus! {

/// An expression that is no binary operation: a lone literal or name.
pub open spec fn is_primary(e: ExprView) -> bool {
    !(e matches ExprView::Binary { .. })
}

/// An expression the grammar can produce: number texts read as numbers,
/// and every binary right operand is a primary, so the tree is a
/// strictly left-associated chain.
pub open spec fn parseable_expr(e: ExprView) -> bool
    decreases e,
{
    match e {
        ExprView::Number(t) => valid_number_text(t),
        ExprView::StringLiteral(_) => true,
        ExprView::Ident(_) => true,
        ExprView::Binary { op, left, right } => parseable_expr(*left) && is_primary(*right)
            && parseable_expr(*right),
    }
}

/// The one token of a primary expression.
pub open spec fn prim_toks(e: ExprView) -> Seq<TokenKindView> {
    match e {
        ExprView::Number(t) => seq![TokenKindView::Number(t)],
        ExprView::StringLiteral(t) => seq![TokenKindView::StringLiteral(t)],
        ExprView::Ident(id) => seq![TokenKindView::Ident(id)],
        ExprView::Binary { .. } => Seq::empty(),
    }
}

/// The tokens of an expression: its primaries joined by plus symbols.
pub open spec fn expr_toks(e: ExprView) -> Seq<TokenKindView>
    decreases e,
{
    match e {
        ExprView::Binary { op, left, right } => expr_toks(*left) + seq![
            TokenKindView::Symbol('+'),
        ] + prim_toks(*right),
        _ => prim_toks(e),
    }
}

/// The leftmost primary of a chain of additions.
pub open spec fn left_base(e: ExprView) -> ExprView
    decreases e,
{
    match e {
        ExprView::Binary { op, left, right } => left_base(*left),
        _ => e,
    }
}

/// The primaries folded onto the leftmost one, in order.
pub open spec fn spine_prims(e: ExprView) -> Seq<ExprView>
    decreases e,
{
    match e {
        ExprView::Binary { op, left, right } => spine_prims(*left).push(*right),
        _ => Seq::empty(),
    }
}

/// Folding the primaries onto `left`, left to right.
pub open spec fn fold_chain(left: ExprView, prims: Seq<ExprView>) -> ExprView
    decreases prims.len(),
{
    if prims.len() == 0 {
        left
    } else {
        fold_chain(
            ExprView::Binary {
                op: BinOp::Add,
                left: Box::new(left),
                right: Box::new(prims.first()),
            },
            prims.drop_first(),
        )
    }
}

/// The tokens of a run of `+ primary` pairs.
pub open spec fn prims_toks(prims: Seq<ExprView>) -> Seq<TokenKindView>
    decreases prims.len(),
{
    if prims.len() == 0 {
        Seq::empty()
    } else {
        seq![TokenKindView::Symbol('+')] + prim_toks(prims.first()) + prims_toks(
            prims.drop_first(),
        )
    }
}

/// Every element is a well-formed primary.
pub open spec fn all_primaries(prims: Seq<ExprView>) -> bool {
    forall|i: int|
        0 <= i < prims.len() ==> is_primary(#[trigger] prims[i]) && parseable_expr(prims[i])
}

proof fn lemma_fold_push(left: ExprView, sp: Seq<ExprView>, r: ExprView)
    ensures
        fold_chain(left, sp.push(r)) == (ExprView::Binary {
            op: BinOp::Add,
            left: Box::new(fold_chain(left, sp)),
            right: Box::new(r),
        }),
    decreases sp.len(),
{
    if sp.len() == 0 {
        let b = ExprView::Binary { op: BinOp::Add, left: Box::new(left), right: Box::new(r) };
        assert(sp.push(r).len() == 1);
        assert(sp.push(r).first() == r);
        assert(sp.push(r).drop_first() =~= Seq::<ExprView>::empty());
        assert(fold_chain(b, sp.push(r).drop_first()) == b);
        assert(fold_chain(left, sp.push(r)) == fold_chain(b, sp.push(r).drop_first()));
        assert(fold_chain(left, sp) == left);
    } else {
        let b = ExprView::Binary {
            op: BinOp::Add,
            left: Box::new(left),
            right: Box::new(sp.first()),
        };
        assert(sp.push(r).first() == sp.first());
        assert(sp.push(r).drop_first() =~= sp.drop_first().push(r));
        lemma_fold_push(b, sp.drop_first(), r);
        assert(fold_chain(left, sp.push(r)) == fold_chain(b, sp.push(r).drop_first()));
        assert(fold_chain(left, sp) == fold_chain(b, sp.drop_first()));
    }
}

proof fn lemma_prims_toks_push(sp: Seq<ExprView>, r: ExprView)
    ensures
        prims_toks(sp.push(r)) == prims_toks(sp) + seq![TokenKindView::Symbol('+')] + prim_toks(r),
    decreases sp.len(),
{
    if sp.len() == 0 {
        assert(sp.push(r).first() == r);
        assert(sp.push(r).drop_first() =~= Seq::<ExprView>::empty());
        assert(prims_toks(sp.push(r).drop_first()) =~= Seq::<TokenKindView>::empty());
        assert(prims_toks(sp) =~= Seq::<TokenKindView>::empty());
        assert(prims_toks(sp.push(r)) == seq![TokenKindView::Symbol('+')] + prim_toks(r)
            + prims_toks(sp.push(r).drop_first()));
        assert(prims_toks(sp.push(r)) =~= prims_toks(sp) + seq![TokenKindView::Symbol('+')]
            + prim_toks(r));
    } else {
        assert(sp.push(r).first() == sp.first());
        assert(sp.push(r).drop_first() =~= sp.drop_first().push(r));
        lemma_prims_toks_push(sp.drop_first(), r);
        assert(prims_toks(sp.push(r)) == seq![TokenKindView::Symbol('+')] + prim_toks(sp.first())
            + prims_toks(sp.drop_first().push(r)));
        assert(prims_toks(sp) == seq![TokenKindView::Symbol('+')] + prim_toks(sp.first())
            + prims_toks(sp.drop_first()));
        assert(prims_toks(sp.push(r)) =~= prims_toks(sp) + seq![TokenKindView::Symbol('+')]
            + prim_toks(r));
    }
}

/// An addition chain decomposes into its leftmost primary and the run of
/// primaries folded onto it.
proof fn lemma_fold_spine(e: ExprView)
    requires
        parseable_expr(e),
    ensures
        is_primary(left_base(e)),
        parseable_expr(left_base(e)),
        all_primaries(spine_prims(e)),
        fold_chain(left_base(e), spine_prims(e)) == e,
        expr_toks(e) == prim_toks(left_base(e)) + prims_toks(spine_prims(e)),
    decreases e,
{
    match e {
        ExprView::Binary { op, left, right } => {
            lemma_fold_spine(*left);
            lemma_fold_push(left_base(e), spine_prims(*left), *right);
            lemma_prims_toks_push(spine_prims(*left), *right);
            assert(all_primaries(spine_prims(e))) by {
                let sp = spine_prims(*left);
                assert(forall|i: int|
                    0 <= i < sp.len() ==> #[trigger] sp.push(*right)[i] == sp[i]);
                assert(sp.push(*right)[sp.len() as int] == *right);
            }
            assert(expr_toks(e) =~= prim_toks(left_base(e)) + prims_toks(spine_prims(e)));
        },
        _ => {
            assert(expr_toks(e) =~= prim_toks(left_base(e)) + prims_toks(spine_prims(e)));
        },
    }
}

proof fn lemma_parse_primary_seg(toks: Seq<TokenKindView>, p: int, e: ExprView)
    requires
        0 <= p,
        p + 1 <= toks.len(),
        is_primary(e),
        parseable_expr(e),
        toks[p] == prim_toks(e)[0],
    ensures
        spec_parse_primary(toks, p) == (Ok::<ExprView, Seq<char>>(e), p + 1),
{
}

proof fn lemma_binop_fold(toks: Seq<TokenKindView>, p: int, left: ExprView, prims: Seq<ExprView>)
    requires
        0 <= p,
        p + prims_toks(prims).len() <= toks.len(),
        all_primaries(prims),
        toks.subrange(p, p + prims_toks(prims).len()) == prims_toks(prims),
        p + prims_toks(prims).len() == toks.len() || !(toks[p + prims_toks(prims).len()]
            matches TokenKindView::Symbol(c) && c == '+'),
    ensures
        spec_parse_binop_rhs(toks, p, left) == (
            Ok::<ExprView, Seq<char>>(fold_chain(left, prims)),
            p + prims_toks(prims).len(),
        ),
    decreases prims.len(),
{
    let seg = prims_toks(prims);
    if prims.len() == 0 {
        assert(seg.len() == 0);
    } else {
        let e0 = prims.first();
        let rest = prims.drop_first();
        let seg_rest = prims_toks(rest);
        assert(prim_toks(e0).len() == 1);
        assert(seg == seq![TokenKindView::Symbol('+')] + prim_toks(e0) + seg_rest);
        assert(seg.len() == 2 + seg_rest.len());
        assert(toks[p] == seg[0]);
        assert(seg[0] == TokenKindView::Symbol('+'));
        assert(toks[p + 1] == seg[1]);
        assert(seg[1] == prim_toks(e0)[0]);
        assert(prims[0] == e0);
        lemma_parse_primary_seg(toks, p + 1, e0);
        let left2 = ExprView::Binary { op: BinOp::Add, left: Box::new(left), right: Box::new(e0) };
        let head = seq![TokenKindView::Symbol('+')] + prim_toks(e0);
        assert(head.len() == 2);
        assert(seg == head + seg_rest);
        assert forall|i: int| 0 <= i < seg_rest.len() implies toks.subrange(
            p + 2,
            p + 2 + seg_rest.len(),
        )[i] == seg_rest[i] by {
            assert(toks.subrange(p + 2, p + 2 + seg_rest.len())[i] == toks[p + 2 + i]);
            assert(toks.subrange(p, p + seg.len())[i + 2] == toks[p + 2 + i]);
            vstd::seq::axiom_seq_add_index2(head, seg_rest, i + 2);
            assert(seg[i + 2] == seg_rest[i]);
        }
        assert(toks.subrange(p + 2, p + 2 + seg_rest.len()) =~= seg_rest);
        assert(all_primaries(rest)) by {
            assert(forall|i: int| 0 <= i < rest.len() ==> rest[i] == prims[i + 1]);
        }
        lemma_binop_fold(toks, p + 2, left2, rest);
        assert(fold_chain(left, prims) == fold_chain(left2, rest));
    }
}

proof fn lemma_parse_expression_seg(toks: Seq<TokenKindView>, p: int, e: ExprView)
    requires
        0 <= p,
        p + expr_toks(e).len() <= toks.len(),
        parseable_expr(e),
        toks.subrange(p, p + expr_toks(e).len()) == expr_toks(e),
        p + expr_toks(e).len() == toks.len() || !(toks[p + expr_toks(e).len()]
            matches TokenKindView::Symbol(c) && c == '+'),
    ensures
        spec_parse_expression(toks, p) == (
            Ok::<ExprView, Seq<char>>(e),
            p + expr_toks(e).len(),
        ),
{
    lemma_fold_spine(e);
    let lb = left_base(e);
    let sp = spine_prims(e);
    let seg = expr_toks(e);
    assert(prim_toks(lb).len() == 1);
    assert(seg.len() == 1 + prims_toks(sp).len());
    assert(toks[p] == seg[0]);
    assert(seg[0] == prim_toks(lb)[0]);
    lemma_parse_primary_seg(toks, p, lb);
    let head = prim_toks(lb);
    assert(seg == head + prims_toks(sp));
    assert forall|i: int| 0 <= i < prims_toks(sp).len() implies toks.subrange(
        p + 1,
        p + 1 + prims_toks(sp).len(),
    )[i] == prims_toks(sp)[i] by {
        assert(toks.subrange(p + 1, p + 1 + prims_toks(sp).len())[i] == toks[p + 1 + i]);
        assert(toks.subrange(p, p + seg.len())[i + 1] == toks[p + 1 + i]);
        vstd::seq::axiom_seq_add_index2(head, prims_toks(sp), i + 1);
        assert(seg[i + 1] == prims_toks(sp)[i]);
    }
    assert(toks.subrange(p + 1, p + 1 + prims_toks(sp).len()) =~= prims_toks(sp));
    lemma_binop_fold(toks, p + 1, lb, sp);
}


/// The tokens of a parameter: its name, and a colon and type name when
/// one is declared.
pub open spec fn param_toks(pv: ParamView) -> Seq<TokenKindView> {
    seq![TokenKindView::Ident(pv.name)] + (match pv.ty {
        Some(t) => seq![TokenKindView::Symbol(':'), TokenKindView::Ident(t)],
        None => Seq::empty(),
    })
}

/// The tokens of the parameters from index `i` on, joined by commas.
pub open spec fn params_rest_toks(ps: Seq<ParamView>, i: int) -> Seq<TokenKindView>
    decreases ps.len() - i,
{
    if i < 0 || i >= ps.len() {
        Seq::empty()
    } else {
        param_toks(ps[i]) + (if i + 1 < ps.len() {
            seq![TokenKindView::Symbol(',')] + params_rest_toks(ps, i + 1)
        } else {
            Seq::empty()
        })
    }
}

/// The tokens of a whole parameter list.
pub open spec fn params_toks(ps: Seq<ParamView>) -> Seq<TokenKindView> {
    if ps.len() == 0 {
        Seq::empty()
    } else {
        params_rest_toks(ps, 0)
    }
}

/// The tokens of one body statement: a return statement and its
/// terminating semicolon.
pub open spec fn line_toks(st: StatementView) -> Seq<TokenKindView> {
    match st {
        StatementView::Return(e) => seq![TokenKindView::Keyword("return"@)] + expr_toks(e) + seq![
            TokenKindView::Semicolon,
        ],
        _ => Seq::empty(),
    }
}

/// The tokens of the body statements from index `i` on.
pub open spec fn body_toks_from(body: Seq<StatementView>, i: int) -> Seq<TokenKindView>
    decreases body.len() - i,
{
    if i < 0 || i >= body.len() {
        Seq::empty()
    } else {
        line_toks(body[i]) + body_toks_from(body, i + 1)
    }
}

/// The tokens of a whole function declaration.
pub open spec fn fn_toks(st: StatementView) -> Seq<TokenKindView> {
    match st {
        StatementView::Function { name, params, return_type, body } => seq![
            TokenKindView::Keyword("fn"@),
            TokenKindView::Ident(name),
            TokenKindView::OpenParen,
        ] + params_toks(params) + seq![TokenKindView::CloseParen] + (match return_type {
            Some(t) => seq![TokenKindView::Arrow, TokenKindView::Ident(t)],
            None => Seq::empty(),
        }) + seq![TokenKindView::OpenBrace] + body_toks_from(body, 0) + seq![
            TokenKindView::CloseBrace,
        ],
        _ => Seq::empty(),
    }
}

/// The tokens of the top-level statements from index `i` on.
pub open spec fn prog_toks_from(stmts: Seq<StatementView>, i: int) -> Seq<TokenKindView>
    decreases stmts.len() - i,
{
    if i < 0 || i >= stmts.len() {
        Seq::empty()
    } else {
        fn_toks(stmts[i]) + prog_toks_from(stmts, i + 1)
    }
}

/// The token sequence of a whole program.
pub open spec fn prog_toks(p: ProgramView) -> Seq<TokenKindView> {
    prog_toks_from(p.statements, 0)
}

/// A statement the grammar can produce at top level: a function whose
/// body holds only return statements of well-shaped expressions.
pub open spec fn parseable_stmt(st: StatementView) -> bool {
    match st {
        StatementView::Function { name, params, return_type, body } => forall|i: int|
            0 <= i < body.len() ==> (#[trigger] body[i] matches StatementView::Return(e)
                && parseable_expr(e)),
        _ => false,
    }
}

/// A program the grammar can produce: functions all the way down.
pub open spec fn parseable(p: ProgramView) -> bool {
    forall|i: int| 0 <= i < p.statements.len() ==> parseable_stmt(#[trigger] p.statements[i])
}

/// Splits a known subrange over a concatenation into its two halves.
proof fn lemma_sub_split(toks: Seq<TokenKindView>, p: int, a: Seq<TokenKindView>, b: Seq<
    TokenKindView,
>)
    requires
        0 <= p,
        p + a.len() + b.len() <= toks.len(),
        toks.subrange(p, p + a.len() + b.len()) == a + b,
    ensures
        toks.subrange(p, p + a.len()) == a,
        toks.subrange(p + a.len(), p + a.len() + b.len()) == b,
{
    let n = a.len() as int;
    let m = b.len() as int;
    assert forall|i: int| 0 <= i < n implies toks.subrange(p, p + n)[i] == a[i] by {
        assert(toks.subrange(p, p + n)[i] == toks[p + i]);
        assert(toks.subrange(p, p + n + m)[i] == toks[p + i]);
        vstd::seq::axiom_seq_add_index1(a, b, i);
    }
    assert(toks.subrange(p, p + n) =~= a);
    assert forall|i: int| 0 <= i < m implies toks.subrange(p + n, p + n + m)[i] == b[i] by {
        assert(toks.subrange(p + n, p + n + m)[i] == toks[p + n + i]);
        assert(toks.subrange(p, p + n + m)[i + n] == toks[p + n + i]);
        vstd::seq::axiom_seq_add_index2(a, b, i + n);
    }
    assert(toks.subrange(p + n, p + n + m) =~= b);
}

/// A known one-token subrange pins the token down.
proof fn lemma_sub_point(toks: Seq<TokenKindView>, p: int, k: TokenKindView)
    requires
        0 <= p,
        p + 1 <= toks.len(),
        toks.subrange(p, p + 1) == seq![k],
    ensures
        toks[p] == k,
{
    assert(toks.subrange(p, p + 1)[0] == toks[p]);
}

proof fn lemma_parse_params_rest(
    toks: Seq<TokenKindView>,
    p: int,
    ps: Seq<ParamView>,
    i: int,
    acc: Seq<ParamView>,
)
    requires
        0 <= i < ps.len(),
        0 <= p,
        p + params_rest_toks(ps, i).len() <= toks.len(),
        toks.subrange(p, p + params_rest_toks(ps, i).len()) == params_rest_toks(ps, i),
        p + params_rest_toks(ps, i).len() < toks.len(),
        toks[p + params_rest_toks(ps, i).len()] is CloseParen,
    ensures
        spec_parse_params_loop(toks, p, acc) == (
            Ok::<Seq<ParamView>, Seq<char>>(acc + ps.skip(i)),
            p + params_rest_toks(ps, i).len(),
        ),
    decreases ps.len() - i, 1int,
{
    let seg = params_rest_toks(ps, i);
    let pt = param_toks(ps[i]);
    let tail = if i + 1 < ps.len() {
        seq![TokenKindView::Symbol(',')] + params_rest_toks(ps, i + 1)
    } else {
        Seq::<TokenKindView>::empty()
    };
    assert(seg == pt + tail);
    lemma_sub_split(toks, p, pt, tail);
    let pvi = ps[i];
    match pvi.ty {
        Some(t) => {
            assert(pt == seq![TokenKindView::Ident(pvi.name)] + seq![
                TokenKindView::Symbol(':'),
                TokenKindView::Ident(t),
            ]);
            assert(pt.len() == 3);
            assert(pt[0] == TokenKindView::Ident(pvi.name));
            assert(pt[1] == TokenKindView::Symbol(':'));
            assert(pt[2] == TokenKindView::Ident(t));
            assert(toks[p] == pt[0]) by {
                assert(toks.subrange(p, p + 3)[0] == toks[p]);
            }
            assert(toks[p + 1] == pt[1]) by {
                assert(toks.subrange(p, p + 3)[1] == toks[p + 1]);
            }
            assert(toks[p + 2] == pt[2]) by {
                assert(toks.subrange(p, p + 3)[2] == toks[p + 2]);
            }
            let pv = ParamView { name: pvi.name, ty: Some(t) };
            assert(pv == pvi);
            finish_param(toks, p, ps, i, acc, pv, p + 3, tail);
        },
        None => {
            assert(pt == seq![TokenKindView::Ident(pvi.name)] + Seq::<TokenKindView>::empty());
            assert(pt.len() == 1);
            assert(pt[0] == TokenKindView::Ident(pvi.name));
            assert(toks[p] == pt[0]) by {
                assert(toks.subrange(p, p + 1)[0] == toks[p]);
            }
            let pv = ParamView { name: pvi.name, ty: None };
            assert(pv == pvi);
            // the token after the name is a comma or the closing
            // parenthesis, never a colon
            if i + 1 < ps.len() {
                assert(toks[p + 1] == TokenKindView::Symbol(',')) by {
                    assert(tail[0] == TokenKindView::Symbol(','));
                    assert(toks.subrange(p + 1, p + 1 + tail.len())[0] == toks[p + 1]);
                }
            }
            finish_param(toks, p, ps, i, acc, pv, p + 1, tail);
        },
    }
}

/// Finishes one parameter: after its tokens, either a comma continues
/// the list or the list is complete.
proof fn finish_param(
    toks: Seq<TokenKindView>,
    p: int,
    ps: Seq<ParamView>,
    i: int,
    acc: Seq<ParamView>,
    pv: ParamView,
    q: int,
    tail: Seq<TokenKindView>,
)
    requires
        0 <= i < ps.len(),
        0 <= p <= q,
        pv == ps[i],
        q == p + param_toks(ps[i]).len(),
        tail == (if i + 1 < ps.len() {
            seq![TokenKindView::Symbol(',')] + params_rest_toks(ps, i + 1)
        } else {
            Seq::<TokenKindView>::empty()
        }),
        q + tail.len() <= toks.len(),
        toks.subrange(q, q + tail.len()) == tail,
        q + tail.len() < toks.len(),
        toks[q + tail.len()] is CloseParen,
        spec_parse_params_loop(toks, p, acc) == (if q < toks.len() && (toks[q]
            matches TokenKindView::Symbol(c) && c == ',') {
            spec_parse_params_loop(toks, q + 1, acc.push(pv))
        } else {
            (Ok::<Seq<ParamView>, Seq<char>>(acc.push(pv)), q)
        }),
    ensures
        spec_parse_params_loop(toks, p, acc) == (
            Ok::<Seq<ParamView>, Seq<char>>(acc + ps.skip(i)),
            q + tail.len(),
        ),
    decreases ps.len() - i, 0int,
{
    if i + 1 < ps.len() {
        let rest = params_rest_toks(ps, i + 1);
        assert(tail == seq![TokenKindView::Symbol(',')] + rest);
        lemma_sub_split(toks, q, seq![TokenKindView::Symbol(',')], rest);
        lemma_sub_point(toks, q, TokenKindView::Symbol(','));
        lemma_parse_params_rest(toks, q + 1, ps, i + 1, acc.push(pv));
        assert(acc.push(pv) + ps.skip(i + 1) =~= acc + ps.skip(i));
    } else {
        assert(tail.len() == 0);
        assert(toks[q] is CloseParen);
        assert(!(toks[q] matches TokenKindView::Symbol(c) && c == ','));
        assert(acc.push(pv) =~= acc + ps.skip(i));
    }
}


proof fn lemma_parse_body_seg(
    toks: Seq<TokenKindView>,
    p: int,
    body: Seq<StatementView>,
    i: int,
    acc: Seq<StatementView>,
)
    requires
        0 <= i <= body.len(),
        0 <= p,
        forall|j: int|
            0 <= j < body.len() ==> (#[trigger] body[j] matches StatementView::Return(e)
                && parseable_expr(e)),
        p + body_toks_from(body, i).len() <= toks.len(),
        toks.subrange(p, p + body_toks_from(body, i).len()) == body_toks_from(body, i),
        p + body_toks_from(body, i).len() < toks.len(),
        toks[p + body_toks_from(body, i).len()] is CloseBrace,
    ensures
        spec_parse_body(toks, p, acc) == (
            Ok::<Seq<StatementView>, Seq<char>>(acc + body.skip(i)),
            p + body_toks_from(body, i).len(),
        ),
    decreases body.len() - i,
{
    reveal_strlit("fn");
    reveal_strlit("return");
    let seg = body_toks_from(body, i);
    if i == body.len() {
        assert(seg.len() == 0);
        assert(toks[p] is CloseBrace);
        assert(acc + body.skip(i) =~= acc);
    } else {
        assert(body[i] matches StatementView::Return(e) && parseable_expr(e));
        match body[i] {
            StatementView::Return(e) => {
                let lt = line_toks(body[i]);
                let rest = body_toks_from(body, i + 1);
                assert(seg == lt + rest);
                lemma_sub_split(toks, p, lt, rest);
                let et = expr_toks(e);
                assert(lt == (seq![TokenKindView::Keyword("return"@)] + et) + seq![
                    TokenKindView::Semicolon,
                ]);
                lemma_sub_split(
                    toks,
                    p,
                    seq![TokenKindView::Keyword("return"@)] + et,
                    seq![TokenKindView::Semicolon],
                );
                lemma_sub_split(toks, p, seq![TokenKindView::Keyword("return"@)], et);
                lemma_sub_point(toks, p, TokenKindView::Keyword("return"@));
                lemma_sub_point(toks, p + 1 + et.len(), TokenKindView::Semicolon);
                assert("return"@.len() == 6 && "fn"@.len() == 2);
                assert(!("return"@ == "fn"@));
                // the expression ends at the semicolon, which is no plus
                assert(!(toks[p + 1 + et.len()] matches TokenKindView::Symbol(c) && c == '+'));
                lemma_parse_expression_seg(toks, p + 1, e);
                let p1 = p + 1 + et.len() + 1;
                assert(spec_parse_statement(toks, p) == (
                    Ok::<Option<StatementView>, Seq<char>>(
                        Some(StatementView::Return(e)),
                    ),
                    p1,
                ));
                assert(StatementView::Return(e) == body[i]);
                assert(!(toks[p] is CloseBrace));
                lemma_parse_body_seg(toks, p1, body, i + 1, acc.push(body[i]));
                assert(acc.push(body[i]) + body.skip(i + 1) =~= acc + body.skip(i));
            },
            _ => {},
        }
    }
}

proof fn lemma_parse_function_seg(toks: Seq<TokenKindView>, p: int, st: StatementView)
    requires
        parseable_stmt(st),
        0 <= p,
        p + fn_toks(st).len() <= toks.len(),
        toks.subrange(p, p + fn_toks(st).len()) == fn_toks(st),
    ensures
        spec_parse_statement(toks, p) == (
            Ok::<Option<StatementView>, Seq<char>>(Some(st)),
            p + fn_toks(st).len(),
        ),
    decreases fn_toks(st).len(),
{
    reveal_strlit("fn");
    reveal_strlit("return");
    let seg = fn_toks(st);
    match st {
        StatementView::Function { name, params, return_type, body } => {
            let head = seq![
                TokenKindView::Keyword("fn"@),
                TokenKindView::Ident(name),
                TokenKindView::OpenParen,
            ];
            let pt = params_toks(params);
            let rt = (match return_type {
                Some(t) => seq![TokenKindView::Arrow, TokenKindView::Ident(t)],
                None => Seq::<TokenKindView>::empty(),
            });
            let bt = body_toks_from(body, 0);
            let mid = head + pt + seq![TokenKindView::CloseParen] + rt + seq![
                TokenKindView::OpenBrace,
            ] + bt;
            assert(seg == mid + seq![TokenKindView::CloseBrace]);
            lemma_sub_split(toks, p, mid, seq![TokenKindView::CloseBrace]);
            lemma_sub_point(toks, p + mid.len(), TokenKindView::CloseBrace);
            let a1 = head + pt + seq![TokenKindView::CloseParen] + rt + seq![
                TokenKindView::OpenBrace,
            ];
            assert(mid == a1 + bt);
            lemma_sub_split(toks, p, a1, bt);
            let a2 = head + pt + seq![TokenKindView::CloseParen] + rt;
            assert(a1 == a2 + seq![TokenKindView::OpenBrace]);
            lemma_sub_split(toks, p, a2, seq![TokenKindView::OpenBrace]);
            lemma_sub_point(toks, p + a2.len(), TokenKindView::OpenBrace);
            let a3 = head + pt + seq![TokenKindView::CloseParen];
            assert(a2 == a3 + rt);
            lemma_sub_split(toks, p, a3, rt);
            let a4 = head + pt;
            assert(a3 == a4 + seq![TokenKindView::CloseParen]);
            lemma_sub_split(toks, p, a4, seq![TokenKindView::CloseParen]);
            lemma_sub_point(toks, p + a4.len(), TokenKindView::CloseParen);
            assert(a4 == head + pt);
            lemma_sub_split(toks, p, head, pt);
            assert(toks[p] == head[0]) by {
                assert(toks.subrange(p, p + 3)[0] == toks[p]);
            }
            assert(toks[p + 1] == head[1]) by {
                assert(toks.subrange(p, p + 3)[1] == toks[p + 1]);
            }
            assert(toks[p + 2] == head[2]) by {
                assert(toks.subrange(p, p + 3)[2] == toks[p + 2]);
            }
            // the `fn` keyword selects the function branch
            assert(toks[p] matches TokenKindView::Keyword(k) && k == "fn"@);
            // name and opening parenthesis
            let p1 = p + 2;
            let p2 = p + 3;
            // parameters
            let p3 = p2 + pt.len();
            if params.len() == 0 {
                assert(pt.len() == 0);
                assert(toks[p2] is CloseParen);
                assert(spec_parse_params(toks, p2) == (
                    Ok::<Seq<ParamView>, Seq<char>>(Seq::empty()),
                    p2,
                ));
                assert(Seq::<ParamView>::empty() =~= params);
            } else {
                assert(pt == params_rest_toks(params, 0));
                assert(toks.subrange(p2, p2 + pt.len()) == pt);
                assert(toks[p2 + pt.len()] is CloseParen);
                assert(params_rest_toks(params, 0).len() > 0);
                assert(toks[p2] == pt[0]) by {
                    assert(toks.subrange(p2, p2 + pt.len())[0] == toks[p2]);
                }
                assert(pt[0] == TokenKindView::Ident(params[0].name)) by {
                    let ptf = param_toks(params[0]);
                    assert(pt == ptf + (if 0 + 1 < params.len() {
                        seq![TokenKindView::Symbol(',')] + params_rest_toks(params, 1)
                    } else {
                        Seq::<TokenKindView>::empty()
                    }));
                    assert(ptf[0] == TokenKindView::Ident(params[0].name));
                }
                assert(!(toks[p2] is CloseParen));
                lemma_parse_params_rest(toks, p2, params, 0, Seq::empty());
                assert(Seq::<ParamView>::empty() + params.skip(0) =~= params);
            }
            // closing parenthesis
            let p4 = p3 + 1;
            // optional arrow and return type
            let p5 = p4 + rt.len();
            match return_type {
                Some(t) => {
                    assert(toks[p4] == rt[0]) by {
                        assert(toks.subrange(p4, p4 + 2)[0] == toks[p4]);
                    }
                    assert(toks[p4 + 1] == rt[1]) by {
                        assert(toks.subrange(p4, p4 + 2)[1] == toks[p4 + 1]);
                    }
                    assert(toks[p4] is Arrow);
                    assert(toks[p4 + 1] == TokenKindView::Ident(t));
                },
                None => {
                    assert(toks[p4] is OpenBrace);
                    assert(!(toks[p4] is Arrow));
                },
            }
            // opening brace
            let p6 = p5 + 1;
            // body
            let p7 = p6 + bt.len();
            assert(forall|j: int|
                0 <= j < body.len() ==> (#[trigger] body[j] matches StatementView::Return(e)
                    && parseable_expr(e)));
            assert(toks[p7] is CloseBrace);
            lemma_parse_body_seg(toks, p6, body, 0, Seq::empty());
            assert(Seq::<StatementView>::empty() + body.skip(0) =~= body);
            // closing brace ends the declaration
            let built = StatementView::Function {
                name: name,
                params: params,
                return_type: return_type,
                body: body,
            };
            assert(built == st);
        },
        _ => {},
    }
}

proof fn lemma_parse_prog_from(
    toks: Seq<TokenKindView>,
    p: int,
    stmts: Seq<StatementView>,
    i: int,
    acc: Seq<StatementView>,
)
    requires
        0 <= i <= stmts.len(),
        0 <= p,
        forall|j: int| 0 <= j < stmts.len() ==> parseable_stmt(#[trigger] stmts[j]),
        p + prog_toks_from(stmts, i).len() == toks.len(),
        toks.subrange(p, toks.len() as int) == prog_toks_from(stmts, i),
    ensures
        spec_parse_stmts(toks, p, acc) == (
            Ok::<Seq<StatementView>, Seq<char>>(acc + stmts.skip(i)),
            toks.len() as int,
        ),
    decreases stmts.len() - i,
{
    if i == stmts.len() {
        assert(prog_toks_from(stmts, i).len() == 0);
        assert(p == toks.len());
        assert(acc + stmts.skip(i) =~= acc);
    } else {
        let ft = fn_toks(stmts[i]);
        let rest = prog_toks_from(stmts, i + 1);
        assert(prog_toks_from(stmts, i) == ft + rest);
        lemma_sub_split(toks, p, ft, rest);
        lemma_parse_function_seg(toks, p, stmts[i]);
        let p1 = p + ft.len();
        assert(fn_toks(stmts[i]).len() >= 1) by {
            match stmts[i] {
                StatementView::Function { name, params, return_type, body } => {},
                _ => {
                    assert(!parseable_stmt(stmts[i]));
                },
            }
        }
        assert(p < p1 <= toks.len());
        lemma_parse_prog_from(toks, p1, stmts, i + 1, acc.push(stmts[i]));
        assert(acc.push(stmts[i]) + stmts.skip(i + 1) =~= acc + stmts.skip(i));
    }
}

/// Parsing the token sequence of a printable program yields the program
/// back.
pub proof fn lemma_parse_printed_tokens(p: ProgramView)
    requires
        parseable(p),
    ensures
        spec_parse(prog_toks(p)) == Ok::<ProgramView, Seq<char>>(p),
{
    let toks = prog_toks(p);
    assert(toks.subrange(0, toks.len() as int) =~= toks);
    lemma_parse_prog_from(toks, 0, p.statements, 0, Seq::empty());
    assert(Seq::<StatementView>::empty() + p.statements.skip(0) =~= p.statements);
    assert(ProgramView { statements: p.statements } == p);
}


// ---------------------------------------------------------------------
// Lexing the printed text.
//
// The printed text is a run of token images separated by whitespace
// gaps.  The lemmas below show that the lexer turns such a run back
// into exactly the run's tokens.
/// One piece of printed text: a token's image, or whitespace between
/// token images.
pub ghost enum Emission {
    Tok(TokenKindView),
    Gap(Seq<char>),
}

/// The printed image of a token.
pub open spec fn tok_img(k: TokenKindView) -> Seq<char> {
    match k {
        TokenKindView::Keyword(t) => t,
        TokenKindView::Ident(t) => t,
        TokenKindView::Number(t) => t,
        TokenKindView::StringLiteral(t) => seq!['"'] + t + seq!['"'],
        TokenKindView::Symbol(c) => seq![c],
        TokenKindView::Arrow => seq!['-', '>'],
        TokenKindView::OpenBrace => seq!['{'],
        TokenKindView::CloseBrace => seq!['}'],
        TokenKindView::OpenParen => seq!['('],
        TokenKindView::CloseParen => seq![')'],
        TokenKindView::Semicolon => seq![';'],
        TokenKindView::Eof => Seq::empty(),
    }
}

/// The text of one emission.
pub open spec fn item_text(e: Emission) -> Seq<char> {
    match e {
        Emission::Tok(k) => tok_img(k),
        Emission::Gap(g) => g,
    }
}

/// The text of a run of emissions.
pub open spec fn emis_text(es: Seq<Emission>) -> Seq<char>
    decreases es.len(),
{
    if es.len() == 0 {
        Seq::empty()
    } else {
        item_text(es.first()) + emis_text(es.drop_first())
    }
}

/// The tokens of one emission: one for a token, none for a gap.
pub open spec fn item_kinds(e: Emission) -> Seq<TokenKindView> {
    match e {
        Emission::Tok(k) => seq![k],
        Emission::Gap(g) => Seq::empty(),
    }
}

/// The tokens of a run of emissions, in order.
pub open spec fn emis_kinds(es: Seq<Emission>) -> Seq<TokenKindView>
    decreases es.len(),
{
    if es.len() == 0 {
        Seq::empty()
    } else {
        item_kinds(es.first()) + emis_kinds(es.drop_first())
    }
}

/// The first character of the text of a run, `fc` when the run prints
/// nothing (`fc` stands for whatever follows the run).
pub open spec fn first_char_fc(es: Seq<Emission>, fc: Option<char>) -> Option<char>
    decreases es.len(),
{
    if es.len() == 0 {
        fc
    } else if item_text(es.first()).len() > 0 {
        Some(item_text(es.first())[0])
    } else {
        first_char_fc(es.drop_first(), fc)
    }
}

/// A character a word token (identifier or keyword) may contain.
pub open spec fn ident_char_ok(c: char) -> bool {
    (is_alnum(c) || c == '_') && !is_ws(c)
}

/// A word the lexer reads back as one identifier-shaped token.
pub open spec fn wf_word(s: Seq<char>) -> bool {
    &&& s.len() > 0
    &&& (is_alpha(s[0]) || s[0] == '_')
    &&& forall|i: int| 0 <= i < s.len() ==> ident_char_ok(#[trigger] s[i])
}

/// A character the lexer reads back as the same generic symbol.
pub open spec fn sym_char_ok(c: char) -> bool {
    &&& !is_ws(c)
    &&& !is_digit(c)
    &&& !is_alpha(c)
    &&& c != '_'
    &&& c != '"'
    &&& c != '/'
    &&& c != '-'
    &&& c != '{'
    &&& c != '}'
    &&& c != '('
    &&& c != ')'
    &&& c != ';'
}

/// A token whose image the lexer reads back as the token itself.
pub open spec fn tok_ok(k: TokenKindView) -> bool {
    match k {
        TokenKindView::Keyword(t) => wf_word(t) && is_keyword(t),
        TokenKindView::Ident(t) => wf_word(t) && !is_keyword(t),
        TokenKindView::Number(t) => valid_number_text(t),
        TokenKindView::StringLiteral(t) => forall|i: int| 0 <= i < t.len() ==> #[trigger] t[i]
            != '"',
        TokenKindView::Symbol(c) => sym_char_ok(c),
        TokenKindView::Arrow => true,
        TokenKindView::OpenBrace => true,
        TokenKindView::CloseBrace => true,
        TokenKindView::OpenParen => true,
        TokenKindView::CloseParen => true,
        TokenKindView::Semicolon => true,
        TokenKindView::Eof => false,
    }
}

/// Whether the character after a token's image lets the lexer stop
/// exactly at the image's end.
pub open spec fn follow_ok(k: TokenKindView, c: Option<char>) -> bool {
    match k {
        TokenKindView::Keyword(t) => match c {
            Some(ch) => !(is_alnum(ch) || ch == '_'),
            None => true,
        },
        TokenKindView::Ident(t) => match c {
            Some(ch) => !(is_alnum(ch) || ch == '_'),
            None => true,
        },
        TokenKindView::Number(t) => match c {
            Some(ch) => !(is_digit(ch) || ch == '.'),
            None => true,
        },
        _ => true,
    }
}

/// Whitespace only.
pub open spec fn gap_ok(g: Seq<char>) -> bool {
    forall|i: int| 0 <= i < g.len() ==> is_ws(#[trigger] g[i])
}

/// A run of emissions the lexer reads back as exactly its tokens:
/// every gap is whitespace, every token image is well formed, and no
/// token image runs into what follows it.
pub open spec fn emis_ok(es: Seq<Emission>, fc: Option<char>) -> bool
    decreases es.len(),
{
    if es.len() == 0 {
        true
    } else {
        (match es.first() {
            Emission::Tok(k) => tok_ok(k) && follow_ok(k, first_char_fc(es.drop_first(), fc)),
            Emission::Gap(g) => gap_ok(g),
        }) && emis_ok(es.drop_first(), fc)
    }
}

/// A known subrange over a concatenation splits into its halves.
proof fn lemma_sub_parts<T>(s: Seq<T>, p: int, a: Seq<T>, b: Seq<T>)
    requires
        0 <= p,
        p + a.len() + b.len() <= s.len(),
        s.subrange(p, p + a.len() + b.len()) == a + b,
    ensures
        s.subrange(p, p + a.len()) == a,
        s.subrange(p + a.len(), p + a.len() + b.len()) == b,
{
    let n = a.len() as int;
    let m = b.len() as int;
    assert forall|i: int| 0 <= i < n implies s.subrange(p, p + n)[i] == a[i] by {
        assert(s.subrange(p, p + n)[i] == s[p + i]);
        assert(s.subrange(p, p + n + m)[i] == s[p + i]);
        vstd::seq::axiom_seq_add_index1(a, b, i);
    }
    assert(s.subrange(p, p + n) =~= a);
    assert forall|i: int| 0 <= i < m implies s.subrange(p + n, p + n + m)[i] == b[i] by {
        assert(s.subrange(p + n, p + n + m)[i] == s[p + n + i]);
        assert(s.subrange(p, p + n + m)[i + n] == s[p + n + i]);
        vstd::seq::axiom_seq_add_index2(a, b, i + n);
    }
    assert(s.subrange(p + n, p + n + m) =~= b);
}

/// A known subrange pins every character of the range down.
proof fn lemma_sub_index<T>(s: Seq<T>, p: int, a: Seq<T>)
    requires
        0 <= p,
        p + a.len() <= s.len(),
        s.subrange(p, p + a.len()) == a,
    ensures
        forall|m: int| 0 <= m < a.len() ==> s[p + m] == #[trigger] a[m],
{
    assert forall|m: int| 0 <= m < a.len() implies s[p + m] == #[trigger] a[m] by {
        assert(s.subrange(p, p + a.len())[m] == s[p + m]);
    }
}

/// Skipping a run of whitespace does not change where the next token
/// begins.
proof fn lemma_ws_run(s: Seq<char>, i: int, j: int)
    requires
        0 <= i <= j <= s.len(),
        forall|m: int| i <= m < j ==> is_ws(#[trigger] s[m]),
    ensures
        crate::lexer::trivia_end(s, i) == crate::lexer::trivia_end(s, j),
    decreases j - i,
{
    if i < j {
        assert(is_ws(s[i]));
        lemma_ws_run(s, i + 1, j);
    }
}

/// Two scan positions with the same upcoming token yield the same token
/// sequence.
proof fn lemma_tokens_same_trivia(s: Seq<char>, i: int, j: int)
    requires
        0 <= i <= s.len(),
        0 <= j <= s.len(),
        crate::lexer::trivia_end(s, i) == crate::lexer::trivia_end(s, j),
    ensures
        crate::lexer::next_tok(s, i) == crate::lexer::next_tok(s, j),
        spec_tokens_from(s, i) == spec_tokens_from(s, j),
{
    assert(crate::lexer::next_tok(s, i) == crate::lexer::next_tok(s, j));
}

/// A run of identifier characters ends exactly where they stop.
proof fn lemma_ident_scan(s: Seq<char>, a: int, b: int)
    requires
        0 <= a <= b <= s.len(),
        forall|m: int| a <= m < b ==> is_alnum(#[trigger] s[m]) || s[m] == '_',
        b < s.len() ==> !(is_alnum(s[b]) || s[b] == '_'),
    ensures
        crate::lexer::ident_end(s, a) == b,
    decreases b - a,
{
    if a < b {
        assert(is_alnum(s[a]) || s[a] == '_');
        lemma_ident_scan(s, a + 1, b);
    }
}

/// A run of digits and dots ends exactly where they stop.
proof fn lemma_number_scan(s: Seq<char>, a: int, b: int)
    requires
        0 <= a <= b <= s.len(),
        forall|m: int| a <= m < b ==> is_digit(#[trigger] s[m]) || s[m] == '.',
        b < s.len() ==> !(is_digit(s[b]) || s[b] == '.'),
    ensures
        crate::lexer::number_end(s, a) == b,
    decreases b - a,
{
    if a < b {
        lemma_number_scan(s, a + 1, b);
    }
}

/// The scan for a closing quote finds exactly the first one.
proof fn lemma_quote_scan(s: Seq<char>, a: int, b: int)
    requires
        0 <= a <= b < s.len(),
        forall|m: int| a <= m < b ==> #[trigger] s[m] != '"',
        s[b] == '"',
    ensures
        crate::lexer::quote_end(s, a) == b,
    decreases b - a,
{
    if a < b {
        lemma_quote_scan(s, a + 1, b);
    }
}

/// Reading one token image from the source yields that token and stops
/// at the image's end.
proof fn lemma_next_tok_at(s: Seq<char>, i: int, k: TokenKindView, follow: Option<char>)
    requires
        0 <= i,
        i + tok_img(k).len() <= s.len(),
        s.subrange(i, i + tok_img(k).len()) == tok_img(k),
        tok_ok(k),
        follow == (if i + tok_img(k).len() < s.len() {
            Some(s[i + tok_img(k).len()])
        } else {
            None::<char>
        }),
        follow_ok(k, follow),
    ensures
        crate::lexer::next_tok(s, i).0.kind == k,
        crate::lexer::next_tok(s, i).1 == i + tok_img(k).len(),
{
    let img = tok_img(k);
    let z = i + img.len();
    lemma_sub_index(s, i, img);
    match k {
        TokenKindView::Keyword(t) => {
            assert(s[i] == t[0]);
            assert(!is_ws(s[i]));
            assert(s[i] != '/' && s[i] != '"' && !is_digit(s[i]));
            assert(crate::lexer::trivia_end(s, i) == i);
            assert forall|m: int| i + 1 <= m < z implies is_alnum(#[trigger] s[m]) || s[m]
                == '_' by {
                assert(s[i + (m - i)] == t[m - i]);
                assert(ident_char_ok(t[m - i]));
            }
            lemma_ident_scan(s, i + 1, z);
            assert(s.subrange(i, z) =~= t);
            assert(crate::lexer::next_tok(s, i).0.kind == k);
        },
        TokenKindView::Ident(t) => {
            assert(s[i] == t[0]);
            assert(!is_ws(s[i]));
            assert(s[i] != '/' && s[i] != '"' && !is_digit(s[i]));
            assert(crate::lexer::trivia_end(s, i) == i);
            assert forall|m: int| i + 1 <= m < z implies is_alnum(#[trigger] s[m]) || s[m]
                == '_' by {
                assert(s[i + (m - i)] == t[m - i]);
                assert(ident_char_ok(t[m - i]));
            }
            lemma_ident_scan(s, i + 1, z);
            assert(s.subrange(i, z) =~= t);
            assert(crate::lexer::next_tok(s, i).0.kind == k);
        },
        TokenKindView::Number(t) => {
            assert(s[i] == t[0]);
            assert(is_digit(s[i]));
            assert(!is_ws(s[i]));
            assert(s[i] != '/' && s[i] != '"');
            assert(crate::lexer::trivia_end(s, i) == i);
            assert forall|m: int| i + 1 <= m < z implies is_digit(#[trigger] s[m]) || s[m]
                == '.' by {
                assert(s[i + (m - i)] == t[m - i]);
            }
            lemma_number_scan(s, i + 1, z);
            assert(s.subrange(i, z) =~= t);
            assert(crate::lexer::next_tok(s, i).0.kind == k);
        },
        TokenKindView::StringLiteral(t) => {
            assert(img == (seq!['"'] + t) + seq!['"']);
            assert(s[i] == img[0]);
            assert(img[0] == '"');
            assert(!is_ws(s[i]) && s[i] != '/');
            assert(crate::lexer::trivia_end(s, i) == i);
            assert forall|m: int| 0 <= m < t.len() implies img[m + 1] == #[trigger] t[m] by {
                vstd::seq::axiom_seq_add_index1(seq!['"'] + t, seq!['"'], m + 1);
                vstd::seq::axiom_seq_add_index2(seq!['"'], t, m + 1);
            }
            assert(img[img.len() - 1] == '"');
            assert(s[i + (img.len() - 1)] == img[img.len() - 1]);
            assert(s[z - 1] == '"');
            assert forall|m: int| i + 1 <= m < z - 1 implies #[trigger] s[m] != '"' by {
                assert(s[i + (m - i)] == img[m - i]);
                assert(img[m - i] == t[m - i - 1]);
            }
            lemma_quote_scan(s, i + 1, z - 1);
            assert(s.subrange(i + 1, z - 1) =~= t) by {
                assert(forall|m: int|
                    0 <= m < t.len() ==> #[trigger] s.subrange(i + 1, z - 1)[m] == s[i + 1 + m]);
            }
            assert(crate::lexer::next_tok(s, i).0.kind == k);
        },
        TokenKindView::Symbol(c) => {
            assert(s[i + 0] == img[0]);
            assert(s[i] == c);
            assert(crate::lexer::trivia_end(s, i) == i);
            assert(!(is_alpha(c) || c == '_'));
            assert(crate::lexer::next_tok(s, i).0.kind == k);
        },
        TokenKindView::Arrow => {
            assert(s[i + 0] == img[0]);
            assert(s[i + 1] == img[1]);
            assert(s[i] == '-');
            assert(s[i + 1] == '>');
            assert(!is_ws(s[i]) && s[i] != '/' && s[i] != '"');
            assert(crate::lexer::trivia_end(s, i) == i);
            assert(!is_digit('-') && !(is_alpha('-') || '-' == '_'));
            assert(crate::lexer::next_tok(s, i).0.kind == k);
        },
        TokenKindView::OpenBrace => {
            assert(s[i + 0] == img[0]);
            assert(s[i] == '{');
            assert(crate::lexer::trivia_end(s, i) == i);
            assert(crate::lexer::next_tok(s, i).0.kind == k);
        },
        TokenKindView::CloseBrace => {
            assert(s[i + 0] == img[0]);
            assert(s[i] == '}');
            assert(crate::lexer::trivia_end(s, i) == i);
            assert(crate::lexer::next_tok(s, i).0.kind == k);
        },
        TokenKindView::OpenParen => {
            assert(s[i + 0] == img[0]);
            assert(s[i] == '(');
            assert(crate::lexer::trivia_end(s, i) == i);
            assert(crate::lexer::next_tok(s, i).0.kind == k);
        },
        TokenKindView::CloseParen => {
            assert(s[i + 0] == img[0]);
            assert(s[i] == ')');
            assert(crate::lexer::trivia_end(s, i) == i);
            assert(crate::lexer::next_tok(s, i).0.kind == k);
        },
        TokenKindView::Semicolon => {
            assert(s[i + 0] == img[0]);
            assert(s[i] == ';');
            assert(crate::lexer::trivia_end(s, i) == i);
            assert(crate::lexer::next_tok(s, i).0.kind == k);
        },
        TokenKindView::Eof => {},
    }
}


proof fn lemma_first_char_is_text_head(es: Seq<Emission>, fc: Option<char>)
    ensures
        first_char_fc(es, fc) == (if emis_text(es).len() > 0 {
            Some(emis_text(es)[0])
        } else {
            fc
        }),
    decreases es.len(),
{
    if es.len() > 0 {
        let h = item_text(es.first());
        let rest = emis_text(es.drop_first());
        assert(emis_text(es) == h + rest);
        if h.len() > 0 {
            vstd::seq::axiom_seq_add_index1(h, rest, 0);
        } else {
            assert(emis_text(es) =~= rest);
            lemma_first_char_is_text_head(es.drop_first(), fc);
        }
    }
}

/// Lexing a run of token images separated by whitespace yields exactly
/// the run's tokens.
proof fn lemma_lex_emis(s: Seq<char>, i: int, es: Seq<Emission>)
    requires
        0 <= i <= s.len(),
        s.subrange(i, s.len() as int) == emis_text(es),
        emis_ok(es, None::<char>),
    ensures
        kinds(spec_tokens_from(s, i)) == emis_kinds(es),
    decreases es.len(),
{
    if es.len() == 0 {
        assert(emis_text(es).len() == 0);
        assert(i == s.len());
        assert(crate::lexer::trivia_end(s, i) == i);
        assert(crate::lexer::next_tok(s, i).0.kind is Eof);
        assert(spec_tokens_from(s, i) =~= Seq::<crate::lexer::TokenView>::empty());
        assert(kinds(spec_tokens_from(s, i)) =~= Seq::<TokenKindView>::empty());
        assert(emis_kinds(es) =~= Seq::<TokenKindView>::empty());
    } else {
        let e0 = es.first();
        let rest = es.drop_first();
        assert(emis_text(es) == item_text(e0) + emis_text(rest));
        assert(i + item_text(e0).len() + emis_text(rest).len() <= s.len());
        lemma_sub_parts(s, i, item_text(e0), emis_text(rest));
        let i2 = i + item_text(e0).len();
        assert(emis_ok(rest, None::<char>));
        match e0 {
            Emission::Gap(g) => {
                lemma_sub_index(s, i, g);
                assert(gap_ok(g));
                assert forall|m: int| i <= m < i2 implies is_ws(#[trigger] s[m]) by {
                    assert(s[i + (m - i)] == g[m - i]);
                    assert(is_ws(g[m - i]));
                }
                lemma_ws_run(s, i, i2);
                lemma_tokens_same_trivia(s, i, i2);
                lemma_lex_emis(s, i2, rest);
                assert(emis_kinds(es) =~= emis_kinds(rest));
            },
            Emission::Tok(k) => {
                let fc = if i2 < s.len() {
                    Some(s[i2])
                } else {
                    None::<char>
                };
                lemma_first_char_is_text_head(rest, None::<char>);
                assert(first_char_fc(rest, None::<char>) == fc) by {
                    if emis_text(rest).len() > 0 {
                        assert(s.subrange(i2, s.len() as int)[0] == s[i2]);
                    } else {
                        assert(i2 == s.len());
                    }
                }
                assert(tok_ok(k) && follow_ok(k, fc));
                lemma_next_tok_at(s, i, k, fc);
                crate::lexer::lemma_next_tok_bounds(s, i);
                let tv = crate::lexer::next_tok(s, i).0;
                assert(tv.kind == k);
                assert(!(tv.kind is Eof));
                assert(spec_tokens_from(s, i) == seq![tv] + spec_tokens_from(s, i2));
                lemma_lex_emis(s, i2, rest);
                assert(emis_kinds(es) == seq![k] + emis_kinds(rest));
                assert forall|j: int| 0 <= j < kinds(spec_tokens_from(s, i)).len() implies kinds(
                    spec_tokens_from(s, i),
                )[j] == emis_kinds(es)[j] by {
                    if j == 0 {
                        vstd::seq::axiom_seq_add_index1(seq![tv], spec_tokens_from(s, i2), 0);
                        vstd::seq::axiom_seq_add_index1(seq![k], emis_kinds(rest), 0);
                    } else {
                        vstd::seq::axiom_seq_add_index2(seq![tv], spec_tokens_from(s, i2), j);
                        vstd::seq::axiom_seq_add_index2(seq![k], emis_kinds(rest), j);
                        assert(kinds(spec_tokens_from(s, i2))[j - 1] == emis_kinds(rest)[j - 1]);
                    }
                }
                assert(kinds(spec_tokens_from(s, i)) =~= emis_kinds(es));
            },
        }
    }
}


proof fn lemma_emis_text_concat(a: Seq<Emission>, b: Seq<Emission>)
    ensures
        emis_text(a + b) == emis_text(a) + emis_text(b),
    decreases a.len(),
{
    if a.len() == 0 {
        assert(a + b =~= b);
        assert(emis_text(a) + emis_text(b) =~= emis_text(b));
    } else {
        assert((a + b).first() == a.first()) by {
            vstd::seq::axiom_seq_add_index1(a, b, 0);
        }
        assert((a + b).drop_first() =~= a.drop_first() + b);
        lemma_emis_text_concat(a.drop_first(), b);
        assert(emis_text(a + b) =~= emis_text(a) + emis_text(b));
    }
}

proof fn lemma_emis_kinds_concat(a: Seq<Emission>, b: Seq<Emission>)
    ensures
        emis_kinds(a + b) == emis_kinds(a) + emis_kinds(b),
    decreases a.len(),
{
    if a.len() == 0 {
        assert(a + b =~= b);
        assert(emis_kinds(a) + emis_kinds(b) =~= emis_kinds(b));
    } else {
        assert((a + b).first() == a.first()) by {
            vstd::seq::axiom_seq_add_index1(a, b, 0);
        }
        assert((a + b).drop_first() =~= a.drop_first() + b);
        lemma_emis_kinds_concat(a.drop_first(), b);
        assert(emis_kinds(a + b) =~= emis_kinds(a) + emis_kinds(b));
    }
}

proof fn lemma_first_char_concat(a: Seq<Emission>, b: Seq<Emission>, fc: Option<char>)
    ensures
        first_char_fc(a + b, fc) == first_char_fc(a, first_char_fc(b, fc)),
    decreases a.len(),
{
    if a.len() == 0 {
        assert(a + b =~= b);
    } else {
        assert((a + b).first() == a.first()) by {
            vstd::seq::axiom_seq_add_index1(a, b, 0);
        }
        assert((a + b).drop_first() =~= a.drop_first() + b);
        lemma_first_char_concat(a.drop_first(), b, fc);
    }
}

proof fn lemma_emis_ok_concat(a: Seq<Emission>, b: Seq<Emission>, fc: Option<char>)
    requires
        emis_ok(a, first_char_fc(b, fc)),
        emis_ok(b, fc),
    ensures
        emis_ok(a + b, fc),
    decreases a.len(),
{
    if a.len() == 0 {
        assert(a + b =~= b);
    } else {
        assert((a + b).first() == a.first()) by {
            vstd::seq::axiom_seq_add_index1(a, b, 0);
        }
        assert((a + b).drop_first() =~= a.drop_first() + b);
        lemma_emis_ok_concat(a.drop_first(), b, fc);
        match a.first() {
            Emission::Tok(k) => {
                lemma_first_char_concat(a.drop_first(), b, fc);
            },
            Emission::Gap(g) => {},
        }
    }
}

/// The emissions of an expression, mirroring how it is printed.
pub open spec fn expr_emis(e: ExprView) -> Seq<Emission>
    decreases e,
{
    match e {
        ExprView::Binary { op, left, right } => expr_emis(*left) + seq![
            Emission::Gap(seq![' ']),
            Emission::Tok(TokenKindView::Symbol('+')),
            Emission::Gap(seq![' ']),
        ] + expr_emis(*right),
        ExprView::Number(t) => seq![Emission::Tok(TokenKindView::Number(t))],
        ExprView::StringLiteral(t) => seq![Emission::Tok(TokenKindView::StringLiteral(t))],
        ExprView::Ident(id) => seq![Emission::Tok(TokenKindView::Ident(id))],
    }
}

/// The emissions of one parameter.
pub open spec fn param_emis(pv: ParamView) -> Seq<Emission> {
    seq![Emission::Tok(TokenKindView::Ident(pv.name))] + (match pv.ty {
        Some(t) => seq![
            Emission::Tok(TokenKindView::Symbol(':')),
            Emission::Gap(seq![' ']),
            Emission::Tok(TokenKindView::Ident(t)),
        ],
        None => Seq::empty(),
    })
}

/// The emissions of the parameters from index `i` on.
pub open spec fn params_emis_from(ps: Seq<ParamView>, i: int) -> Seq<Emission>
    decreases ps.len() - i,
{
    if i < 0 || i >= ps.len() {
        Seq::empty()
    } else {
        (if i > 0 {
            seq![Emission::Tok(TokenKindView::Symbol(',')), Emission::Gap(seq![' '])]
        } else {
            Seq::empty()
        }) + param_emis(ps[i]) + params_emis_from(ps, i + 1)
    }
}

/// The emissions of one body line.
pub open spec fn line_emis(st: StatementView) -> Seq<Emission> {
    match st {
        StatementView::Return(e) => seq![
            Emission::Gap(seq![' ', ' ']),
            Emission::Tok(TokenKindView::Keyword("return"@)),
            Emission::Gap(seq![' ']),
        ] + expr_emis(e) + seq![
            Emission::Tok(TokenKindView::Semicolon),
            Emission::Gap(seq!['\n']),
        ],
        _ => Seq::empty(),
    }
}

/// The emissions of the body lines from index `i` on.
pub open spec fn body_emis_from(body: Seq<StatementView>, i: int) -> Seq<Emission>
    decreases body.len() - i,
{
    if i < 0 || i >= body.len() {
        Seq::empty()
    } else {
        line_emis(body[i]) + body_emis_from(body, i + 1)
    }
}

/// The emissions of one function declaration.
pub open spec fn fn_emis(st: StatementView) -> Seq<Emission> {
    match st {
        StatementView::Function { name, params, return_type, body } => seq![
            Emission::Tok(TokenKindView::Keyword("fn"@)),
            Emission::Gap(seq![' ']),
            Emission::Tok(TokenKindView::Ident(name)),
            Emission::Tok(TokenKindView::OpenParen),
        ] + params_emis_from(params, 0) + seq![Emission::Tok(TokenKindView::CloseParen)] + (
        match return_type {
            Some(t) => seq![
                Emission::Gap(seq![' ']),
                Emission::Tok(TokenKindView::Arrow),
                Emission::Gap(seq![' ']),
                Emission::Tok(TokenKindView::Ident(t)),
            ],
            None => Seq::empty(),
        }) + seq![
            Emission::Gap(seq![' ']),
            Emission::Tok(TokenKindView::OpenBrace),
            Emission::Gap(seq!['\n']),
        ] + body_emis_from(body, 0) + seq![
            Emission::Tok(TokenKindView::CloseBrace),
            Emission::Gap(seq!['\n', '\n']),
        ],
        _ => Seq::empty(),
    }
}

/// The emissions of the top-level statements from index `i` on.
pub open spec fn prog_emis_from(stmts: Seq<StatementView>, i: int) -> Seq<Emission>
    decreases stmts.len() - i,
{
    if i < 0 || i >= stmts.len() {
        Seq::empty()
    } else {
        fn_emis(stmts[i]) + prog_emis_from(stmts, i + 1)
    }
}


proof fn lemma_list1(a: Emission)
    ensures
        emis_text(seq![a]) == item_text(a),
        emis_kinds(seq![a]) == item_kinds(a),
{
    assert(seq![a].len() == 1);
    assert(seq![a].first() == a);
    assert(seq![a].drop_first() =~= Seq::<Emission>::empty());
    assert(emis_text(seq![a].drop_first()) =~= Seq::<char>::empty());
    assert(emis_kinds(seq![a].drop_first()) =~= Seq::<TokenKindView>::empty());
    assert(emis_text(seq![a]) =~= item_text(a));
    assert(emis_kinds(seq![a]) =~= item_kinds(a));
}

proof fn lemma_list2(a: Emission, b: Emission)
    ensures
        emis_text(seq![a, b]) == item_text(a) + item_text(b),
        emis_kinds(seq![a, b]) == item_kinds(a) + item_kinds(b),
{
    assert(seq![a, b].len() == 2);
    assert(seq![a, b].first() == a);
    assert(seq![a, b].drop_first() =~= seq![b]);
    lemma_list1(b);
    assert(emis_text(seq![a, b]) =~= item_text(a) + item_text(b));
    assert(emis_kinds(seq![a, b]) =~= item_kinds(a) + item_kinds(b));
}

proof fn lemma_list3(a: Emission, b: Emission, c: Emission)
    ensures
        emis_text(seq![a, b, c]) == item_text(a) + item_text(b) + item_text(c),
        emis_kinds(seq![a, b, c]) == item_kinds(a) + item_kinds(b) + item_kinds(c),
{
    assert(seq![a, b, c].len() == 3);
    assert(seq![a, b, c].first() == a);
    assert(seq![a, b, c].drop_first() =~= seq![b, c]);
    lemma_list2(b, c);
    assert(emis_text(seq![a, b, c]) =~= item_text(a) + item_text(b) + item_text(c));
    assert(emis_kinds(seq![a, b, c]) =~= item_kinds(a) + item_kinds(b) + item_kinds(c));
}

proof fn lemma_list4(a: Emission, b: Emission, c: Emission, d: Emission)
    ensures
        emis_text(seq![a, b, c, d]) == item_text(a) + item_text(b) + item_text(c) + item_text(d),
        emis_kinds(seq![a, b, c, d]) == item_kinds(a) + item_kinds(b) + item_kinds(c) + item_kinds(
            d,
        ),
{
    assert(seq![a, b, c, d].len() == 4);
    assert(seq![a, b, c, d].first() == a);
    assert(seq![a, b, c, d].drop_first() =~= seq![b, c, d]);
    lemma_list3(b, c, d);
    assert(emis_text(seq![a, b, c, d]) =~= item_text(a) + item_text(b) + item_text(c) + item_text(
        d,
    ));
    assert(emis_kinds(seq![a, b, c, d]) =~= item_kinds(a) + item_kinds(b) + item_kinds(c)
        + item_kinds(d));
}

/// The printed text and the tokens of an expression's emissions are its
/// printed form and its token run.
proof fn lemma_expr_shape(e: ExprView)
    requires
        parseable_expr(e),
    ensures
        emis_text(expr_emis(e)) == spec_pretty_expr(e),
        emis_kinds(expr_emis(e)) == expr_toks(e),
    decreases e,
{
    reveal_strlit(" + ");
    match e {
        ExprView::Binary { op, left, right } => {
            lemma_expr_shape(*left);
            lemma_expr_shape(*right);
            let mid = seq![
                Emission::Gap(seq![' ']),
                Emission::Tok(TokenKindView::Symbol('+')),
                Emission::Gap(seq![' ']),
            ];
            lemma_list3(mid[0], mid[1], mid[2]);
            assert(mid =~= seq![mid[0], mid[1], mid[2]]);
            lemma_emis_text_concat(expr_emis(*left) + mid, expr_emis(*right));
            lemma_emis_text_concat(expr_emis(*left), mid);
            lemma_emis_kinds_concat(expr_emis(*left) + mid, expr_emis(*right));
            lemma_emis_kinds_concat(expr_emis(*left), mid);
            assert(emis_text(mid) =~= " + "@);
            assert(emis_text(expr_emis(e)) =~= spec_pretty_expr(e));
            assert(emis_kinds(mid) =~= seq![TokenKindView::Symbol('+')]);
            assert(emis_kinds(expr_emis(*right)) == prim_toks(*right));
            assert(emis_kinds(expr_emis(e)) =~= expr_toks(e));
        },
        ExprView::Number(t) => {
            lemma_list1(Emission::Tok(TokenKindView::Number(t)));
        },
        ExprView::StringLiteral(t) => {
            reveal_strlit("\"");
            lemma_list1(Emission::Tok(TokenKindView::StringLiteral(t)));
            assert(tok_img(TokenKindView::StringLiteral(t)) =~= "\""@ + t + "\""@);
        },
        ExprView::Ident(id) => {
            lemma_list1(Emission::Tok(TokenKindView::Ident(id)));
        },
    }
}

/// The printed text and the tokens of a parameter's emissions.
proof fn lemma_param_shape(pv: ParamView)
    ensures
        emis_text(param_emis(pv)) == spec_pretty_param(pv),
        emis_kinds(param_emis(pv)) == param_toks(pv),
{
    reveal_strlit(": ");
    match pv.ty {
        Some(t) => {
            let es = param_emis(pv);
            assert(es =~= seq![
                Emission::Tok(TokenKindView::Ident(pv.name)),
                Emission::Tok(TokenKindView::Symbol(':')),
                Emission::Gap(seq![' ']),
                Emission::Tok(TokenKindView::Ident(t)),
            ]);
            lemma_list4(
                Emission::Tok(TokenKindView::Ident(pv.name)),
                Emission::Tok(TokenKindView::Symbol(':')),
                Emission::Gap(seq![' ']),
                Emission::Tok(TokenKindView::Ident(t)),
            );
            assert(emis_text(es) =~= spec_pretty_param(pv));
            assert(emis_kinds(es) =~= param_toks(pv));
        },
        None => {
            let es = param_emis(pv);
            assert(es =~= seq![Emission::Tok(TokenKindView::Ident(pv.name))]);
            lemma_list1(Emission::Tok(TokenKindView::Ident(pv.name)));
            assert(emis_text(es) =~= spec_pretty_param(pv));
            assert(emis_kinds(es) =~= param_toks(pv));
        },
    }
}

/// The printed text and the tokens of the parameter list's emissions.
proof fn lemma_params_shape(ps: Seq<ParamView>, i: int)
    requires
        0 <= i <= ps.len(),
    ensures
        emis_text(params_emis_from(ps, i)) == spec_pretty_params_from(ps, i),
        i < ps.len() ==> emis_kinds(params_emis_from(ps, i)) == (if i > 0 {
            seq![TokenKindView::Symbol(',')]
        } else {
            Seq::empty()
        }) + params_rest_toks(ps, i),
        i == ps.len() ==> emis_kinds(params_emis_from(ps, i)) == Seq::<TokenKindView>::empty(),
    decreases ps.len() - i,
{
    reveal_strlit(", ");
    if i == ps.len() {
        assert(emis_text(params_emis_from(ps, i)) =~= spec_pretty_params_from(ps, i));
    } else {
        lemma_param_shape(ps[i]);
        lemma_params_shape(ps, i + 1);
        let sep: Seq<Emission> = if i > 0 {
            seq![Emission::Tok(TokenKindView::Symbol(',')), Emission::Gap(seq![' '])]
        } else {
            Seq::empty()
        };
        let es = params_emis_from(ps, i);
        assert(es == sep + param_emis(ps[i]) + params_emis_from(ps, i + 1));
        lemma_emis_text_concat(sep + param_emis(ps[i]), params_emis_from(ps, i + 1));
        lemma_emis_text_concat(sep, param_emis(ps[i]));
        lemma_emis_kinds_concat(sep + param_emis(ps[i]), params_emis_from(ps, i + 1));
        lemma_emis_kinds_concat(sep, param_emis(ps[i]));
        if i > 0 {
            lemma_list2(
                Emission::Tok(TokenKindView::Symbol(',')),
                Emission::Gap(seq![' ']),
            );
            assert(emis_text(sep) =~= ", "@);
        } else {
            assert(emis_text(sep) =~= Seq::<char>::empty());
            assert(emis_kinds(sep) =~= Seq::<TokenKindView>::empty());
        }
        assert(emis_text(es) =~= spec_pretty_params_from(ps, i));
        // the token run: the separator, the parameter, then the rest
        if i + 1 < ps.len() {
            assert(emis_kinds(es) =~= (if i > 0 {
                seq![TokenKindView::Symbol(',')]
            } else {
                Seq::<TokenKindView>::empty()
            }) + params_rest_toks(ps, i));
        } else {
            assert(emis_kinds(params_emis_from(ps, i + 1)) =~= Seq::<TokenKindView>::empty());
            assert(emis_kinds(es) =~= (if i > 0 {
                seq![TokenKindView::Symbol(',')]
            } else {
                Seq::<TokenKindView>::empty()
            }) + params_rest_toks(ps, i));
        }
    }
}


proof fn lemma_line_shape(st: StatementView)
    requires
        st matches StatementView::Return(e) && parseable_expr(e),
    ensures
        emis_text(line_emis(st)) == spec_pretty_line(st),
        emis_kinds(line_emis(st)) == line_toks(st),
{
    reveal_strlit("return");
    reveal_strlit("  return ");
    reveal_strlit(";\n");
    match st {
        StatementView::Return(e) => {
            lemma_expr_shape(e);
            let h0 = Emission::Gap(seq![' ', ' ']);
            let h1 = Emission::Tok(TokenKindView::Keyword("return"@));
            let h2 = Emission::Gap(seq![' ']);
            let t0 = Emission::Tok(TokenKindView::Semicolon);
            let t1 = Emission::Gap(seq!['\n']);
            let head = seq![h0, h1, h2];
            let tail = seq![t0, t1];
            lemma_list3(h0, h1, h2);
            lemma_list2(t0, t1);
            assert(line_emis(st) == head + expr_emis(e) + tail);
            lemma_emis_text_concat(head + expr_emis(e), tail);
            lemma_emis_text_concat(head, expr_emis(e));
            lemma_emis_kinds_concat(head + expr_emis(e), tail);
            lemma_emis_kinds_concat(head, expr_emis(e));
            assert(emis_text(head) =~= "  return "@);
            assert(emis_text(tail) =~= ";\n"@);
            assert(emis_text(line_emis(st)) =~= spec_pretty_line(st));
            assert(emis_kinds(head) =~= seq![TokenKindView::Keyword("return"@)]);
            assert(emis_kinds(tail) =~= seq![TokenKindView::Semicolon]);
            assert(emis_kinds(line_emis(st)) =~= line_toks(st));
        },
        _ => {},
    }
}

proof fn lemma_body_shape(body: Seq<StatementView>, i: int)
    requires
        0 <= i <= body.len(),
        forall|j: int|
            0 <= j < body.len() ==> (#[trigger] body[j] matches StatementView::Return(e)
                && parseable_expr(e)),
    ensures
        emis_text(body_emis_from(body, i)) == spec_pretty_body_from(body, i),
        emis_kinds(body_emis_from(body, i)) == body_toks_from(body, i),
    decreases body.len() - i,
{
    if i < body.len() {
        lemma_line_shape(body[i]);
        lemma_body_shape(body, i + 1);
        lemma_emis_text_concat(line_emis(body[i]), body_emis_from(body, i + 1));
        lemma_emis_kinds_concat(line_emis(body[i]), body_emis_from(body, i + 1));
    }
}

proof fn lemma_fn_shape(st: StatementView)
    requires
        st matches StatementView::Function { name, params, return_type, body } && (forall|j: int|
            0 <= j < body.len() ==> (#[trigger] body[j] matches StatementView::Return(e)
                && parseable_expr(e))),
    ensures
        emis_text(fn_emis(st)) == spec_pretty_stmt(st),
        emis_kinds(fn_emis(st)) == fn_toks(st),
{
    reveal_strlit("fn");
    reveal_strlit("fn ");
    reveal_strlit("(");
    reveal_strlit(")");
    reveal_strlit(" -> ");
    reveal_strlit(" {\n");
    reveal_strlit("}\n\n");
    match st {
        StatementView::Function { name, params, return_type, body } => {
            let a = seq![
                Emission::Tok(TokenKindView::Keyword("fn"@)),
                Emission::Gap(seq![' ']),
                Emission::Tok(TokenKindView::Ident(name)),
                Emission::Tok(TokenKindView::OpenParen),
            ];
            let pe = params_emis_from(params, 0);
            let c = seq![Emission::Tok(TokenKindView::CloseParen)];
            let r = (match return_type {
                Some(t) => seq![
                    Emission::Gap(seq![' ']),
                    Emission::Tok(TokenKindView::Arrow),
                    Emission::Gap(seq![' ']),
                    Emission::Tok(TokenKindView::Ident(t)),
                ],
                None => Seq::<Emission>::empty(),
            });
            let ob = seq![
                Emission::Gap(seq![' ']),
                Emission::Tok(TokenKindView::OpenBrace),
                Emission::Gap(seq!['\n']),
            ];
            let be = body_emis_from(body, 0);
            let cb = seq![
                Emission::Tok(TokenKindView::CloseBrace),
                Emission::Gap(seq!['\n', '\n']),
            ];
            assert(fn_emis(st) == a + pe + c + r + ob + be + cb);
            lemma_list4(a[0], a[1], a[2], a[3]);
            assert(a =~= seq![a[0], a[1], a[2], a[3]]);
            lemma_list1(c[0]);
            assert(c =~= seq![c[0]]);
            match return_type {
                Some(t) => {
                    lemma_list4(r[0], r[1], r[2], r[3]);
                    assert(r =~= seq![r[0], r[1], r[2], r[3]]);
                    assert(emis_text(r) =~= " -> "@ + t);
                    assert(emis_kinds(r) =~= seq![
                        TokenKindView::Arrow,
                        TokenKindView::Ident(t),
                    ]);
                },
                None => {
                    assert(emis_text(r) =~= Seq::<char>::empty());
                    assert(emis_kinds(r) =~= Seq::<TokenKindView>::empty());
                },
            }
            lemma_list3(ob[0], ob[1], ob[2]);
            assert(ob =~= seq![ob[0], ob[1], ob[2]]);
            lemma_list2(cb[0], cb[1]);
            assert(cb =~= seq![cb[0], cb[1]]);
            lemma_params_shape(params, 0);
            lemma_body_shape(body, 0);
            lemma_emis_text_concat(a + pe + c + r + ob + be, cb);
            lemma_emis_text_concat(a + pe + c + r + ob, be);
            lemma_emis_text_concat(a + pe + c + r, ob);
            lemma_emis_text_concat(a + pe + c, r);
            lemma_emis_text_concat(a + pe, c);
            lemma_emis_text_concat(a, pe);
            lemma_emis_kinds_concat(a + pe + c + r + ob + be, cb);
            lemma_emis_kinds_concat(a + pe + c + r + ob, be);
            lemma_emis_kinds_concat(a + pe + c + r, ob);
            lemma_emis_kinds_concat(a + pe + c, r);
            lemma_emis_kinds_concat(a + pe, c);
            lemma_emis_kinds_concat(a, pe);
            assert(emis_text(a) =~= "fn "@ + name + "("@);
            assert(emis_text(c) =~= ")"@);
            assert(emis_text(ob) =~= " {\n"@);
            assert(emis_text(cb) =~= "}\n\n"@);
            assert(emis_text(fn_emis(st)) =~= spec_pretty_stmt(st));
            assert(emis_kinds(a) =~= seq![
                TokenKindView::Keyword("fn"@),
                TokenKindView::Ident(name),
                TokenKindView::OpenParen,
            ]);
            assert(emis_kinds(c) =~= seq![TokenKindView::CloseParen]);
            assert(emis_kinds(ob) =~= seq![TokenKindView::OpenBrace]);
            assert(emis_kinds(cb) =~= seq![TokenKindView::CloseBrace]);
            if params.len() > 0 {
                assert(emis_kinds(pe) == params_rest_toks(params, 0));
                assert(emis_kinds(pe) == params_toks(params));
            } else {
                assert(emis_kinds(pe) =~= params_toks(params));
            }
            assert(emis_kinds(fn_emis(st)) =~= fn_toks(st));
        },
        _ => {},
    }
}


proof fn lemma_prog_shape(stmts: Seq<StatementView>, i: int)
    requires
        0 <= i <= stmts.len(),
        forall|j: int| 0 <= j < stmts.len() ==> printable_stmt(#[trigger] stmts[j]),
    ensures
        emis_text(prog_emis_from(stmts, i)) == spec_pretty_from(stmts, i),
        emis_kinds(prog_emis_from(stmts, i)) == prog_toks_from(stmts, i),
    decreases stmts.len() - i,
{
    if i < stmts.len() {
        lemma_printable_stmt_parseable(stmts[i]);
        lemma_fn_shape(stmts[i]);
        lemma_prog_shape(stmts, i + 1);
        lemma_emis_text_concat(fn_emis(stmts[i]), prog_emis_from(stmts, i + 1));
        lemma_emis_kinds_concat(fn_emis(stmts[i]), prog_emis_from(stmts, i + 1));
    }
}

/// A well-formed parameter: word names, and a word type when declared.
pub open spec fn param_ok(pv: ParamView) -> bool {
    &&& wf_word(pv.name)
    &&& !is_keyword(pv.name)
    &&& match pv.ty {
        Some(t) => wf_word(t) && !is_keyword(t),
        None => true,
    }
}

/// An expression whose printed form reads back as itself: well-formed
/// literals and names, and a strictly left-associated shape.
pub open spec fn printable_expr(e: ExprView) -> bool
    decreases e,
{
    match e {
        ExprView::Number(t) => valid_number_text(t),
        ExprView::StringLiteral(t) => forall|i: int| 0 <= i < t.len() ==> #[trigger] t[i] != '"',
        ExprView::Ident(id) => wf_word(id) && !is_keyword(id),
        ExprView::Binary { op, left, right } => printable_expr(*left) && is_primary(*right)
            && printable_expr(*right),
    }
}

/// A statement whose printed form reads back as itself: a function with
/// well-formed names whose body holds only return statements.
pub open spec fn printable_stmt(st: StatementView) -> bool {
    match st {
        StatementView::Function { name, params, return_type, body } => {
            &&& wf_word(name) && !is_keyword(name)
            &&& forall|i: int| 0 <= i < params.len() ==> param_ok(#[trigger] params[i])
            &&& match return_type {
                Some(t) => wf_word(t) && !is_keyword(t),
                None => true,
            }
            &&& forall|i: int|
                0 <= i < body.len() ==> (#[trigger] body[i] matches StatementView::Return(e)
                    && printable_expr(e))
        },
        _ => false,
    }
}

/// A program drawn from the supported grammar subset, with well-formed
/// names and literals.
pub open spec fn printable(p: ProgramView) -> bool {
    forall|i: int| 0 <= i < p.statements.len() ==> printable_stmt(#[trigger] p.statements[i])
}

proof fn lemma_printable_expr_parseable(e: ExprView)
    requires
        printable_expr(e),
    ensures
        parseable_expr(e),
    decreases e,
{
    match e {
        ExprView::Binary { op, left, right } => {
            lemma_printable_expr_parseable(*left);
            lemma_printable_expr_parseable(*right);
        },
        _ => {},
    }
}

proof fn lemma_printable_stmt_parseable(st: StatementView)
    requires
        printable_stmt(st),
    ensures
        parseable_stmt(st),
        st matches StatementView::Function { name, params, return_type, body } && (forall|j: int|
            0 <= j < body.len() ==> (#[trigger] body[j] matches StatementView::Return(e)
                && parseable_expr(e))),
{
    match st {
        StatementView::Function { name, params, return_type, body } => {
            assert forall|j: int|
                0 <= j < body.len() implies (#[trigger] body[j] matches StatementView::Return(e)
                && parseable_expr(e)) by {
                assert(body[j] matches StatementView::Return(e) && printable_expr(e));
                match body[j] {
                    StatementView::Return(e) => {
                        lemma_printable_expr_parseable(e);
                    },
                    _ => {},
                }
            }
        },
        _ => {},
    }
}

/// A follower that lets word and number tokens end exactly at their
/// image's end.
pub open spec fn word_fc_ok(fc: Option<char>) -> bool {
    match fc {
        Some(c) => !(is_alnum(c) || c == '_') && !is_digit(c) && c != '.',
        None => true,
    }
}

proof fn lemma_expr_ok(e: ExprView, fc: Option<char>)
    requires
        printable_expr(e),
        word_fc_ok(fc),
    ensures
        emis_ok(expr_emis(e), fc),
    decreases e,
{
    reveal_with_fuel(emis_ok, 6);
    reveal_with_fuel(first_char_fc, 6);
    match e {
        ExprView::Binary { op, left, right } => {
            let el = expr_emis(*left);
            let er = expr_emis(*right);
            let m0 = Emission::Gap(seq![' ']);
            let m1 = Emission::Tok(TokenKindView::Symbol('+'));
            let m2 = Emission::Gap(seq![' ']);
            let mid = seq![m0, m1, m2];
            lemma_expr_ok(*right, fc);
            let fc2 = first_char_fc(er, fc);
            // the right operand is one token with a non-empty image
            assert(er.len() == 1);
            assert(er.first() == er[0]);
            assert(item_text(er.first()).len() > 0) by {
                match *right {
                    ExprView::Number(t) => {
                        assert(tok_img(TokenKindView::Number(t)) == t);
                    },
                    ExprView::StringLiteral(t) => {},
                    ExprView::Ident(id2) => {},
                    ExprView::Binary { .. } => {},
                }
            }
            // within the separator every follower is harmless
            assert(emis_ok(mid, fc2)) by {
                assert(mid.drop_first() =~= seq![m1, m2]);
                assert(seq![m1, m2].drop_first() =~= seq![m2]);
                assert(seq![m2].drop_first() =~= Seq::<Emission>::empty());
                assert(is_ws(' '));
                assert(sym_char_ok('+'));
            }
            lemma_emis_ok_concat(mid, er, fc);
            let fc3 = first_char_fc(mid + er, fc);
            assert(fc3 == Some(' ')) by {
                assert((mid + er).first() == m0) by {
                    vstd::seq::axiom_seq_add_index1(mid, er, 0);
                }
            }
            assert(word_fc_ok(fc3)) by {
                assert(!is_alnum(' ') && !is_digit(' '));
            }
            lemma_expr_ok(*left, fc3);
            lemma_emis_ok_concat(el, mid + er, fc);
            assert(el + (mid + er) =~= el + mid + er);
        },
        ExprView::Number(t) => {
            let es = expr_emis(e);
            assert(es.drop_first() =~= Seq::<Emission>::empty());
            assert(tok_ok(TokenKindView::Number(t)));
            assert(follow_ok(TokenKindView::Number(t), fc));
        },
        ExprView::StringLiteral(t) => {
            let es = expr_emis(e);
            assert(es.drop_first() =~= Seq::<Emission>::empty());
            assert(tok_ok(TokenKindView::StringLiteral(t)));
        },
        ExprView::Ident(id) => {
            let es = expr_emis(e);
            assert(es.drop_first() =~= Seq::<Emission>::empty());
            assert(tok_ok(TokenKindView::Ident(id)));
            assert(follow_ok(TokenKindView::Ident(id), fc));
        },
    }
}

proof fn lemma_param_ok_emis(pv: ParamView, fc: Option<char>)
    requires
        param_ok(pv),
        word_fc_ok(fc),
    ensures
        emis_ok(param_emis(pv), fc),
{
    reveal_with_fuel(emis_ok, 6);
    reveal_with_fuel(first_char_fc, 6);
    match pv.ty {
        Some(t) => {
            let e0 = Emission::Tok(TokenKindView::Ident(pv.name));
            let e1 = Emission::Tok(TokenKindView::Symbol(':'));
            let e2 = Emission::Gap(seq![' ']);
            let e3 = Emission::Tok(TokenKindView::Ident(t));
            let es = param_emis(pv);
            assert(es =~= seq![e0, e1, e2, e3]);
            assert(seq![e0, e1, e2, e3].drop_first() =~= seq![e1, e2, e3]);
            assert(seq![e1, e2, e3].drop_first() =~= seq![e2, e3]);
            assert(seq![e2, e3].drop_first() =~= seq![e3]);
            assert(seq![e3].drop_first() =~= Seq::<Emission>::empty());
            assert(sym_char_ok(':'));
            assert(is_ws(' '));
            assert(first_char_fc(seq![e1, e2, e3], fc) == Some(':'));
            assert(!(is_alnum(':') || ':' == '_'));
            assert(emis_ok(es, fc));
        },
        None => {
            let e0 = Emission::Tok(TokenKindView::Ident(pv.name));
            let es = param_emis(pv);
            assert(es =~= seq![e0]);
            assert(seq![e0].drop_first() =~= Seq::<Emission>::empty());
            assert(emis_ok(es, fc));
        },
    }
}

proof fn lemma_params_ok_emis(ps: Seq<ParamView>, i: int, fc: Option<char>)
    requires
        0 <= i <= ps.len(),
        forall|j: int| 0 <= j < ps.len() ==> param_ok(#[trigger] ps[j]),
        word_fc_ok(fc),
    ensures
        emis_ok(params_emis_from(ps, i), fc),
    decreases ps.len() - i,
{
    reveal_with_fuel(emis_ok, 6);
    reveal_with_fuel(first_char_fc, 6);
    if i < ps.len() {
        let sep: Seq<Emission> = if i > 0 {
            seq![Emission::Tok(TokenKindView::Symbol(',')), Emission::Gap(seq![' '])]
        } else {
            Seq::empty()
        };
        let pe = param_emis(ps[i]);
        let rest = params_emis_from(ps, i + 1);
        lemma_params_ok_emis(ps, i + 1, fc);
        let fcr = first_char_fc(rest, fc);
        assert(word_fc_ok(fcr)) by {
            if i + 1 < ps.len() {
                let sep2: Seq<Emission> = seq![
                    Emission::Tok(TokenKindView::Symbol(',')),
                    Emission::Gap(seq![' ']),
                ];
                assert(rest == sep2 + param_emis(ps[i + 1]) + params_emis_from(ps, i + 2));
                assert(rest.first() == sep2[0]) by {
                    vstd::seq::axiom_seq_add_index1(
                        sep2 + param_emis(ps[i + 1]),
                        params_emis_from(ps, i + 2),
                        0,
                    );
                    vstd::seq::axiom_seq_add_index1(sep2, param_emis(ps[i + 1]), 0);
                }
                assert(fcr == Some(','));
                assert(!(is_alnum(',') || ',' == '_') && !is_digit(',') && ',' != '.');
            }
        }
        lemma_param_ok_emis(ps[i], fcr);
        lemma_emis_ok_concat(pe, rest, fc);
        if i > 0 {
            let s0 = Emission::Tok(TokenKindView::Symbol(','));
            let s1 = Emission::Gap(seq![' ']);
            assert(emis_ok(sep, first_char_fc(pe + rest, fc))) by {
                assert(sep.drop_first() =~= seq![s1]);
                assert(seq![s1].drop_first() =~= Seq::<Emission>::empty());
                assert(sym_char_ok(','));
                assert(is_ws(' '));
            }
            lemma_emis_ok_concat(sep, pe + rest, fc);
            assert(sep + (pe + rest) =~= sep + pe + rest);
        } else {
            assert(sep + pe + rest =~= pe + rest);
        }
    }
}



proof fn lemma_ok_cons(e0: Emission, rest: Seq<Emission>, fc: Option<char>)
    requires
        match e0 {
            Emission::Tok(k) => tok_ok(k) && follow_ok(k, first_char_fc(rest, fc)),
            Emission::Gap(g) => gap_ok(g),
        },
        emis_ok(rest, fc),
    ensures
        emis_ok(seq![e0] + rest, fc),
{
    assert((seq![e0] + rest).first() == e0) by {
        vstd::seq::axiom_seq_add_index1(seq![e0], rest, 0);
    }
    assert((seq![e0] + rest).drop_first() =~= rest);
}

proof fn lemma_fc_cons(e0: Emission, rest: Seq<Emission>, fc: Option<char>)
    ensures
        first_char_fc(seq![e0] + rest, fc) == (if item_text(e0).len() > 0 {
            Some(item_text(e0)[0])
        } else {
            first_char_fc(rest, fc)
        }),
{
    assert((seq![e0] + rest).first() == e0) by {
        vstd::seq::axiom_seq_add_index1(seq![e0], rest, 0);
    }
    assert((seq![e0] + rest).drop_first() =~= rest);
}

proof fn lemma_line_ok(st: StatementView, fc: Option<char>)

    requires
        st matches StatementView::Return(e) && printable_expr(e),
    ensures
        emis_ok(line_emis(st), fc),
{
    reveal_with_fuel(emis_ok, 6);
    reveal_with_fuel(first_char_fc, 6);
    reveal_strlit("return");
    match st {
        StatementView::Return(e) => {
            let h0 = Emission::Gap(seq![' ', ' ']);
            let h1 = Emission::Tok(TokenKindView::Keyword("return"@));
            let h2 = Emission::Gap(seq![' ']);
            let t0 = Emission::Tok(TokenKindView::Semicolon);
            let t1 = Emission::Gap(seq!['\n']);
            let head = seq![h0, h1, h2];
            let tail = seq![t0, t1];
            let ee = expr_emis(e);
            assert(line_emis(st) == head + ee + tail);
            assert(emis_ok(tail, fc)) by {
                assert(tail.drop_first() =~= seq![t1]);
                assert(seq![t1].drop_first() =~= Seq::<Emission>::empty());
                assert(is_ws('\n'));
            }
            let fct = first_char_fc(tail, fc);
            assert(fct == Some(';'));
            assert(word_fc_ok(fct)) by {
                assert(!(is_alnum(';') || ';' == '_') && !is_digit(';') && ';' != '.');
            }
            lemma_expr_ok(e, fct);
            lemma_emis_ok_concat(ee, tail, fc);
            let fce = first_char_fc(ee + tail, fc);
            assert(emis_ok(head, fce)) by {
                assert(head.drop_first() =~= seq![h1, h2]);
                assert(seq![h1, h2].drop_first() =~= seq![h2]);
                assert(seq![h2].drop_first() =~= Seq::<Emission>::empty());
                assert(is_ws(' '));
                // the keyword's image is a word and its follower is the gap
                assert(tok_ok(TokenKindView::Keyword("return"@))) by {
                    let t = "return"@;
                    assert(t.len() == 6);
                    assert(is_keyword(t));
                    assert(is_alpha(t[0]));
                    assert forall|i: int| 0 <= i < t.len() implies ident_char_ok(
                        #[trigger] t[i],
                    ) by {
                        assert(is_alnum(t[i]) && !is_ws(t[i]));
                    }
                }
                assert(first_char_fc(seq![h2], fce) == Some(' '));
                assert(!(is_alnum(' ') || ' ' == '_'));
            }
            lemma_emis_ok_concat(head, ee + tail, fc);
            assert(head + (ee + tail) =~= head + ee + tail);
        },
        _ => {},
    }
}

proof fn lemma_body_ok(body: Seq<StatementView>, i: int, fc: Option<char>)
    requires
        0 <= i <= body.len(),
        forall|j: int|
            0 <= j < body.len() ==> (#[trigger] body[j] matches StatementView::Return(e)
                && printable_expr(e)),
    ensures
        emis_ok(body_emis_from(body, i), fc),
    decreases body.len() - i,
{
    if i < body.len() {
        lemma_body_ok(body, i + 1, fc);
        lemma_line_ok(body[i], first_char_fc(body_emis_from(body, i + 1), fc));
        lemma_emis_ok_concat(line_emis(body[i]), body_emis_from(body, i + 1), fc);
    }
}

#[verifier::spinoff_prover]
#[verifier::rlimit(100)]
proof fn lemma_fn_ok(st: StatementView, fc: Option<char>)
    requires
        printable_stmt(st),
    ensures
        emis_ok(fn_emis(st), fc),
{
    reveal_strlit("fn");
    match st {
        StatementView::Function { name, params, return_type, body } => {
            let a0 = Emission::Tok(TokenKindView::Keyword("fn"@));
            let a1 = Emission::Gap(seq![' ']);
            let a2 = Emission::Tok(TokenKindView::Ident(name));
            let a3 = Emission::Tok(TokenKindView::OpenParen);
            let a = seq![a0, a1, a2, a3];
            let pe = params_emis_from(params, 0);
            let c0 = Emission::Tok(TokenKindView::CloseParen);
            let c = seq![c0];
            let r = (match return_type {
                Some(t) => seq![
                    Emission::Gap(seq![' ']),
                    Emission::Tok(TokenKindView::Arrow),
                    Emission::Gap(seq![' ']),
                    Emission::Tok(TokenKindView::Ident(t)),
                ],
                None => Seq::<Emission>::empty(),
            });
            let ob0 = Emission::Gap(seq![' ']);
            let ob1 = Emission::Tok(TokenKindView::OpenBrace);
            let ob2 = Emission::Gap(seq!['\n']);
            let ob = seq![ob0, ob1, ob2];
            let be = body_emis_from(body, 0);
            let cb0 = Emission::Tok(TokenKindView::CloseBrace);
            let cb1 = Emission::Gap(seq!['\n', '\n']);
            let cb = seq![cb0, cb1];
            assert(fn_emis(st) == a + pe + c + r + ob + be + cb);
            // build the run from the back, one piece at a time
            let u0 = Seq::<Emission>::empty();
            let u1 = seq![cb1] + u0;
            let u2 = seq![cb0] + u1;
            assert(emis_ok(u0, fc));
            lemma_ok_cons(cb1, u0, fc);
            assert(is_ws('\n'));
            lemma_ok_cons(cb0, u1, fc);
            // the body, then the opening-brace group
            let u3 = be + u2;
            assert forall|j: int|
                0 <= j < body.len() implies (#[trigger] body[j] matches StatementView::Return(e)
                && printable_expr(e)) by {
                assert(body[j] matches StatementView::Return(e) && printable_expr(e));
            }
            lemma_body_ok(body, 0, first_char_fc(u2, fc));
            lemma_emis_ok_concat(be, u2, fc);
            let u4 = seq![ob2] + u3;
            lemma_ok_cons(ob2, u3, fc);
            let u5 = seq![ob1] + u4;
            lemma_ok_cons(ob1, u4, fc);
            let u6 = seq![ob0] + u5;
            lemma_ok_cons(ob0, u5, fc);
            lemma_fc_cons(ob0, u5, fc);
            assert(first_char_fc(u6, fc) == Some(' '));
            // the optional return type
            let u7 = r + u6;
            match return_type {
                Some(t) => {
                    let r0 = Emission::Gap(seq![' ']);
                    let r1 = Emission::Tok(TokenKindView::Arrow);
                    let r2 = Emission::Gap(seq![' ']);
                    let r3 = Emission::Tok(TokenKindView::Ident(t));
                    lemma_ok_cons(r3, u6, fc);
                    lemma_fc_cons(r3, u6, fc);
                    assert(!(is_alnum(' ') || ' ' == '_'));
                    let v1 = seq![r3] + u6;
                    lemma_ok_cons(r2, v1, fc);
                    let v2 = seq![r2] + v1;
                    lemma_ok_cons(r1, v2, fc);
                    let v3 = seq![r1] + v2;
                    lemma_ok_cons(r0, v3, fc);
                    let v4 = seq![r0] + v3;
                    assert(u7 =~= v4);
                    lemma_fc_cons(r0, v3, fc);
                    assert(first_char_fc(u7, fc) == Some(' '));
                },
                None => {
                    assert(u7 =~= u6);
                    assert(first_char_fc(u7, fc) == Some(' '));
                },
            }
            // the closing parenthesis
            let u8 = seq![c0] + u7;
            lemma_ok_cons(c0, u7, fc);
            lemma_fc_cons(c0, u7, fc);
            assert(first_char_fc(u8, fc) == Some(')'));
            // the parameters
            let u9 = pe + u8;
            assert(word_fc_ok(Some(')'))) by {
                assert(!(is_alnum(')') || ')' == '_') && !is_digit(')') && ')' != '.');
            }
            lemma_params_ok_emis(params, 0, first_char_fc(u8, fc));
            lemma_emis_ok_concat(pe, u8, fc);
            // the heading
            lemma_ok_cons(a3, u9, fc);
            let w1 = seq![a3] + u9;
            lemma_fc_cons(a3, u9, fc);
            assert(first_char_fc(w1, fc) == Some('('));
            assert(tok_ok(TokenKindView::Ident(name)));
            assert(!(is_alnum('(') || '(' == '_'));
            lemma_ok_cons(a2, w1, fc);
            let w2 = seq![a2] + w1;
            lemma_ok_cons(a1, w2, fc);
            let w3 = seq![a1] + w2;
            lemma_fc_cons(a1, w2, fc);
            assert(first_char_fc(w3, fc) == Some(' '));
            assert(tok_ok(TokenKindView::Keyword("fn"@))) by {
                let t = "fn"@;
                assert(t.len() == 2);
                assert(is_keyword(t));
                assert(is_alpha(t[0]));
                assert forall|i: int| 0 <= i < t.len() implies ident_char_ok(#[trigger] t[i]) by {
                    assert(is_alnum(t[i]) && !is_ws(t[i]));
                }
            }
            assert(!(is_alnum(' ') || ' ' == '_'));
            lemma_ok_cons(a0, w3, fc);
            let w4 = seq![a0] + w3;
            assert(fn_emis(st) =~= w4);
        },
        _ => {},
    }
}

proof fn lemma_prog_ok(stmts: Seq<StatementView>, i: int, fc: Option<char>)
    requires
        0 <= i <= stmts.len(),
        forall|j: int| 0 <= j < stmts.len() ==> printable_stmt(#[trigger] stmts[j]),
    ensures
        emis_ok(prog_emis_from(stmts, i), fc),
    decreases stmts.len() - i,
{
    if i < stmts.len() {
        lemma_prog_ok(stmts, i + 1, fc);
        lemma_fn_ok(stmts[i], first_char_fc(prog_emis_from(stmts, i + 1), fc));
        lemma_emis_ok_concat(fn_emis(stmts[i]), prog_emis_from(stmts, i + 1), fc);
    }
}

/// Round-trip idempotence: pretty-printing a program drawn from the
/// supported grammar subset, then lexing and parsing the printed text,
/// yields a program equal in statement structure to the original.
pub proof fn lemma_pretty_roundtrip(p: ProgramView)
    requires
        printable(p),
    ensures
        spec_parse(kinds(spec_tokens(spec_pretty(p)))) == Ok::<ProgramView, Seq<char>>(p),
{
    let s = spec_pretty(p);
    let es = prog_emis_from(p.statements, 0);
    lemma_prog_shape(p.statements, 0);
    assert(emis_text(es) == s);
    lemma_prog_ok(p.statements, 0, None::<char>);
    assert(s.subrange(0, s.len() as int) =~= s);
    lemma_lex_emis(s, 0, es);
    assert(kinds(spec_tokens(s)) == emis_kinds(es));
    assert(emis_kinds(es) == prog_toks(p));
    assert forall|j: int| 0 <= j < p.statements.len() implies parseable_stmt(
        #[trigger] p.statements[j],
    ) by {
        lemma_printable_stmt_parseable(p.statements[j]);
    }
    lemma_parse_printed_tokens(p);
}

} // verus!
