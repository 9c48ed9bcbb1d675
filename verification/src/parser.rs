//! The recursive-descent parser.
//!
//! The parser consumes the token sequence the lexer produced and builds a
//! [`Program`], or fails with a descriptive message.  Its behaviour is
//! specified by a family of mathematical parsing functions over the
//! sequence of token kinds; every executable method returns exactly what
//! its specification counterpart yields.
//!
//! The grammar:
//! ```text
//! program    := statement*
//! statement  := function | return_stmt
//! function   := 'fn' IDENT '(' params? ')' ('->' IDENT)? '{' statement* '}'
//! params     := param (',' param)*
//! param      := IDENT (':' IDENT)?
//! return_stmt:= 'return' expression ';'
//! expression := primary ('+' primary)*
//! primary    := NUMBER | STRING | IDENT
//! ```
//!
//! A top-level token that begins no statement ends parsing silently; the
//! same situation inside a function body is a hard error.  Structural
//! punctuation accepts either the dedicated bracket token kinds or a
//! generic symbol carrying the same character.

use vstd::prelude::*;
use crate::lexer::{Lexer, Token, TokenKind, TokenView, TokenKindView, spec_tokens_from};
use crate::ast::{
    Param, ParamView, BinOp, Expr, ExprView, Statement, StatementView, Program, ProgramView,
    valid_number_text, check_number_text,
};

verus! {

/// The kinds of a token sequence; spans play no part in parsing.
pub open spec fn kinds(ts: Seq<TokenView>) -> Seq<TokenKindView> {
    Seq::new(ts.len(), |i: int| ts[i].kind)
}

/// A short description of a token kind, used in error messages.
pub open spec fn kind_name(k: TokenKindView) -> Seq<char> {
    match k {
        TokenKindView::Keyword(_) => "keyword"@,
        TokenKindView::Ident(_) => "identifier"@,
        TokenKindView::Number(_) => "number"@,
        TokenKindView::StringLiteral(_) => "string"@,
        TokenKindView::Symbol(_) => "symbol"@,
        TokenKindView::Arrow => "->"@,
        TokenKindView::OpenBrace => "{"@,
        TokenKindView::CloseBrace => "}"@,
        TokenKindView::OpenParen => "("@,
        TokenKindView::CloseParen => ")"@,
        TokenKindView::Semicolon => ";"@,
        TokenKindView::Eof => "<eof>"@,
    }
}

/// "Expected <role> but found <kind>": a missing identifier.
pub open spec fn msg_expected(ctx: Seq<char>, k: TokenKindView) -> Seq<char> {
    "Expected "@ + ctx + " but found "@ + kind_name(k)
}

/// "Expected symbol `<c>` but found <kind>": a missing punctuation mark.
pub open spec fn msg_expected_symbol(sym: char, k: TokenKindView) -> Seq<char> {
    "Expected symbol `"@ + seq![sym] + "` but found "@ + kind_name(k)
}

/// A missing semicolon after a return expression.
pub open spec fn msg_expected_semicolon(k: TokenKindView) -> Seq<char> {
    "Expected `;` but found "@ + kind_name(k)
}

/// A token in a function body that begins no statement.
pub open spec fn msg_body(k: TokenKindView) -> Seq<char> {
    "Unexpected token in function body: "@ + kind_name(k)
}

/// A token that is no valid expression primary.
pub open spec fn msg_expr(k: TokenKindView) -> Seq<char> {
    "Unexpected token in expression: "@ + kind_name(k)
}

/// A number literal whose text cannot be read as a number.
pub open spec fn msg_invalid_number() -> Seq<char> {
    "Invalid number"@
}

/// An end of input inside an expression.
pub open spec fn msg_expr_eof() -> Seq<char> {
    "Unexpected end of input in expression"@
}

/// Reads an identifier at `p`, consuming it: its text on success, or an
/// error naming the expected role.
pub open spec fn spec_expect_ident(toks: Seq<TokenKindView>, p: int, ctx: Seq<char>) -> (Result<
    Seq<char>,
    Seq<char>,
>, int) {
    if p >= toks.len() {
        (Err(msg_expected(ctx, TokenKindView::Eof)), p)
    } else {
        match toks[p] {
            TokenKindView::Ident(id) => (Ok(id), p + 1),
            k => (Err(msg_expected(ctx, k)), p + 1),
        }
    }
}

/// Reads the punctuation mark `sym` at `p`.  The dedicated bracket kinds
/// and a generic symbol carrying the same character are both accepted.
pub open spec fn spec_expect_symbol(toks: Seq<TokenKindView>, p: int, sym: char) -> (Result<
    (),
    Seq<char>,
>, int) {
    if p >= toks.len() {
        (Err(msg_expected_symbol(sym, TokenKindView::Eof)), p)
    } else {
        let k = toks[p];
        if k matches TokenKindView::Symbol(c) && c == sym {
            (Ok(()), p + 1)
        } else if sym == '{' && k is OpenBrace {
            (Ok(()), p + 1)
        } else if sym == '}' && k is CloseBrace {
            (Ok(()), p + 1)
        } else if sym == '(' && k is OpenParen {
            (Ok(()), p + 1)
        } else if sym == ')' && k is CloseParen {
            (Ok(()), p + 1)
        } else {
            (Err(msg_expected_symbol(sym, k)), p)
        }
    }
}

/// Reads the semicolon at `p`; only the dedicated kind is accepted.
pub open spec fn spec_expect_semicolon(toks: Seq<TokenKindView>, p: int) -> (Result<
    (),
    Seq<char>,
>, int) {
    if p >= toks.len() {
        (Err(msg_expected_semicolon(TokenKindView::Eof)), p)
    } else if toks[p] is Semicolon {
        (Ok(()), p + 1)
    } else {
        (Err(msg_expected_semicolon(toks[p])), p)
    }
}

/// Reads an expression primary at `p`: a number literal (whose text must
/// read as a number: digits with at most one dot), a string literal, or
/// an identifier.
pub open spec fn spec_parse_primary(toks: Seq<TokenKindView>, p: int) -> (Result<
    ExprView,
    Seq<char>,
>, int) {
    if p >= toks.len() {
        (Err(msg_expr_eof()), p)
    } else {
        match toks[p] {
            TokenKindView::Number(n) => if valid_number_text(n) {
                (Ok(ExprView::Number(n)), p + 1)
            } else {
                (Err(msg_invalid_number()), p)
            },
            TokenKindView::StringLiteral(t) => (Ok(ExprView::StringLiteral(t)), p + 1),
            TokenKindView::Ident(id) => (Ok(ExprView::Ident(id)), p + 1),
            k => (Err(msg_expr(k)), p),
        }
    }
}

/// Folds `+ primary` pairs onto `left`, left-to-right, as long as a plus
/// symbol follows.
pub open spec fn spec_parse_binop_rhs(toks: Seq<TokenKindView>, p: int, left: ExprView) -> (Result<
    ExprView,
    Seq<char>,
>, int)
    decreases toks.len() - p,
        when 0 <= p <= toks.len()
        via spec_parse_binop_rhs_dec
{
    if p < toks.len() && (toks[p] matches TokenKindView::Symbol(c) && c == '+') {
        let (r, p2) = spec_parse_primary(toks, p + 1);
        match r {
            Ok(right) => spec_parse_binop_rhs(
                toks,
                p2,
                ExprView::Binary { op: BinOp::Add, left: Box::new(left), right: Box::new(right) },
            ),
            Err(e) => (Err(e), p2),
        }
    } else {
        (Ok(left), p)
    }
}

#[via_fn]
proof fn spec_parse_binop_rhs_dec(toks: Seq<TokenKindView>, p: int, left: ExprView) {
    if p < toks.len() && (toks[p] matches TokenKindView::Symbol(c) && c == '+') {
        let (r, p2) = spec_parse_primary(toks, p + 1);
        if r is Ok {
            assert(p2 == p + 2 && p + 1 < toks.len());
        }
    }
}

/// Reads an expression at `p`: a primary followed by zero or more
/// `+ primary` pairs, folded strictly left-associatively.
pub open spec fn spec_parse_expression(toks: Seq<TokenKindView>, p: int) -> (Result<
    ExprView,
    Seq<char>,
>, int) {
    let (r, p1) = spec_parse_primary(toks, p);
    match r {
        Ok(left) => spec_parse_binop_rhs(toks, p1, left),
        Err(e) => (Err(e), p1),
    }
}

/// Reads the non-empty parameter list at `p`, having already read the
/// parameters in `acc`: `IDENT (':' IDENT)?`, continuing after commas.
pub open spec fn spec_parse_params_loop(toks: Seq<TokenKindView>, p: int, acc: Seq<ParamView>) -> (
    Result<Seq<ParamView>, Seq<char>>,
    int,
)
    decreases toks.len() - p,
        when 0 <= p <= toks.len()
        via spec_parse_params_loop_dec
{
    let (rn, p1) = spec_expect_ident(toks, p, "parameter name"@);
    match rn {
        Err(e) => (Err(e), p1),
        Ok(name) => {
            if p1 < toks.len() && (toks[p1] matches TokenKindView::Symbol(c) && c == ':') {
                let (rt, p2) = spec_expect_ident(toks, p1 + 1, "parameter type"@);
                match rt {
                    Err(e) => (Err(e), p2),
                    Ok(ty) => {
                        let pv = ParamView { name: name, ty: Some(ty) };
                        if p2 < toks.len() && (toks[p2] matches TokenKindView::Symbol(c2)
                            && c2 == ',') {
                            spec_parse_params_loop(toks, p2 + 1, acc.push(pv))
                        } else {
                            (Ok(acc.push(pv)), p2)
                        }
                    },
                }
            } else {
                let pv = ParamView { name: name, ty: None };
                if p1 < toks.len() && (toks[p1] matches TokenKindView::Symbol(c2) && c2 == ',') {
                    spec_parse_params_loop(toks, p1 + 1, acc.push(pv))
                } else {
                    (Ok(acc.push(pv)), p1)
                }
            }
        },
    }
}

#[via_fn]
proof fn spec_parse_params_loop_dec(toks: Seq<TokenKindView>, p: int, acc: Seq<ParamView>) {
}

/// Reads the parameter list at `p`: empty if a closing parenthesis
/// follows at once, else a comma-separated list of parameters.
pub open spec fn spec_parse_params(toks: Seq<TokenKindView>, p: int) -> (Result<
    Seq<ParamView>,
    Seq<char>,
>, int) {
    if p < toks.len() && toks[p] is CloseParen {
        (Ok(Seq::empty()), p)
    } else {
        spec_parse_params_loop(toks, p, Seq::empty())
    }
}

/// The parameter reader stays within bounds and moves forward.
pub proof fn lemma_params_loop_bounds(toks: Seq<TokenKindView>, p: int, acc: Seq<ParamView>)
    requires
        0 <= p <= toks.len(),
    ensures
        p <= spec_parse_params_loop(toks, p, acc).1 <= toks.len(),
    decreases toks.len() - p,
{
    let (rn, p1) = spec_expect_ident(toks, p, "parameter name"@);
    match rn {
        Err(e) => {},
        Ok(name) => {
            if p1 < toks.len() && (toks[p1] matches TokenKindView::Symbol(c) && c == ':') {
                let (rt, p2) = spec_expect_ident(toks, p1 + 1, "parameter type"@);
                match rt {
                    Err(e) => {},
                    Ok(ty) => {
                        if p2 < toks.len() && (toks[p2] matches TokenKindView::Symbol(c2)
                            && c2 == ',') {
                            lemma_params_loop_bounds(
                                toks,
                                p2 + 1,
                                acc.push(ParamView { name: name, ty: Some(ty) }),
                            );
                        }
                    },
                }
            } else {
                if p1 < toks.len() && (toks[p1] matches TokenKindView::Symbol(c2) && c2 == ',') {
                    lemma_params_loop_bounds(
                        toks,
                        p1 + 1,
                        acc.push(ParamView { name: name, ty: None }),
                    );
                }
            }
        },
    }
}

/// The parameter list reader stays within bounds.
pub proof fn lemma_params_bounds(toks: Seq<TokenKindView>, p: int)
    requires
        0 <= p <= toks.len(),
    ensures
        p <= spec_parse_params(toks, p).1 <= toks.len(),
{
    if !(p < toks.len() && toks[p] is CloseParen) {
        lemma_params_loop_bounds(toks, p, Seq::empty());
    }
}

/// Reads the statement at `p`, if one begins there: a function for the
/// `fn` keyword, a return statement for the `return` keyword, and nothing
/// (without consuming) for anything else.
pub open spec fn spec_parse_statement(toks: Seq<TokenKindView>, p: int) -> (Result<
    Option<StatementView>,
    Seq<char>,
>, int)
    decreases toks.len() - p, 2int,
        when 0 <= p <= toks.len()
        via spec_parse_statement_dec
{
    if p >= toks.len() {
        (Ok(None), p)
    } else if (toks[p] matches TokenKindView::Keyword(k) && k == "fn"@) {
        let (r, p1) = spec_parse_function(toks, p);
        (
            match r {
                Ok(f) => Ok(Some(f)),
                Err(e) => Err(e),
            },
            p1,
        )
    } else if (toks[p] matches TokenKindView::Keyword(k) && k == "return"@) {
        let (re, p1) = spec_parse_expression(toks, p + 1);
        match re {
            Err(e) => (Err(e), p1),
            Ok(expr) => {
                let (rs, p2) = spec_expect_semicolon(toks, p1);
                match rs {
                    Err(e) => (Err(e), p2),
                    Ok(u) => (Ok(Some(StatementView::Return(expr))), p2),
                }
            },
        }
    } else {
        (Ok(None), p)
    }
}

#[via_fn]
proof fn spec_parse_statement_dec(toks: Seq<TokenKindView>, p: int) {
}

/// Reads a function declaration at `p` (which holds the `fn` keyword):
/// name, parenthesised parameters, an optional arrow and return type, and
/// a brace-delimited body of statements.
pub open spec fn spec_parse_function(toks: Seq<TokenKindView>, p: int) -> (Result<
    StatementView,
    Seq<char>,
>, int)
    decreases toks.len() - p, 1int,
        when 0 <= p <= toks.len()
        via spec_parse_function_dec
{
    let (rn, p1) = spec_expect_ident(toks, p + 1, "function name"@);
    match rn {
        Err(e) => (Err(e), p1),
        Ok(name) => {
            let (ro, p2) = spec_expect_symbol(toks, p1, '(');
            match ro {
                Err(e) => (Err(e), p2),
                Ok(u0) => {
                    let (rp, p3) = spec_parse_params(toks, p2);
                    match rp {
                        Err(e) => (Err(e), p3),
                        Ok(params) => {
                            let (rc, p4) = spec_expect_symbol(toks, p3, ')');
                            match rc {
                                Err(e) => (Err(e), p4),
                                Ok(u1) => spec_parse_function_tail(toks, p, p4, name, params),
                            }
                        },
                    }
                },
            }
        },
    }
}

/// Reads the rest of a function declaration after the closing parenthesis
/// of its parameter list: the optional return type and the body.
pub open spec fn spec_parse_function_tail(
    toks: Seq<TokenKindView>,
    p: int,
    p4: int,
    name: Seq<char>,
    params: Seq<ParamView>,
) -> (Result<StatementView, Seq<char>>, int)
    decreases toks.len() - p, 0int,
        when 0 <= p < p4 <= toks.len()
        via spec_parse_function_tail_dec
{
    let arrow = p4 < toks.len() && toks[p4] is Arrow;
    let (rr, p5) = if arrow {
        let (rt, q) = spec_expect_ident(toks, p4 + 1, "return type"@);
        match rt {
            Ok(t) => (Ok(Some(t)), q),
            Err(e) => (Err(e), q),
        }
    } else {
        (Ok(None), p4)
    };
    match rr {
        Err(e) => (Err(e), p5),
        Ok(return_type) => {
            let (rb, p6) = spec_expect_symbol(toks, p5, '{');
            match rb {
                Err(e) => (Err(e), p6),
                Ok(u2) => {
                    let (rbody, p7) = spec_parse_body(toks, p6, Seq::empty());
                    match rbody {
                        Err(e) => (Err(e), p7),
                        Ok(body) => {
                            let (rc2, p8) = spec_expect_symbol(toks, p7, '}');
                            match rc2 {
                                Err(e) => (Err(e), p8),
                                Ok(u3) => (
                                    Ok(
                                        StatementView::Function {
                                            name: name,
                                            params: params,
                                            return_type: return_type,
                                            body: body,
                                        },
                                    ),
                                    p8,
                                ),
                            }
                        },
                    }
                },
            }
        },
    }
}

#[via_fn]
proof fn spec_parse_function_tail_dec(
    toks: Seq<TokenKindView>,
    p: int,
    p4: int,
    name: Seq<char>,
    params: Seq<ParamView>,
) {
    if 0 <= p < p4 <= toks.len() {
        let arrow = p4 < toks.len() && toks[p4] is Arrow;
        if arrow {
            let (rt, q) = spec_expect_ident(toks, p4 + 1, "return type"@);
            if rt is Ok {
                assert(p4 + 1 < toks.len() && q == p4 + 2);
            }
        }
    }
}

#[via_fn]
proof fn spec_parse_function_dec(toks: Seq<TokenKindView>, p: int) {
    if 0 <= p <= toks.len() {
        let (rn, p1) = spec_expect_ident(toks, p + 1, "function name"@);
        if rn is Ok {
            assert(p1 == p + 2 && p + 1 < toks.len());
            let (ro, p2) = spec_expect_symbol(toks, p1, '(');
            if ro is Ok {
                assert(p2 == p1 + 1);
                lemma_params_bounds(toks, p2);
            }
        }
    }
}

/// Reads the statements of a function body at `p`, having already read
/// those in `acc`, stopping before a closing brace or the end of input;
/// a token that begins no statement is a hard error here.
pub open spec fn spec_parse_body(toks: Seq<TokenKindView>, p: int, acc: Seq<StatementView>) -> (
    Result<Seq<StatementView>, Seq<char>>,
    int,
)
    decreases toks.len() - p, 3int,
        when 0 <= p <= toks.len()
        via spec_parse_body_dec
{
    if p >= toks.len() || toks[p] is CloseBrace {
        (Ok(acc), p)
    } else {
        let (r, p1) = spec_parse_statement(toks, p);
        match r {
            Err(e) => (Err(e), p1),
            Ok(None) => (Err(msg_body(toks[p])), p),
            Ok(Some(st)) => {
                if p < p1 <= toks.len() {
                    spec_parse_body(toks, p1, acc.push(st))
                } else {
                    (Ok(acc.push(st)), p1)
                }
            },
        }
    }
}

#[via_fn]
proof fn spec_parse_body_dec(toks: Seq<TokenKindView>, p: int, acc: Seq<StatementView>) {
}

/// Reads top-level statements at `p`, having already read those in
/// `acc`, stopping silently at the first token that begins no statement.
pub open spec fn spec_parse_stmts(toks: Seq<TokenKindView>, p: int, acc: Seq<StatementView>) -> (
    Result<Seq<StatementView>, Seq<char>>,
    int,
)
    decreases toks.len() - p, 3int,
        when 0 <= p <= toks.len()
        via spec_parse_stmts_dec
{
    if p >= toks.len() {
        (Ok(acc), p)
    } else {
        let (r, p1) = spec_parse_statement(toks, p);
        match r {
            Err(e) => (Err(e), p1),
            Ok(None) => (Ok(acc), p),
            Ok(Some(st)) => {
                if p < p1 <= toks.len() {
                    spec_parse_stmts(toks, p1, acc.push(st))
                } else {
                    (Ok(acc.push(st)), p1)
                }
            },
        }
    }
}

#[via_fn]
proof fn spec_parse_stmts_dec(toks: Seq<TokenKindView>, p: int, acc: Seq<StatementView>) {
}

/// Parses a whole token sequence into a program.
pub open spec fn spec_parse(toks: Seq<TokenKindView>) -> Result<ProgramView, Seq<char>> {
    match spec_parse_stmts(toks, 0, Seq::empty()).0 {
        Ok(ss) => Ok(ProgramView { statements: ss }),
        Err(e) => Err(e),
    }
}


/// The parser state: the token sequence, materialized once, and a cursor.
pub struct Parser {
    tokens: Vec<Token>,
    pos: usize,
}

impl Parser {
    /// The kinds of the tokens the parser was built over.
    pub closed spec fn toks(&self) -> Seq<TokenKindView> {
        kinds(self.tokens.deep_view())
    }

    /// The cursor position.
    pub closed spec fn spec_pos(&self) -> int {
        self.pos as int
    }

    /// The cursor is in bounds.
    pub closed spec fn wf(&self) -> bool {
        self.pos <= self.tokens@.len()
    }

    /// Builds a parser over all remaining tokens of the lexer.
    pub fn new(lexer: Lexer) -> (p: Parser)
        requires
            lexer.wf(),
        ensures
            p.wf(),
            p.spec_pos() == 0,
            p.toks() == kinds(spec_tokens_from(lexer@, lexer.spec_pos())),
    {
        let toks = lexer.tokens();
        Parser { tokens: toks, pos: 0 }
    }

    /// Whether the cursor has passed the last token.
    fn at_end(&self) -> (r: bool)
        ensures
            r == (self.spec_pos() >= self.toks().len()),
    {
        self.pos >= self.tokens.len()
    }

    /// The token under the cursor.
    fn peek(&self) -> (t: &Token)
        requires
            self.spec_pos() < self.toks().len(),
        ensures
            t.kind@ == self.toks()[self.spec_pos()],
    {
        &self.tokens[self.pos]
    }

    /// Advances the cursor past the token under it.
    fn bump(&mut self)
        requires
            old(self).wf(),
            old(self).spec_pos() < old(self).toks().len(),
        ensures
            final(self).wf(),
            final(self).toks() == old(self).toks(),
            final(self).spec_pos() == old(self).spec_pos() + 1,
    {
        let n = self.tokens.len();
        proof {
            assert(old(self).toks().len() == self.tokens@.len());
            assert(self.pos < n);
        }
        self.pos = self.pos + 1;
    }

    /// Whether the token under the cursor is a generic symbol carrying `c`.
    fn peek_symbol_is(&self, c: char) -> (r: bool)
        requires
            self.wf(),
        ensures
            r == (self.spec_pos() < self.toks().len() && (self.toks()[self.spec_pos()]
                matches TokenKindView::Symbol(cc) && cc == c)),
    {
        if self.pos < self.tokens.len() {
            match &self.tokens[self.pos].kind {
                TokenKind::Symbol(cc) => *cc == c,
                _ => false,
            }
        } else {
            false
        }
    }

    /// Whether the token under the cursor is a dedicated closing parenthesis.
    fn peek_close_paren(&self) -> (r: bool)
        requires
            self.wf(),
        ensures
            r == (self.spec_pos() < self.toks().len() && self.toks()[self.spec_pos()]
                is CloseParen),
    {
        self.pos < self.tokens.len() && matches!(&self.tokens[self.pos].kind,
        TokenKind::CloseParen)
    }

    /// Whether the token under the cursor is a dedicated closing brace.
    fn peek_close_brace(&self) -> (r: bool)
        requires
            self.wf(),
        ensures
            r == (self.spec_pos() < self.toks().len() && self.toks()[self.spec_pos()]
                is CloseBrace),
    {
        self.pos < self.tokens.len() && matches!(&self.tokens[self.pos].kind,
        TokenKind::CloseBrace)
    }

    /// Whether the token under the cursor is the arrow.
    fn peek_arrow(&self) -> (r: bool)
        requires
            self.wf(),
        ensures
            r == (self.spec_pos() < self.toks().len() && self.toks()[self.spec_pos()] is Arrow),
    {
        self.pos < self.tokens.len() && matches!(&self.tokens[self.pos].kind, TokenKind::Arrow)
    }
}

/// The short description of a token kind used in error messages.
fn kind_label(k: &TokenKind) -> (r: &'static str)
    ensures
        r@ == kind_name(k@),
{
    match k {
        TokenKind::Keyword(_) => "keyword",
        TokenKind::Ident(_) => "identifier",
        TokenKind::Number(_) => "number",
        TokenKind::StringLiteral(_) => "string",
        TokenKind::Symbol(_) => "symbol",
        TokenKind::Arrow => "->",
        TokenKind::OpenBrace => "{",
        TokenKind::CloseBrace => "}",
        TokenKind::OpenParen => "(",
        TokenKind::CloseParen => ")",
        TokenKind::Semicolon => ";",
        TokenKind::Eof => "<eof>",
    }
}

/// Concatenates two text pieces into an error message.
fn msg_cat2(a: &str, b: &str) -> (r: String)
    ensures
        r@ == a@ + b@,
{
    let mut m = String::from_str(a);
    m.append(b);
    m
}

/// Concatenates four text pieces into an error message.
fn msg_cat4(a: &str, b: &str, c: &str, d: &str) -> (r: String)
    ensures
        r@ == a@ + b@ + c@ + d@,
{
    let mut m = String::from_str(a);
    m.append(b);
    m.append(c);
    m.append(d);
    m
}

/// Builds the message for a missing punctuation mark.
fn msg_symbol(sym: char, label: &str) -> (r: String)
    ensures
        r@ == "Expected symbol `"@ + seq![sym] + "` but found "@ + label@,
{
    let mut m = String::from_str("Expected symbol `");
    m.push(sym);
    proof {
        assert(m@ =~= "Expected symbol `"@ + seq![sym]);
    }
    m.append("` but found ");
    m.append(label);
    m
}

impl Parser {
    /// Consumes the token under the cursor, yielding its identifier text,
    /// or an error naming the expected role.
    fn expect_ident(&mut self, ctx: &str) -> (r: Result<String, String>)
        requires
            old(self).wf(),
        ensures
            final(self).wf(),
            final(self).toks() == old(self).toks(),
            final(self).spec_pos() >= old(self).spec_pos(),
            final(self).spec_pos() == spec_expect_ident(
                old(self).toks(),
                old(self).spec_pos(),
                ctx@,
            ).1,
            match r {
                Ok(name) => spec_expect_ident(old(self).toks(), old(self).spec_pos(), ctx@).0
                    == Ok::<Seq<char>, Seq<char>>(name@),
                Err(e) => spec_expect_ident(old(self).toks(), old(self).spec_pos(), ctx@).0
                    == Err::<Seq<char>, Seq<char>>(e@),
            },
    {
        if self.at_end() {
            return Err(msg_cat4("Expected ", ctx, " but found ", "<eof>"));
        }
        let label = kind_label(&self.tokens[self.pos].kind);
        match &self.tokens[self.pos].kind {
            TokenKind::Ident(id) => {
                let name = id.clone();
                self.bump();
                Ok(name)
            },
            _ => {
                self.bump();
                Err(msg_cat4("Expected ", ctx, " but found ", label))
            },
        }
    }

    /// Consumes the punctuation mark `sym` under the cursor, accepting
    /// either a generic symbol or the dedicated bracket kind.
    fn expect_symbol(&mut self, sym: char) -> (r: Result<(), String>)
        requires
            old(self).wf(),
        ensures
            final(self).wf(),
            final(self).toks() == old(self).toks(),
            final(self).spec_pos() >= old(self).spec_pos(),
            final(self).spec_pos() == spec_expect_symbol(
                old(self).toks(),
                old(self).spec_pos(),
                sym,
            ).1,
            match r {
                Ok(u) => spec_expect_symbol(old(self).toks(), old(self).spec_pos(), sym).0
                    == Ok::<(), Seq<char>>(()),
                Err(e) => spec_expect_symbol(old(self).toks(), old(self).spec_pos(), sym).0
                    == Err::<(), Seq<char>>(e@),
            },
    {
        if self.at_end() {
            return Err(msg_symbol(sym, "<eof>"));
        }
        let label = kind_label(&self.tokens[self.pos].kind);
        let matched: bool = match &self.tokens[self.pos].kind {
            TokenKind::Symbol(c) => *c == sym,
            TokenKind::OpenBrace => sym == '{',
            TokenKind::CloseBrace => sym == '}',
            TokenKind::OpenParen => sym == '(',
            TokenKind::CloseParen => sym == ')',
            _ => false,
        };
        if matched {
            self.bump();
            Ok(())
        } else {
            Err(msg_symbol(sym, label))
        }
    }

    /// Consumes the semicolon under the cursor; only the dedicated kind
    /// is accepted.
    fn expect_semicolon(&mut self) -> (r: Result<(), String>)
        requires
            old(self).wf(),
        ensures
            final(self).wf(),
            final(self).toks() == old(self).toks(),
            final(self).spec_pos() >= old(self).spec_pos(),
            final(self).spec_pos() == spec_expect_semicolon(
                old(self).toks(),
                old(self).spec_pos(),
            ).1,
            match r {
                Ok(u) => spec_expect_semicolon(old(self).toks(), old(self).spec_pos()).0 == Ok::<
                    (),
                    Seq<char>,
                >(()),
                Err(e) => spec_expect_semicolon(old(self).toks(), old(self).spec_pos()).0 == Err::<
                    (),
                    Seq<char>,
                >(e@),
            },
    {
        if self.at_end() {
            return Err(msg_cat2("Expected `;` but found ", "<eof>"));
        }
        let label = kind_label(&self.tokens[self.pos].kind);
        if matches!(&self.tokens[self.pos].kind, TokenKind::Semicolon) {
            self.bump();
            Ok(())
        } else {
            Err(msg_cat2("Expected `;` but found ", label))
        }
    }

    /// Reads an expression primary: a number literal, a string literal,
    /// or an identifier.
    fn parse_primary(&mut self) -> (r: Result<Expr, String>)
        requires
            old(self).wf(),
        ensures
            final(self).wf(),
            final(self).toks() == old(self).toks(),
            final(self).spec_pos() >= old(self).spec_pos(),
            final(self).spec_pos() == spec_parse_primary(old(self).toks(), old(self).spec_pos()).1,
            match r {
                Ok(e) => spec_parse_primary(old(self).toks(), old(self).spec_pos()).0 == Ok::<
                    ExprView,
                    Seq<char>,
                >(e@),
                Err(e) => spec_parse_primary(old(self).toks(), old(self).spec_pos()).0 == Err::<
                    ExprView,
                    Seq<char>,
                >(e@),
            },
    {
        if self.at_end() {
            return Err(String::from_str("Unexpected end of input in expression"));
        }
        let label = kind_label(&self.tokens[self.pos].kind);
        match &self.tokens[self.pos].kind {
            TokenKind::Number(n) => {
                let text = n.clone();
                if check_number_text(text.as_str()) {
                    self.bump();
                    Ok(Expr::Number(text))
                } else {
                    Err(String::from_str("Invalid number"))
                }
            },
            TokenKind::StringLiteral(t) => {
                let lit = t.clone();
                self.bump();
                Ok(Expr::StringLiteral(lit))
            },
            TokenKind::Ident(id) => {
                let name = id.clone();
                self.bump();
                Ok(Expr::Ident(name))
            },
            _ => Err(msg_cat2("Unexpected token in expression: ", label)),
        }
    }

    /// Folds `+ primary` pairs onto `left`, left-to-right.
    #[verifier::loop_isolation(false)]
    fn parse_binop_rhs(&mut self, left: Expr) -> (r: Result<Expr, String>)
        requires
            old(self).wf(),
        ensures
            final(self).wf(),
            final(self).toks() == old(self).toks(),
            final(self).spec_pos() >= old(self).spec_pos(),
            final(self).spec_pos() == spec_parse_binop_rhs(
                old(self).toks(),
                old(self).spec_pos(),
                left@,
            ).1,
            match r {
                Ok(e) => spec_parse_binop_rhs(old(self).toks(), old(self).spec_pos(), left@).0
                    == Ok::<ExprView, Seq<char>>(e@),
                Err(e) => spec_parse_binop_rhs(old(self).toks(), old(self).spec_pos(), left@).0
                    == Err::<ExprView, Seq<char>>(e@),
            },
    {
        let ghost toks = self.toks();
        let ghost p0 = self.spec_pos();
        let ghost l0 = left@;
        let mut acc = left;
        while self.peek_symbol_is('+')
            invariant
                self.wf(),
                self.toks() == toks,
                0 <= p0 <= self.spec_pos() <= toks.len(),
                spec_parse_binop_rhs(toks, p0, l0) == spec_parse_binop_rhs(
                    toks,
                    self.spec_pos(),
                    acc@,
                ),
            decreases toks.len() - self.spec_pos(),
        {
            self.bump();
            let right = match self.parse_primary() {
                Ok(e) => e,
                Err(e) => {
                    return Err(e);
                },
            };
            acc = Expr::Binary { op: BinOp::Add, left: Box::new(acc), right: Box::new(right) };
        }
        Ok(acc)
    }

    /// Reads an expression: a primary, then zero or more `+ primary`
    /// pairs folded strictly left-associatively.
    fn parse_expression(&mut self) -> (r: Result<Expr, String>)
        requires
            old(self).wf(),
        ensures
            final(self).wf(),
            final(self).toks() == old(self).toks(),
            final(self).spec_pos() >= old(self).spec_pos(),
            final(self).spec_pos() == spec_parse_expression(
                old(self).toks(),
                old(self).spec_pos(),
            ).1,
            match r {
                Ok(e) => spec_parse_expression(old(self).toks(), old(self).spec_pos()).0 == Ok::<
                    ExprView,
                    Seq<char>,
                >(e@),
                Err(e) => spec_parse_expression(old(self).toks(), old(self).spec_pos()).0 == Err::<
                    ExprView,
                    Seq<char>,
                >(e@),
            },
    {
        let left = match self.parse_primary() {
            Ok(e) => e,
            Err(e) => {
                return Err(e);
            },
        };
        self.parse_binop_rhs(left)
    }

    /// Reads the non-empty comma-separated parameter list, appending the
    /// parameters to `params`.
    fn parse_params_loop(&mut self, params: &mut Vec<Param>) -> (r: Result<(), String>)
        requires
            old(self).wf(),
        ensures
            final(self).wf(),
            final(self).toks() == old(self).toks(),
            final(self).spec_pos() >= old(self).spec_pos(),
            final(self).spec_pos() == spec_parse_params_loop(
                old(self).toks(),
                old(self).spec_pos(),
                old(params).deep_view(),
            ).1,
            match r {
                Ok(u) => spec_parse_params_loop(
                    old(self).toks(),
                    old(self).spec_pos(),
                    old(params).deep_view(),
                ).0 == Ok::<Seq<ParamView>, Seq<char>>(final(params).deep_view()),
                Err(e) => spec_parse_params_loop(
                    old(self).toks(),
                    old(self).spec_pos(),
                    old(params).deep_view(),
                ).0 == Err::<Seq<ParamView>, Seq<char>>(e@),
            },
        decreases old(self).toks().len() - old(self).spec_pos(),
    {
        let name = match self.expect_ident("parameter name") {
            Ok(n) => n,
            Err(e) => {
                return Err(e);
            },
        };
        let mut ty: Option<String> = None;
        if self.peek_symbol_is(':') {
            self.bump();
            ty = Some(
                match self.expect_ident("parameter type") {
                    Ok(t) => t,
                    Err(e) => {
                        return Err(e);
                    },
                },
            );
        }
        params.push(Param { name, ty });
        proof {
            assert(params.deep_view() =~= old(params).deep_view().push(
                params.deep_view().last(),
            ));
        }
        if self.peek_symbol_is(',') {
            self.bump();
            return self.parse_params_loop(params);
        }
        Ok(())
    }

    /// Reads the parameter list: empty when a closing parenthesis follows
    /// at once.
    fn parse_params(&mut self) -> (r: Result<Vec<Param>, String>)
        requires
            old(self).wf(),
        ensures
            final(self).wf(),
            final(self).toks() == old(self).toks(),
            final(self).spec_pos() >= old(self).spec_pos(),
            final(self).spec_pos() == spec_parse_params(old(self).toks(), old(self).spec_pos()).1,
            match r {
                Ok(ps) => spec_parse_params(old(self).toks(), old(self).spec_pos()).0 == Ok::<
                    Seq<ParamView>,
                    Seq<char>,
                >(ps.deep_view()),
                Err(e) => spec_parse_params(old(self).toks(), old(self).spec_pos()).0 == Err::<
                    Seq<ParamView>,
                    Seq<char>,
                >(e@),
            },
    {
        let mut params: Vec<Param> = Vec::new();
        if self.peek_close_paren() {
            proof {
                assert(params.deep_view() =~= Seq::<ParamView>::empty());
            }
            return Ok(params);
        }
        proof {
            assert(params.deep_view() =~= Seq::<ParamView>::empty());
        }
        match self.parse_params_loop(&mut params) {
            Ok(u) => Ok(params),
            Err(e) => Err(e),
        }
    }
}


impl Parser {
    /// Reads the statement beginning under the cursor, if one does: a
    /// function for the `fn` keyword, a return statement for the `return`
    /// keyword, and nothing (without consuming) for anything else.
    fn parse_statement(&mut self) -> (r: Result<Option<Statement>, String>)
        requires
            old(self).wf(),
        ensures
            final(self).wf(),
            final(self).toks() == old(self).toks(),
            final(self).spec_pos() >= old(self).spec_pos(),
            final(self).spec_pos() == spec_parse_statement(
                old(self).toks(),
                old(self).spec_pos(),
            ).1,
            match r {
                Ok(ost) => spec_parse_statement(old(self).toks(), old(self).spec_pos()).0
                    == Ok::<Option<StatementView>, Seq<char>>(
                    match ost {
                        Some(st) => Some(st@),
                        None => None,
                    },
                ) && (ost is Some ==> final(self).spec_pos() > old(self).spec_pos()),
                Err(e) => spec_parse_statement(old(self).toks(), old(self).spec_pos()).0 == Err::<
                    Option<StatementView>,
                    Seq<char>,
                >(e@),
            },
        decreases old(self).toks().len() - old(self).spec_pos(), 2int,
    {
        if self.at_end() {
            return Ok(None);
        }
        proof {
            assert(old(self).toks()[old(self).spec_pos()] == self.tokens@[self.pos as int].kind@);
        }
        let (is_fn, is_ret) = match &self.tokens[self.pos].kind {
            TokenKind::Keyword(k) => (
                *k == String::from_str("fn"),
                *k == String::from_str("return"),
            ),
            _ => (false, false),
        };
        if is_fn {
            match self.parse_function() {
                Ok(f) => Ok(Some(f)),
                Err(e) => Err(e),
            }
        } else if is_ret {
            self.bump();
            let expr = match self.parse_expression() {
                Ok(e) => e,
                Err(e) => {
                    return Err(e);
                },
            };
            match self.expect_semicolon() {
                Ok(u) => Ok(Some(Statement::Return(expr))),
                Err(e) => Err(e),
            }
        } else {
            Ok(None)
        }
    }

    /// Reads a function declaration, whose `fn` keyword stands under the
    /// cursor: name, parenthesised parameters, an optional arrow and
    /// return type, and a brace-delimited body.
    fn parse_function(&mut self) -> (r: Result<Statement, String>)
        requires
            old(self).wf(),
            old(self).spec_pos() < old(self).toks().len(),
        ensures
            final(self).wf(),
            final(self).toks() == old(self).toks(),
            final(self).spec_pos() >= old(self).spec_pos(),
            final(self).spec_pos() == spec_parse_function(
                old(self).toks(),
                old(self).spec_pos(),
            ).1,
            match r {
                Ok(f) => spec_parse_function(old(self).toks(), old(self).spec_pos()).0 == Ok::<
                    StatementView,
                    Seq<char>,
                >(f@) && final(self).spec_pos() > old(self).spec_pos(),
                Err(e) => spec_parse_function(old(self).toks(), old(self).spec_pos()).0 == Err::<
                    StatementView,
                    Seq<char>,
                >(e@),
            },
        decreases old(self).toks().len() - old(self).spec_pos(), 1int,
    {
        let ghost toks = self.toks();
        let ghost p = self.spec_pos();
        self.bump();  // the `fn` keyword
        let name = match self.expect_ident("function name") {
            Ok(n) => n,
            Err(e) => {
                return Err(e);
            },
        };
        let ghost p1 = self.spec_pos();
        match self.expect_symbol('(') {
            Ok(u) => {},
            Err(e) => {
                return Err(e);
            },
        }
        let ghost p2 = self.spec_pos();
        proof {
            assert(p1 == p + 2 && p2 == p1 + 1);
            lemma_params_bounds(toks, p2);
        }
        let params = match self.parse_params() {
            Ok(ps) => ps,
            Err(e) => {
                return Err(e);
            },
        };
        let ghost p3 = self.spec_pos();
        match self.expect_symbol(')') {
            Ok(u) => {},
            Err(e) => {
                return Err(e);
            },
        }
        let ghost p4 = self.spec_pos();
        proof {
            assert(p2 <= p3 <= toks.len());
            assert(p4 == p3 + 1);
            assert(0 <= p && p < p4 <= toks.len());
        }
        let return_type: Option<String> = if self.peek_arrow() {
            self.bump();
            Some(
                match self.expect_ident("return type") {
                    Ok(t) => t,
                    Err(e) => {
                        return Err(e);
                    },
                },
            )
        } else {
            None
        };
        match self.expect_symbol('{') {
            Ok(u) => {},
            Err(e) => {
                return Err(e);
            },
        }
        let mut body: Vec<Statement> = Vec::new();
        proof {
            assert(body.deep_view() =~= Seq::<StatementView>::empty());
        }
        match self.parse_body_into(&mut body) {
            Ok(u) => {},
            Err(e) => {
                return Err(e);
            },
        }
        match self.expect_symbol('}') {
            Ok(u) => {},
            Err(e) => {
                return Err(e);
            },
        }
        let st = Statement::Function { name, params, return_type, body };
        proof {
            match &st {
                Statement::Function { name: n2, params: ps2, return_type: rt2, body: b2 } => {
                    assert(Seq::new(ps2@.len(), |i: int| ps2@[i]@) =~= ps2.deep_view());
                    assert(crate::ast::stmts_view(b2@) =~= b2.deep_view());
                },
                _ => {},
            }
        }
        Ok(st)
    }

    /// Reads the statements of a function body, appending them to
    /// `body`, stopping before a closing brace or the end of input; a
    /// token that begins no statement is a hard error here.
    fn parse_body_into(&mut self, body: &mut Vec<Statement>) -> (r: Result<(), String>)
        requires
            old(self).wf(),
        ensures
            final(self).wf(),
            final(self).toks() == old(self).toks(),
            final(self).spec_pos() >= old(self).spec_pos(),
            final(self).spec_pos() == spec_parse_body(
                old(self).toks(),
                old(self).spec_pos(),
                old(body).deep_view(),
            ).1,
            match r {
                Ok(u) => spec_parse_body(
                    old(self).toks(),
                    old(self).spec_pos(),
                    old(body).deep_view(),
                ).0 == Ok::<Seq<StatementView>, Seq<char>>(final(body).deep_view()),
                Err(e) => spec_parse_body(
                    old(self).toks(),
                    old(self).spec_pos(),
                    old(body).deep_view(),
                ).0 == Err::<Seq<StatementView>, Seq<char>>(e@),
            },
        decreases old(self).toks().len() - old(self).spec_pos(), 3int,
    {
        if self.at_end() {
            return Ok(());
        }
        if self.peek_close_brace() {
            return Ok(());
        }
        let label = kind_label(&self.tokens[self.pos].kind);
        match self.parse_statement() {
            Err(e) => Err(e),
            Ok(None) => Err(msg_cat2("Unexpected token in function body: ", label)),
            Ok(Some(st)) => {
                let ghost stv = st@;
                body.push(st);
                proof {
                    assert(body.deep_view() =~= old(body).deep_view().push(stv));
                }
                self.parse_body_into(body)
            },
        }
    }

    /// Reads top-level statements, appending them to `statements`,
    /// stopping silently at the first token that begins no statement.
    fn parse_stmts_into(&mut self, statements: &mut Vec<Statement>) -> (r: Result<(), String>)
        requires
            old(self).wf(),
        ensures
            final(self).wf(),
            final(self).toks() == old(self).toks(),
            final(self).spec_pos() >= old(self).spec_pos(),
            final(self).spec_pos() == spec_parse_stmts(
                old(self).toks(),
                old(self).spec_pos(),
                old(statements).deep_view(),
            ).1,
            match r {
                Ok(u) => spec_parse_stmts(
                    old(self).toks(),
                    old(self).spec_pos(),
                    old(statements).deep_view(),
                ).0 == Ok::<Seq<StatementView>, Seq<char>>(final(statements).deep_view()),
                Err(e) => spec_parse_stmts(
                    old(self).toks(),
                    old(self).spec_pos(),
                    old(statements).deep_view(),
                ).0 == Err::<Seq<StatementView>, Seq<char>>(e@),
            },
        decreases old(self).toks().len() - old(self).spec_pos(), 3int,
    {
        if self.at_end() {
            return Ok(());
        }
        match self.parse_statement() {
            Err(e) => Err(e),
            Ok(None) => Ok(()),
            Ok(Some(st)) => {
                let ghost stv = st@;
                statements.push(st);
                proof {
                    assert(statements.deep_view() =~= old(statements).deep_view().push(stv));
                }
                self.parse_stmts_into(statements)
            },
        }
    }

    /// Parses the token sequence into a program: top-level statements
    /// until the end of input or the first token that begins none.
    pub fn parse(&mut self) -> (r: Result<Program, String>)
        requires
            old(self).wf(),
        ensures
            final(self).wf(),
            final(self).spec_pos() == spec_parse_stmts(
                old(self).toks(),
                old(self).spec_pos(),
                Seq::empty(),
            ).1,
            match r {
                Ok(prog) => spec_parse_stmts(old(self).toks(), old(self).spec_pos(), Seq::empty()).0
                    == Ok::<Seq<StatementView>, Seq<char>>(prog@.statements),
                Err(e) => spec_parse_stmts(old(self).toks(), old(self).spec_pos(), Seq::empty()).0
                    == Err::<Seq<StatementView>, Seq<char>>(e@),
            },
    {
        let mut statements: Vec<Statement> = Vec::new();
        proof {
            assert(statements.deep_view() =~= Seq::<StatementView>::empty());
        }
        match self.parse_stmts_into(&mut statements) {
            Ok(u) => {
                let ghost dv = statements.deep_view();
                let prog = Program { statements };
                proof {
                    assert(prog@.statements =~= dv);
                }
                Ok(prog)
            },
            Err(e) => Err(e),
        }
    }
}

} // verus!
