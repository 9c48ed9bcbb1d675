//! The abstract syntax tree the parser builds and later passes traverse.
//!
//! A number literal keeps its source text: the lexer captures the run of
//! digits and dots verbatim, and each later pass reads from that text what
//! it needs (integrality, the non-negative integer value).  Every node is
//! immutable once built; later passes produce fresh outputs.

use vstd::prelude::*;
use crate::text::{is_digit, digit_char};

verus! {

/// A function parameter: a name and an optional declared type name.
/// An absent type means the parameter's type is unresolved.
#[derive(Debug, Clone)]
pub struct Param {
    pub name: String,
    pub ty: Option<String>,
}

/// The binary operators; addition is the only one.
#[derive(Debug, Clone, Copy)]
pub enum BinOp {
    Add,
}

/// An expression: a number literal (kept as text), a string literal, an
/// identifier, or a left-associated binary operation.
#[derive(Debug)]
pub enum Expr {
    Number(String),
    StringLiteral(String),
    Ident(String),
    Binary { op: BinOp, left: Box<Expr>, right: Box<Expr> },
}

/// A statement: a function declaration, a `return`, or an expression
/// evaluated for effect.
#[derive(Debug)]
pub enum Statement {
    Function { name: String, params: Vec<Param>, return_type: Option<String>, body: Vec<Statement> },
    Return(Expr),
    Expr(Expr),
}

/// An ordered sequence of top-level statements: the sole artifact handed
/// between the stages of the pipeline.
#[derive(Debug)]
pub struct Program {
    pub statements: Vec<Statement>,
}

/// The number of dots in a number literal's text.
pub open spec fn dot_count(t: Seq<char>) -> int
    decreases t.len(),
{
    if t.len() == 0 {
        0
    } else {
        dot_count(t.drop_last()) + if t.last() == '.' {
            1int
        } else {
            0int
        }
    }
}

/// A number literal text that reads as a number: non-empty, beginning
/// with a digit, made of digits and dots, with at most one dot.
pub open spec fn valid_number_text(t: Seq<char>) -> bool {
    &&& t.len() > 0
    &&& is_digit(t[0])
    &&& forall|i: int| 0 <= i < t.len() ==> is_digit(#[trigger] t[i]) || t[i] == '.'
    &&& dot_count(t) <= 1
}

/// Decides whether a literal text reads as a number.
#[verifier::loop_isolation(false)]
pub fn check_number_text(t: &str) -> (r: bool)
    ensures
        r == valid_number_text(t@),
{
    let n = t.unicode_len();
    if n == 0 {
        return false;
    }
    if !digit_char(t.get_char(0)) {
        return false;
    }
    let mut dots: usize = 0;
    let mut shape_ok = true;
    let mut i: usize = 0;
    while i < n
        invariant
            n == t@.len(),
            0 <= i <= n,
            dots <= i,
            dots == dot_count(t@.take(i as int)),
            shape_ok == (forall|j: int|
                0 <= j < i ==> is_digit(#[trigger] t@[j]) || t@[j] == '.'),
        decreases n - i,
    {
        let c = t.get_char(i);
        if c == '.' {
            dots = dots + 1;
        } else if !digit_char(c) {
            shape_ok = false;
        }
        proof {
            assert(t@.take(i + 1).drop_last() =~= t@.take(i as int));
            assert(t@.take(i + 1).last() == t@[i as int]);
        }
        i = i + 1;
    }
    proof {
        assert(t@.take(n as int) =~= t@);
    }
    shape_ok && dots <= 1
}

/// The mathematical value of a [`Param`].
pub ghost struct ParamView {
    pub name: Seq<char>,
    pub ty: Option<Seq<char>>,
}

/// The mathematical value of an [`Expr`].
pub ghost enum ExprView {
    Number(Seq<char>),
    StringLiteral(Seq<char>),
    Ident(Seq<char>),
    Binary { op: BinOp, left: Box<ExprView>, right: Box<ExprView> },
}

/// The mathematical value of a [`Statement`].
pub ghost enum StatementView {
    Function {
        name: Seq<char>,
        params: Seq<ParamView>,
        return_type: Option<Seq<char>>,
        body: Seq<StatementView>,
    },
    Return(ExprView),
    Expr(ExprView),
}

/// The mathematical value of a [`Program`].
pub ghost struct ProgramView {
    pub statements: Seq<StatementView>,
}

impl View for Param {
    type V = ParamView;

    open spec fn view(&self) -> ParamView {
        ParamView {
            name: self.name@,
            ty: match &self.ty {
                Some(t) => Some(t@),
                None => None,
            },
        }
    }
}

impl DeepView for Param {
    type V = ParamView;

    open spec fn deep_view(&self) -> ParamView {
        self.view()
    }
}

impl View for Expr {
    type V = ExprView;

    open spec fn view(&self) -> ExprView
        decreases self,
    {
        match self {
            Expr::Number(t) => ExprView::Number(t@),
            Expr::StringLiteral(t) => ExprView::StringLiteral(t@),
            Expr::Ident(t) => ExprView::Ident(t@),
            Expr::Binary { op, left, right } => ExprView::Binary {
                op: *op,
                left: Box::new((**left).view()),
                right: Box::new((**right).view()),
            },
        }
    }
}

/// The views of a sequence of statements, elementwise.
pub open spec fn stmts_view(ss: Seq<Statement>) -> Seq<StatementView>
    decreases ss,
{
    Seq::new(
        ss.len(),
        |i: int|
            if 0 <= i < ss.len() {
                ss[i].view()
            } else {
                arbitrary()
            },
    )
}

impl View for Statement {
    type V = StatementView;

    open spec fn view(&self) -> StatementView
        decreases self,
    {
        match self {
            Statement::Function { name, params, return_type, body } => StatementView::Function {
                name: name@,
                params: Seq::new(params@.len(), |i: int| params@[i]@),
                return_type: match return_type {
                    Some(t) => Some(t@),
                    None => None,
                },
                body: stmts_view(body@),
            },
            Statement::Return(e) => StatementView::Return(e@),
            Statement::Expr(e) => StatementView::Expr(e@),
        }
    }
}

impl DeepView for Statement {
    type V = StatementView;

    open spec fn deep_view(&self) -> StatementView {
        self.view()
    }
}

impl View for Program {
    type V = ProgramView;

    open spec fn view(&self) -> ProgramView {
        ProgramView { statements: stmts_view(self.statements@) }
    }
}

} // verus!
