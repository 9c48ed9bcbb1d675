//! The token model and the lexer.
//!
//! The lexer turns source text into a sequence of tokens.  Its behaviour is
//! specified by [`next_tok`], a mathematical scanner over the source viewed
//! as a `Seq<char>`: every call of [`Lexer::next_token`] returns exactly the
//! token that `next_tok` yields at the current position.  Spans are byte
//! offsets into the UTF-8 text; the lexer has no error state — every input
//! character is classified into some token.

use vstd::prelude::*;
use crate::text::{
    is_ws, is_digit, is_alpha, is_alnum, utf8_len, byte_len, byte_index, ws_char, digit_char,
    alpha_char, alnum_char, utf8_len_char, lemma_byte_index_step, lemma_byte_index_mono,
    lemma_byte_len_is_encode_len,
};

verus! {

/// The kind of a token, carrying the captured text where there is any.
#[derive(Debug, PartialEq, Clone)]
pub enum TokenKind {
    Keyword(String),
    Ident(String),
    Number(String),
    StringLiteral(String),
    Symbol(char),
    Arrow,
    OpenBrace,
    CloseBrace,
    OpenParen,
    CloseParen,
    Semicolon,
    Eof,
}

/// A token together with its half-open byte-offset span `[start, end)`.
#[derive(Debug, PartialEq)]
pub struct Token {
    pub kind: TokenKind,
    pub span: (usize, usize),
}

/// The mathematical value of a [`TokenKind`]: texts become `Seq<char>`.
pub ghost enum TokenKindView {
    Keyword(Seq<char>),
    Ident(Seq<char>),
    Number(Seq<char>),
    StringLiteral(Seq<char>),
    Symbol(char),
    Arrow,
    OpenBrace,
    CloseBrace,
    OpenParen,
    CloseParen,
    Semicolon,
    Eof,
}

/// The mathematical value of a [`Token`].
pub ghost struct TokenView {
    pub kind: TokenKindView,
    pub start: int,
    pub end: int,
}

impl View for TokenKind {
    type V = TokenKindView;

    open spec fn view(&self) -> TokenKindView {
        match self {
            TokenKind::Keyword(t) => TokenKindView::Keyword(t@),
            TokenKind::Ident(t) => TokenKindView::Ident(t@),
            TokenKind::Number(t) => TokenKindView::Number(t@),
            TokenKind::StringLiteral(t) => TokenKindView::StringLiteral(t@),
            TokenKind::Symbol(c) => TokenKindView::Symbol(*c),
            TokenKind::Arrow => TokenKindView::Arrow,
            TokenKind::OpenBrace => TokenKindView::OpenBrace,
            TokenKind::CloseBrace => TokenKindView::CloseBrace,
            TokenKind::OpenParen => TokenKindView::OpenParen,
            TokenKind::CloseParen => TokenKindView::CloseParen,
            TokenKind::Semicolon => TokenKindView::Semicolon,
            TokenKind::Eof => TokenKindView::Eof,
        }
    }
}

impl View for Token {
    type V = TokenView;

    open spec fn view(&self) -> TokenView {
        TokenView { kind: self.kind@, start: self.span.0 as int, end: self.span.1 as int }
    }
}

impl DeepView for Token {
    type V = TokenView;

    open spec fn deep_view(&self) -> TokenView {
        self.view()
    }
}

/// The reserved words of the language.
pub open spec fn is_keyword(t: Seq<char>) -> bool {
    t == "contract"@ || t == "fn"@ || t == "return"@ || t == "if"@ || t == "else"@
}

/// The first position at or after `i` holding a newline, or the end.
pub open spec fn line_end(s: Seq<char>, i: int) -> int
    decreases s.len() - i,
{
    if i < s.len() && s[i] != '\n' {
        line_end(s, i + 1)
    } else {
        i
    }
}

/// The first position at or after `i` holding a double quote, or the end.
pub open spec fn quote_end(s: Seq<char>, i: int) -> int
    decreases s.len() - i,
{
    if i < s.len() && s[i] != '"' {
        quote_end(s, i + 1)
    } else {
        i
    }
}

/// The end of a run of digits and dots starting at `i`.
pub open spec fn number_end(s: Seq<char>, i: int) -> int
    decreases s.len() - i,
{
    if i < s.len() && (is_digit(s[i]) || s[i] == '.') {
        number_end(s, i + 1)
    } else {
        i
    }
}

/// The end of a run of identifier characters starting at `i`.
pub open spec fn ident_end(s: Seq<char>, i: int) -> int
    decreases s.len() - i,
{
    if i < s.len() && (is_alnum(s[i]) || s[i] == '_') {
        ident_end(s, i + 1)
    } else {
        i
    }
}

pub proof fn lemma_line_end_bounds(s: Seq<char>, i: int)
    requires
        0 <= i <= s.len(),
    ensures
        i <= line_end(s, i) <= s.len(),
    decreases s.len() - i,
{
    if i < s.len() && s[i] != '\n' {
        lemma_line_end_bounds(s, i + 1);
    }
}

pub proof fn lemma_quote_end_bounds(s: Seq<char>, i: int)
    requires
        0 <= i <= s.len(),
    ensures
        i <= quote_end(s, i) <= s.len(),
    decreases s.len() - i,
{
    if i < s.len() && s[i] != '"' {
        lemma_quote_end_bounds(s, i + 1);
    }
}

pub proof fn lemma_number_end_bounds(s: Seq<char>, i: int)
    requires
        0 <= i <= s.len(),
    ensures
        i <= number_end(s, i) <= s.len(),
    decreases s.len() - i,
{
    if i < s.len() && (is_digit(s[i]) || s[i] == '.') {
        lemma_number_end_bounds(s, i + 1);
    }
}

pub proof fn lemma_ident_end_bounds(s: Seq<char>, i: int)
    requires
        0 <= i <= s.len(),
    ensures
        i <= ident_end(s, i) <= s.len(),
    decreases s.len() - i,
{
    if i < s.len() && (is_alnum(s[i]) || s[i] == '_') {
        lemma_ident_end_bounds(s, i + 1);
    }
}

/// The first position at or after `i` that holds neither whitespace nor a
/// line comment: the position where the next token begins.
pub open spec fn trivia_end(s: Seq<char>, i: int) -> int
    decreases s.len() - i,
        when 0 <= i <= s.len()
        via trivia_end_dec
{
    if i < s.len() && is_ws(s[i]) {
        trivia_end(s, i + 1)
    } else if i + 1 < s.len() && s[i] == '/' && s[i + 1] == '/' {
        trivia_end(s, line_end(s, i + 2))
    } else {
        i
    }
}

#[via_fn]
proof fn trivia_end_dec(s: Seq<char>, i: int) {
    if !(i < s.len() && is_ws(s[i])) && i + 1 < s.len() && s[i] == '/' && s[i + 1] == '/' {
        lemma_line_end_bounds(s, i + 2);
    }
}

pub proof fn lemma_trivia_end_bounds(s: Seq<char>, i: int)
    requires
        0 <= i <= s.len(),
    ensures
        i <= trivia_end(s, i) <= s.len(),
    decreases s.len() - i,
{
    if i < s.len() && is_ws(s[i]) {
        lemma_trivia_end_bounds(s, i + 1);
    } else if i + 1 < s.len() && s[i] == '/' && s[i + 1] == '/' {
        lemma_line_end_bounds(s, i + 2);
        lemma_trivia_end_bounds(s, line_end(s, i + 2));
    }
}

/// The token beginning at scan position `i` of `s`, and the position just
/// after it.  This is the lexer: rule order is whitespace and comments,
/// string literals, numbers, identifiers and keywords, the arrow, the
/// dedicated single-character kinds, and finally the generic symbol.
pub open spec fn next_tok(s: Seq<char>, i: int) -> (TokenView, int) {
    let j = trivia_end(s, i);
    let start = byte_index(s, j);
    if j >= s.len() {
        (TokenView { kind: TokenKindView::Eof, start: start, end: start }, j)
    } else {
        let c = s[j];
        if c == '"' {
            let q = quote_end(s, j + 1);
            let k = if q < s.len() {
                q + 1
            } else {
                q
            };
            (
                TokenView {
                    kind: TokenKindView::StringLiteral(s.subrange(j + 1, q)),
                    start: start,
                    end: byte_index(s, k),
                },
                k,
            )
        } else if is_digit(c) {
            let k = number_end(s, j + 1);
            (
                TokenView {
                    kind: TokenKindView::Number(s.subrange(j, k)),
                    start: start,
                    end: byte_index(s, k),
                },
                k,
            )
        } else if is_alpha(c) || c == '_' {
            let k = ident_end(s, j + 1);
            let text = s.subrange(j, k);
            (
                TokenView {
                    kind: if is_keyword(text) {
                        TokenKindView::Keyword(text)
                    } else {
                        TokenKindView::Ident(text)
                    },
                    start: start,
                    end: byte_index(s, k),
                },
                k,
            )
        } else if c == '-' && j + 1 < s.len() && s[j + 1] == '>' {
            (
                TokenView { kind: TokenKindView::Arrow, start: start, end: byte_index(s, j + 2) },
                j + 2,
            )
        } else {
            let kind = if c == '{' {
                TokenKindView::OpenBrace
            } else if c == '}' {
                TokenKindView::CloseBrace
            } else if c == '(' {
                TokenKindView::OpenParen
            } else if c == ')' {
                TokenKindView::CloseParen
            } else if c == ';' {
                TokenKindView::Semicolon
            } else {
                TokenKindView::Symbol(c)
            };
            (TokenView { kind: kind, start: start, end: byte_index(s, j + 1) }, j + 1)
        }
    }
}

/// The scanner stays within bounds; it advances exactly when the token it
/// returns is not the end-of-input sentinel, and spans are ordered.
pub proof fn lemma_next_tok_bounds(s: Seq<char>, i: int)
    ensures
        0 <= i <= s.len() ==> ({
            let (t, j) = next_tok(s, i);
            &&& i <= j <= s.len()
            &&& (t.kind is Eof <==> j == trivia_end(s, i))
            &&& (t.kind is Eof <==> trivia_end(s, i) == s.len())
            &&& !(t.kind is Eof) ==> trivia_end(s, i) < j
            &&& byte_index(s, i) <= t.start
            &&& t.start == byte_index(s, trivia_end(s, i))
            &&& t.start <= t.end
            &&& t.end == byte_index(s, j)
        }),
{
    if 0 <= i <= s.len() {
        lemma_trivia_end_bounds(s, i);
        let j0 = trivia_end(s, i);
        lemma_byte_index_mono(s, i, j0);
        if j0 < s.len() {
            let c = s[j0];
            if c == '"' {
                lemma_quote_end_bounds(s, j0 + 1);
                let q = quote_end(s, j0 + 1);
                let k = if q < s.len() {
                    q + 1
                } else {
                    q
                };
                lemma_byte_index_mono(s, j0, k);
            } else if is_digit(c) {
                lemma_number_end_bounds(s, j0 + 1);
                lemma_byte_index_mono(s, j0, number_end(s, j0 + 1));
            } else if is_alpha(c) || c == '_' {
                lemma_ident_end_bounds(s, j0 + 1);
                lemma_byte_index_mono(s, j0, ident_end(s, j0 + 1));
            } else if c == '-' && j0 + 1 < s.len() && s[j0 + 1] == '>' {
                lemma_byte_index_mono(s, j0, j0 + 2);
            } else {
                lemma_byte_index_mono(s, j0, j0 + 1);
            }
        }
    }
}

/// The sequence of tokens from scan position `i` to the end of the input,
/// excluding the end-of-input sentinel.
pub open spec fn spec_tokens_from(s: Seq<char>, i: int) -> Seq<TokenView>
    decreases s.len() - i,
        when 0 <= i <= s.len()
        via spec_tokens_from_dec
{
    let (t, j) = next_tok(s, i);
    if t.kind is Eof {
        Seq::empty()
    } else {
        seq![t] + spec_tokens_from(s, j)
    }
}

#[via_fn]
proof fn spec_tokens_from_dec(s: Seq<char>, i: int) {
    lemma_next_tok_bounds(s, i);
    if 0 <= i <= s.len() {
        lemma_trivia_end_bounds(s, i);
    }
}

/// The tokens of a whole source text.
pub open spec fn spec_tokens(s: Seq<char>) -> Seq<TokenView> {
    spec_tokens_from(s, 0)
}

/// The lexer: a forward cursor over the characters of the source, with the
/// byte offset of the cursor tracked alongside.
pub struct Lexer {
    chars: Vec<char>,
    pos: usize,
    idx: usize,
}

impl View for Lexer {
    type V = Seq<char>;

    /// The source text the lexer was built over.
    closed spec fn view(&self) -> Seq<char> {
        self.chars@
    }
}

impl Lexer {
    /// The current scan position, as a character index into the source.
    pub closed spec fn spec_pos(&self) -> int {
        self.pos as int
    }

    /// The cursor is in bounds and the byte offset agrees with it.
    pub closed spec fn wf(&self) -> bool {
        &&& self.pos <= self.chars@.len()
        &&& self.idx == byte_index(self.chars@, self.pos as int)
        &&& byte_len(self.chars@) <= usize::MAX
    }

    /// Builds a lexer over the full source text, positioned at its start.
    pub fn new(src: &str) -> (l: Lexer)
        ensures
            l.wf(),
            l@ == src@,
            l.spec_pos() == 0,
    {
        let n = src.unicode_len();
        let bytes = src.as_bytes();
        let total = bytes.len();
        proof {
            lemma_byte_len_is_encode_len(src@);
            assert(byte_len(src@) == total);
        }
        let mut chars: Vec<char> = Vec::new();
        let mut i: usize = 0;
        while i < n
            invariant
                n == src@.len(),
                i <= n,
                chars@ =~= src@.take(i as int),
            decreases n - i,
        {
            let c = src.get_char(i);
            chars.push(c);
            proof {
                assert(chars@ =~= src@.take(i + 1));
            }
            i = i + 1;
        }
        proof {
            assert(chars@ =~= src@);
            assert(byte_index(chars@, 0) == 0) by {
                assert(chars@.take(0) =~= Seq::<char>::empty());
            }
        }
        Lexer { chars, pos: 0, idx: 0 }
    }

    /// Yields the character under the cursor, if any, without advancing.
    fn peek(&self) -> (c: Option<char>)
        ensures
            c == if self.spec_pos() < self@.len() {
                Some(self@[self.spec_pos()])
            } else {
                None::<char>
            },
    {
        if self.pos < self.chars.len() {
            Some(self.chars[self.pos])
        } else {
            None
        }
    }

    /// Advances the cursor one character, keeping the byte offset in step.
    fn bump(&mut self) -> (c: Option<char>)
        requires
            old(self).wf(),
        ensures
            final(self).wf(),
            final(self)@ == old(self)@,
            old(self).spec_pos() < old(self)@.len() ==> {
                &&& c == Some(old(self)@[old(self).spec_pos()])
                &&& final(self).spec_pos() == old(self).spec_pos() + 1
            },
            old(self).spec_pos() >= old(self)@.len() ==> {
                &&& c == None::<char>
                &&& final(self).spec_pos() == old(self).spec_pos()
            },
    {
        if self.pos < self.chars.len() {
            let ch = self.chars[self.pos];
            let w = utf8_len_char(ch);
            proof {
                lemma_byte_index_step(self.chars@, self.pos as int);
                lemma_byte_index_mono(self.chars@, self.pos as int + 1, self.chars@.len() as int);
                assert(byte_index(self.chars@, self.chars@.len() as int) == byte_len(self.chars@))
                    by {
                    assert(self.chars@.take(self.chars@.len() as int) =~= self.chars@);
                }
            }
            self.idx = self.idx + w;
            self.pos = self.pos + 1;
            Some(ch)
        } else {
            None
        }
    }

    /// Produces the next token of the source, advancing past it.  The
    /// token is exactly what the mathematical scanner [`next_tok`] yields
    /// at the current position.
    /// Produces the next token of the source, advancing past it.  The
    /// token is exactly what the mathematical scanner [`next_tok`] yields
    /// at the current position.
    #[verifier::loop_isolation(false)]
    pub fn next_token(&mut self) -> (t: Token)
        requires
            old(self).wf(),
        ensures
            final(self).wf(),
            final(self)@ == old(self)@,
            t@ == next_tok(old(self)@, old(self).spec_pos()).0,
            final(self).spec_pos() == next_tok(old(self)@, old(self).spec_pos()).1,
        decreases old(self)@.len() - old(self).spec_pos(),
    {
        let ghost s = self@;
        let ghost i0 = self.spec_pos();
        // skip run of whitespace
        while self.pos < self.chars.len() && ws_char(self.chars[self.pos])
            invariant
                self.wf(),
                self@ == s,
                i0 <= self.spec_pos() <= s.len(),
                trivia_end(s, i0) == trivia_end(s, self.spec_pos()),
            decreases s.len() - self.spec_pos(),
        {
            self.bump();
        }
        let ghost p1 = self.spec_pos();
        let start = self.idx;
        match self.bump() {
            None => {
                proof {
                    assert(trivia_end(s, p1) == p1);
                }
                Token { kind: TokenKind::Eof, span: (start, start) }
            },
            Some(c) => {
                let second_slash = matches!(self.peek(), Some('/'));
                if c == '/' && second_slash {
                    // line comment: consume through (not including) a newline
                    while self.pos < self.chars.len() && self.chars[self.pos] != '\n'
                        invariant
                            self.wf(),
                            self@ == s,
                            p1 + 1 <= self.spec_pos() <= s.len(),
                            line_end(s, p1 + 1) == line_end(s, self.spec_pos()),
                        decreases s.len() - self.spec_pos(),
                    {
                        self.bump();
                    }
                    proof {
                        assert(self.spec_pos() == line_end(s, p1 + 1));
                        lemma_line_end_bounds(s, p1 + 2);
                        assert(line_end(s, p1 + 1) == line_end(s, p1 + 2));
                        assert(trivia_end(s, p1) == trivia_end(s, self.spec_pos()));
                        assert(trivia_end(s, i0) == trivia_end(s, self.spec_pos()));
                        assert(next_tok(s, i0) == next_tok(s, self.spec_pos()));
                    }
                    return self.next_token();
                }
                proof {
                    // not whitespace and not the start of a comment: the token
                    // begins exactly at p1
                    assert(trivia_end(s, p1) == p1);
                }
                if c == '"' {
                    // string literal: capture up to the next double quote
                    let mut text = String::new();
                    let ghost q = quote_end(s, p1 + 1);
                    while self.pos < self.chars.len() && self.chars[self.pos] != '"'
                        invariant
                            self.wf(),
                            self@ == s,
                            p1 + 1 <= self.spec_pos() <= s.len(),
                            quote_end(s, p1 + 1) == quote_end(s, self.spec_pos()),
                            text@ == s.subrange(p1 + 1, self.spec_pos()),
                        decreases s.len() - self.spec_pos(),
                    {
                        let ch = self.bump().unwrap();
                        text.push(ch);
                        proof {
                            assert(text@ =~= s.subrange(p1 + 1, self.spec_pos()));
                        }
                    }
                    proof {
                        assert(self.spec_pos() == q);
                    }
                    if self.pos < self.chars.len() {
                        // consume the closing quote
                        self.bump();
                    }
                    let end = self.idx;
                    Token { kind: TokenKind::StringLiteral(text), span: (start, end) }
                } else if digit_char(c) {
                    // number literal: the run of digits and dots
                    let mut text = String::new();
                    text.push(c);
                    proof {
                        assert(text@ =~= s.subrange(p1, p1 + 1));
                    }
                    while self.pos < self.chars.len() && (digit_char(self.chars[self.pos])
                        || self.chars[self.pos] == '.')
                        invariant
                            self.wf(),
                            self@ == s,
                            p1 + 1 <= self.spec_pos() <= s.len(),
                            number_end(s, p1 + 1) == number_end(s, self.spec_pos()),
                            text@ == s.subrange(p1, self.spec_pos()),
                        decreases s.len() - self.spec_pos(),
                    {
                        let ch = self.bump().unwrap();
                        text.push(ch);
                        proof {
                            assert(text@ =~= s.subrange(p1, self.spec_pos()));
                        }
                    }
                    let end = self.idx;
                    Token { kind: TokenKind::Number(text), span: (start, end) }
                } else if alpha_char(c) || c == '_' {
                    // identifier or keyword: the run of identifier characters
                    let mut text = String::new();
                    text.push(c);
                    proof {
                        assert(text@ =~= s.subrange(p1, p1 + 1));
                    }
                    while self.pos < self.chars.len() && (alnum_char(self.chars[self.pos])
                        || self.chars[self.pos] == '_')
                        invariant
                            self.wf(),
                            self@ == s,
                            p1 + 1 <= self.spec_pos() <= s.len(),
                            ident_end(s, p1 + 1) == ident_end(s, self.spec_pos()),
                            text@ == s.subrange(p1, self.spec_pos()),
                        decreases s.len() - self.spec_pos(),
                    {
                        let ch = self.bump().unwrap();
                        text.push(ch);
                        proof {
                            assert(text@ =~= s.subrange(p1, self.spec_pos()));
                        }
                    }
                    let end = self.idx;
                    let is_kw = text == String::from_str("contract") || text == String::from_str(
                        "fn",
                    ) || text == String::from_str("return") || text == String::from_str("if")
                        || text == String::from_str("else");
                    proof {
                        assert(is_kw == is_keyword(text@));
                    }
                    if is_kw {
                        Token { kind: TokenKind::Keyword(text), span: (start, end) }
                    } else {
                        Token { kind: TokenKind::Ident(text), span: (start, end) }
                    }
                } else if c == '-' && matches!(self.peek(), Some('>')) {
                    self.bump();
                    let end = self.idx;
                    Token { kind: TokenKind::Arrow, span: (start, end) }
                } else {
                    let end = self.idx;
                    let kind = if c == '{' {
                        TokenKind::OpenBrace
                    } else if c == '}' {
                        TokenKind::CloseBrace
                    } else if c == '(' {
                        TokenKind::OpenParen
                    } else if c == ')' {
                        TokenKind::CloseParen
                    } else if c == ';' {
                        TokenKind::Semicolon
                    } else {
                        TokenKind::Symbol(c)
                    };
                    Token { kind, span: (start, end) }
                }
            },
        }
    }

    /// Produces all tokens of the source, in order, stopping before the
    /// end-of-input sentinel.
    #[verifier::loop_isolation(false)]
    pub fn tokens(self) -> (v: Vec<Token>)
        requires
            self.wf(),
        ensures
            v.deep_view() == spec_tokens_from(self@, self.spec_pos()),
    {
        let ghost s = self@;
        let ghost i0 = self.spec_pos();
        let mut lex = self;
        let mut v: Vec<Token> = Vec::new();
        let ghost mut p = i0;
        let mut t = lex.next_token();
        while !is_eof(&t)
            invariant
                lex.wf(),
                lex@ == s,
                0 <= i0 <= p <= s.len(),
                t@ == next_tok(s, p).0,
                lex.spec_pos() == next_tok(s, p).1,
                v.deep_view() + spec_tokens_from(s, p) == spec_tokens_from(s, i0),
            decreases s.len() - p,
        {
            proof {
                lemma_next_tok_bounds(s, p);
                assert(spec_tokens_from(s, p) == seq![t@] + spec_tokens_from(s, next_tok(s, p).1));
            }
            let ghost p_next = next_tok(s, p).1;
            v.push(t);
            proof {
                assert(v.deep_view() + spec_tokens_from(s, p_next) =~= spec_tokens_from(s, i0));
                p = p_next;
            }
            t = lex.next_token();
        }
        proof {
            lemma_next_tok_bounds(s, p);
            assert(spec_tokens_from(s, p) =~= Seq::<TokenView>::empty());
            assert(v.deep_view() + spec_tokens_from(s, p) =~= v.deep_view());
        }
        v
    }
}

/// Whether a token is the end-of-input sentinel.
pub fn is_eof(t: &Token) -> (r: bool)
    ensures
        r == (t@.kind is Eof),
{
    matches!(t.kind, TokenKind::Eof)
}

/// Spans are well-formed and ordered: every token's span satisfies
/// `start <= end`, and consecutive tokens' spans do not overlap, so span
/// starts are non-decreasing across the sequence.
pub proof fn lemma_spans_ordered(s: Seq<char>)
    ensures
        forall|k: int|
            0 <= k < spec_tokens(s).len() ==> (#[trigger] spec_tokens(s)[k]).start
                <= spec_tokens(s)[k].end,
        forall|k: int|
            0 <= k && k + 1 < spec_tokens(s).len() ==> (#[trigger] spec_tokens(s)[k]).end <= spec_tokens(
                s,
            )[k + 1].start,
{
    lemma_spans_ordered_from(s, 0);
}

proof fn lemma_spans_cons(t: TokenView, rest: Seq<TokenView>, toks: Seq<TokenView>)
    requires
        toks == seq![t] + rest,
        t.start <= t.end,
        rest.len() > 0 ==> t.end <= rest[0].start,
        forall|k: int| 0 <= k < rest.len() ==> (#[trigger] rest[k]).start <= rest[k].end,
        forall|k: int| 0 <= k && k + 1 < rest.len() ==> (#[trigger] rest[k]).end <= rest[k + 1].start,
    ensures
        forall|k: int| 0 <= k < toks.len() ==> (#[trigger] toks[k]).start <= toks[k].end,
        forall|k: int| 0 <= k && k + 1 < toks.len() ==> (#[trigger] toks[k]).end <= toks[k + 1].start,
{
    assert(toks.len() == 1 + rest.len());
    assert(toks[0] == t);
    assert forall|k: int| 0 <= k < toks.len() implies (#[trigger] toks[k]).start
        <= toks[k].end by {
        if k >= 1 {
            assert(toks[k] == rest[k - 1]);
        }
    }
    assert forall|k: int| 0 <= k && k + 1 < toks.len() implies (#[trigger] toks[k]).end <= toks[k
        + 1].start by {
        vstd::seq::axiom_seq_add_index2(seq![t], rest, k + 1);
        assert(toks[k + 1] == rest[k]);
        if k >= 1 {
            vstd::seq::axiom_seq_add_index2(seq![t], rest, k);
            assert(toks[k] == rest[k - 1]);
        }
    }
}

proof fn lemma_spans_ordered_from(s: Seq<char>, i: int)
    requires
        0 <= i <= s.len(),
    ensures
        forall|k: int|
            0 <= k < spec_tokens_from(s, i).len() ==> (#[trigger] spec_tokens_from(s, i)[k]).start
                <= spec_tokens_from(s, i)[k].end,
        forall|k: int|
            0 <= k && k + 1 < spec_tokens_from(s, i).len() ==> (#[trigger] spec_tokens_from(s, i)[k]).end
                <= spec_tokens_from(s, i)[k + 1].start,
        spec_tokens_from(s, i).len() > 0 ==> byte_index(s, i) <= spec_tokens_from(s, i)[0].start,
    decreases s.len() - i,
{
    let t = next_tok(s, i).0;
    let j = next_tok(s, i).1;
    lemma_next_tok_bounds(s, i);
    if !(t.kind is Eof) {
        lemma_spans_ordered_from(s, j);
        let rest = spec_tokens_from(s, j);
        if rest.len() > 0 {
            lemma_next_tok_bounds(s, j);
            lemma_trivia_end_bounds(s, j);
            lemma_byte_index_mono(s, j, trivia_end(s, j));
        }
        lemma_spans_cons(t, rest, spec_tokens_from(s, i));
    }
}

} // verus!
