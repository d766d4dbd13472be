//! A Pratt parser from tokens to statements, with the grammar stated as
//! recursive spec functions over the token models.
use vstd::prelude::*;
use crate::span::{Pos, Span};
use crate::token::{TokenKind, SpecTokenKind, Token, SpecToken, tokens_view, located_message, located};
use crate::ast::{
    BinaryOp, UnaryOp, Expr, SpecExpr, Stmt, SpecStmt, precedence_of, right_associative, expr_span,
    exprs_view, stmts_view, lemma_exprs_view_push, lemma_stmts_view_push,
};
use crate::text::{push_str, debug_quoted, str_debug};
use crate::lexer::{lex_from, law_lex_ends_with_eof};

verus! {

// ------------------------------------------------------------------
// Errors
// ------------------------------------------------------------------

/// A parse failure: where it happened and what was wrong.
#[derive(Debug)]
pub struct ParseError {
    pub span: Span,
    pub msg: String,
}

/// The model of a `ParseError`.
pub struct SpecParseError {
    pub span: Span,
    pub msg: Seq<char>,
}

impl View for ParseError {
    type V = SpecParseError;

    open spec fn view(&self) -> SpecParseError {
        SpecParseError { span: self.span, msg: self.msg@ }
    }
}

impl ParseError {
    /// The text under which this error is shown: `ParseError at <line>:<col>: <msg>`.
    pub fn message(&self) -> (r: String)
        ensures
            r@ == located_message("ParseError"@, self.span.start, self.msg@),
    {
        located("ParseError", self.span.start, self.msg.as_str())
    }
}

// ------------------------------------------------------------------
// Token helpers
// ------------------------------------------------------------------

/// The debug rendering of a token kind used in messages, e.g. `RParen`,
/// `Identifier("x")` (the name as `Debug` quotes and escapes it), `Number(2.5)`
/// (a number shows its literal text).
pub open spec fn kind_debug(k: SpecTokenKind) -> Seq<char> {
    match k {
        SpecTokenKind::Plus => "Plus"@,
        SpecTokenKind::Minus => "Minus"@,
        SpecTokenKind::Star => "Star"@,
        SpecTokenKind::Slash => "Slash"@,
        SpecTokenKind::Percent => "Percent"@,
        SpecTokenKind::Caret => "Caret"@,
        SpecTokenKind::LParen => "LParen"@,
        SpecTokenKind::RParen => "RParen"@,
        SpecTokenKind::LBrace => "LBrace"@,
        SpecTokenKind::RBrace => "RBrace"@,
        SpecTokenKind::Comma => "Comma"@,
        SpecTokenKind::Semicolon => "Semicolon"@,
        SpecTokenKind::Assign => "Assign"@,
        SpecTokenKind::Number(t) => "Number("@ + t + ")"@,
        SpecTokenKind::Identifier(t) => identifier_text(str_debug(t)),
        SpecTokenKind::Let => "Let"@,
        SpecTokenKind::Eof => "Eof"@,
    }
}

/// How an identifier shows in a message, given its name as `Debug` renders it.
pub open spec fn identifier_text(quoted: Seq<char>) -> Seq<char> {
    "Identifier("@ + quoted + ")"@
}

/// The variant number of a token kind.
pub open spec fn kind_index(k: SpecTokenKind) -> int {
    match k {
        SpecTokenKind::Plus => 0,
        SpecTokenKind::Minus => 1,
        SpecTokenKind::Star => 2,
        SpecTokenKind::Slash => 3,
        SpecTokenKind::Percent => 4,
        SpecTokenKind::Caret => 5,
        SpecTokenKind::LParen => 6,
        SpecTokenKind::RParen => 7,
        SpecTokenKind::LBrace => 8,
        SpecTokenKind::RBrace => 9,
        SpecTokenKind::Comma => 10,
        SpecTokenKind::Semicolon => 11,
        SpecTokenKind::Assign => 12,
        SpecTokenKind::Number(_) => 13,
        SpecTokenKind::Identifier(_) => 14,
        SpecTokenKind::Let => 15,
        SpecTokenKind::Eof => 16,
    }
}

/// The binary operator a token stands for, if any.
pub open spec fn binop_of(k: SpecTokenKind) -> Option<BinaryOp> {
    match k {
        SpecTokenKind::Plus => Some(BinaryOp::Add),
        SpecTokenKind::Minus => Some(BinaryOp::Sub),
        SpecTokenKind::Star => Some(BinaryOp::Mul),
        SpecTokenKind::Slash => Some(BinaryOp::Div),
        SpecTokenKind::Percent => Some(BinaryOp::Mod),
        SpecTokenKind::Caret => Some(BinaryOp::Pow),
        _ => None,
    }
}

/// The position after consuming the token at `i`: the parser never moves past `Eof`.
pub open spec fn next_pos(ts: Seq<SpecToken>, i: int) -> int {
    if ts[i].kind is Eof || i + 1 >= ts.len() {
        i
    } else {
        i + 1
    }
}

/// The span given to an expression that cannot start with the token found: line 1, column 1.
pub open spec fn origin_span() -> Span {
    Span { start: Pos { offset: 0, line: 1, col: 1 }, end: Pos { offset: 0, line: 1, col: 1 } }
}

/// The error for a state the parser cannot reach on a token sequence that ends with `Eof`.
pub open spec fn stuck(ts: Seq<SpecToken>, i: int) -> SpecParseError {
    SpecParseError { span: ts[i].span, msg: seq![] }
}

/// Consuming a token of the same variant as `expected`.
pub open spec fn expect_at(ts: Seq<SpecToken>, i: int, expected: SpecTokenKind) -> Result<(SpecToken, int), SpecParseError> {
    if kind_index(ts[i].kind) == kind_index(expected) {
        Ok((ts[i], next_pos(ts, i)))
    } else {
        Err(SpecParseError {
            span: ts[i].span,
            msg: "expected "@ + kind_debug(expected) + ", found "@ + kind_debug(ts[i].kind),
        })
    }
}

/// The end of a statement: an optional `;` at `p`, else the end of the expression `e`.
pub open spec fn stmt_end(ts: Seq<SpecToken>, e: SpecExpr, p: int) -> (Span, int) {
    if ts[p].kind is Semicolon {
        (ts[p].span, next_pos(ts, p))
    } else {
        (expr_span(e), p)
    }
}

// ------------------------------------------------------------------
// The grammar
// ------------------------------------------------------------------

/// `program := stmt* Eof`
pub open spec fn program_at(ts: Seq<SpecToken>, i: int) -> Result<(Seq<SpecStmt>, int), SpecParseError>
    decreases ts.len() - i, 10nat,
{
    if !(0 <= i < ts.len()) {
        Err(stuck(ts, i))
    } else if ts[i].kind is Eof {
        Ok((seq![], i))
    } else {
        match stmt_at(ts, i) {
            Err(e) => Err(e),
            Ok((s, j)) => if i < j < ts.len() {
                match program_at(ts, j) {
                    Ok((rest, k)) => Ok((seq![s] + rest, k)),
                    Err(e) => Err(e),
                }
            } else {
                Err(stuck(ts, i))
            },
        }
    }
}

/// `stmt := let | block | expr_stmt`, chosen by the first token.
pub open spec fn stmt_at(ts: Seq<SpecToken>, i: int) -> Result<(SpecStmt, int), SpecParseError>
    decreases ts.len() - i, 9nat,
{
    if !(0 <= i < ts.len()) {
        Err(stuck(ts, i))
    } else {
        match ts[i].kind {
            SpecTokenKind::Let => let_at(ts, i),
            SpecTokenKind::LBrace => block_at(ts, i),
            _ => expr_stmt_at(ts, i),
        }
    }
}

/// `let := 'let' Identifier '=' expr ';'?`
pub open spec fn let_at(ts: Seq<SpecToken>, i: int) -> Result<(SpecStmt, int), SpecParseError>
    decreases ts.len() - i, 8nat,
{
    if !(0 <= i < ts.len()) {
        Err(stuck(ts, i))
    } else {
        match expect_at(ts, i, SpecTokenKind::Let) {
            Err(e) => Err(e),
            Ok((let_tok, j)) => match ts[j].kind {
                SpecTokenKind::Identifier(name) => match expect_at(ts, next_pos(ts, j), SpecTokenKind::Assign) {
                    Err(e) => Err(e),
                    Ok((_, m)) => if i < m < ts.len() {
                        match expr_at(ts, m) {
                            Err(e) => Err(e),
                            Ok((e, p)) => {
                                let (end, q) = stmt_end(ts, e, p);
                                Ok((SpecStmt::Let { name, expr: e, span: Span { start: let_tok.span.start, end: end.end } }, q))
                            },
                        }
                    } else {
                        Err(stuck(ts, i))
                    },
                },
                _ => Err(SpecParseError { span: ts[j].span, msg: "expected identifier after 'let'"@ }),
            },
        }
    }
}

/// `block := '{' stmt* '}'`
pub open spec fn block_at(ts: Seq<SpecToken>, i: int) -> Result<(SpecStmt, int), SpecParseError>
    decreases ts.len() - i, 8nat,
{
    if !(0 <= i < ts.len()) {
        Err(stuck(ts, i))
    } else {
        match expect_at(ts, i, SpecTokenKind::LBrace) {
            Err(e) => Err(e),
            Ok((lb, j)) => if i < j < ts.len() {
                match block_items_at(ts, j) {
                    Err(e) => Err(e),
                    Ok((stmts, k)) => match expect_at(ts, k, SpecTokenKind::RBrace) {
                        Err(e) => Err(e),
                        Ok((rb, m)) => Ok((SpecStmt::Block { stmts, span: Span { start: lb.span.start, end: rb.span.end } }, m)),
                    },
                }
            } else {
                Err(stuck(ts, i))
            },
        }
    }
}

/// The statements of a block, up to the first `}` or `Eof` where a statement could start.
pub open spec fn block_items_at(ts: Seq<SpecToken>, i: int) -> Result<(Seq<SpecStmt>, int), SpecParseError>
    decreases ts.len() - i, 10nat,
{
    if !(0 <= i < ts.len()) {
        Err(stuck(ts, i))
    } else if ts[i].kind is RBrace || ts[i].kind is Eof {
        Ok((seq![], i))
    } else {
        match stmt_at(ts, i) {
            Err(e) => Err(e),
            Ok((s, j)) => if i < j < ts.len() {
                match block_items_at(ts, j) {
                    Ok((rest, k)) => Ok((seq![s] + rest, k)),
                    Err(e) => Err(e),
                }
            } else {
                Err(stuck(ts, i))
            },
        }
    }
}

/// An expression statement `expr ';'?`, or an assignment `Identifier '=' expr ';'?`
/// when the expression is a single identifier followed directly by `=`.
pub open spec fn expr_stmt_at(ts: Seq<SpecToken>, i: int) -> Result<(SpecStmt, int), SpecParseError>
    decreases ts.len() - i, 8nat,
{
    if !(0 <= i < ts.len()) {
        Err(stuck(ts, i))
    } else {
        match expr_at(ts, i) {
            Err(e) => Err(e),
            Ok((e, j)) => if i < j < ts.len() {
                let (end, k) = stmt_end(ts, e, j);
                let plain = Ok((SpecStmt::ExprStmt { expr: e, span: Span { start: expr_span(e).start, end: end.end } }, k));
                match e {
                    SpecExpr::Ident(name, ident_span) => if ts[j].kind is Assign {
                        let m = next_pos(ts, j);
                        if i < m < ts.len() {
                            match expr_at(ts, m) {
                                Err(err) => Err(err),
                                Ok((rhs, p)) => {
                                    let (end2, q) = stmt_end(ts, rhs, p);
                                    Ok((SpecStmt::Assign { name, expr: rhs, span: Span { start: ident_span.start, end: end2.end } }, q))
                                },
                            }
                        } else {
                            Err(stuck(ts, i))
                        }
                    } else {
                        plain
                    },
                    _ => plain,
                }
            } else {
                Err(stuck(ts, i))
            },
        }
    }
}

/// `expr := prec(0)`
pub open spec fn expr_at(ts: Seq<SpecToken>, i: int) -> Result<(SpecExpr, int), SpecParseError>
    decreases ts.len() - i, 7nat,
{
    if !(0 <= i < ts.len()) {
        Err(stuck(ts, i))
    } else {
        prec_at(ts, i, 0)
    }
}

/// A prefix expression followed by binary operators that bind at least as tightly
/// as `min` allows: a left-associative operator needs precedence above `min`, a
/// right-associative one at least `min`.
pub open spec fn prec_at(ts: Seq<SpecToken>, i: int, min: u8) -> Result<(SpecExpr, int), SpecParseError>
    decreases ts.len() - i, 6nat,
{
    if !(0 <= i < ts.len()) {
        Err(stuck(ts, i))
    } else {
        match prefix_at(ts, i) {
            Err(e) => Err(e),
            Ok((lhs, j)) => if i < j < ts.len() {
                prec_loop(ts, lhs, j, min)
            } else {
                Err(stuck(ts, i))
            },
        }
    }
}

/// Whether operator `op` may extend an expression parsed with minimum precedence `min`.
pub open spec fn binds(op: BinaryOp, min: u8) -> bool {
    if right_associative(op) {
        precedence_of(op) >= min
    } else {
        precedence_of(op) > min
    }
}

/// The minimum precedence for the right operand of `op`.
pub open spec fn next_min(op: BinaryOp) -> u8 {
    if right_associative(op) {
        precedence_of(op)
    } else {
        (precedence_of(op) + 1) as u8
    }
}

/// Extends `lhs` with the binary operators found from `j` on.
pub open spec fn prec_loop(ts: Seq<SpecToken>, lhs: SpecExpr, j: int, min: u8) -> Result<(SpecExpr, int), SpecParseError>
    decreases ts.len() - j, 6nat,
{
    if !(0 <= j < ts.len()) {
        Err(stuck(ts, j))
    } else {
        match binop_of(ts[j].kind) {
            None => Ok((lhs, j)),
            Some(op) => if !binds(op, min) {
                Ok((lhs, j))
            } else {
                let j1 = next_pos(ts, j);
                if j < j1 < ts.len() {
                    match prec_at(ts, j1, next_min(op)) {
                        Err(e) => Err(e),
                        Ok((rhs, k)) => if j1 < k < ts.len() {
                            prec_loop(
                                ts,
                                SpecExpr::Binary {
                                    left: Box::new(lhs),
                                    op,
                                    right: Box::new(rhs),
                                    span: Span { start: expr_span(lhs).start, end: expr_span(rhs).end },
                                },
                                k,
                                min,
                            )
                        } else {
                            Err(stuck(ts, j))
                        },
                    }
                } else {
                    Err(stuck(ts, j))
                }
            },
        }
    }
}

/// `prefix := ('+' | '-') prefix | Number | Identifier postfix | '(' expr ')'`
pub open spec fn prefix_at(ts: Seq<SpecToken>, i: int) -> Result<(SpecExpr, int), SpecParseError>
    decreases ts.len() - i, 5nat,
{
    if !(0 <= i < ts.len()) {
        Err(stuck(ts, i))
    } else {
        let j = next_pos(ts, i);
        match ts[i].kind {
            SpecTokenKind::Plus => unary_at(ts, i, UnaryOp::Plus),
            SpecTokenKind::Minus => unary_at(ts, i, UnaryOp::Minus),
            SpecTokenKind::Number(t) => Ok((SpecExpr::Number(t, ts[i].span), j)),
            SpecTokenKind::Identifier(n) => if i < j < ts.len() {
                postfix_at(ts, SpecExpr::Ident(n, ts[i].span), j)
            } else {
                Err(stuck(ts, i))
            },
            SpecTokenKind::LParen => if i < j < ts.len() {
                match expr_at(ts, j) {
                    Err(e) => Err(e),
                    Ok((e, k)) => match expect_at(ts, k, SpecTokenKind::RParen) {
                        Err(err) => Err(err),
                        Ok((_, m)) => Ok((e, m)),
                    },
                }
            } else {
                Err(stuck(ts, i))
            },
            other => Err(SpecParseError { span: origin_span(), msg: "unexpected token in expression: "@ + kind_debug(other) }),
        }
    }
}

/// A prefix operator `op` at `i` applied to the prefix expression after it.
pub open spec fn unary_at(ts: Seq<SpecToken>, i: int, op: UnaryOp) -> Result<(SpecExpr, int), SpecParseError>
    decreases ts.len() - i, 4nat,
{
    if !(0 <= i < ts.len()) {
        Err(stuck(ts, i))
    } else {
        let j = next_pos(ts, i);
        if i < j < ts.len() {
            match prefix_at(ts, j) {
                Err(e) => Err(e),
                Ok((e, k)) => Ok((SpecExpr::Unary { op, expr: Box::new(e), span: Span { start: ts[i].span.start, end: expr_span(e).end } }, k)),
            }
        } else {
            Err(stuck(ts, i))
        }
    }
}

/// Calls applied to `e`: `( '(' (expr (',' expr)*)? ')' )*`
pub open spec fn postfix_at(ts: Seq<SpecToken>, e: SpecExpr, j: int) -> Result<(SpecExpr, int), SpecParseError>
    decreases ts.len() - j, 5nat,
{
    if !(0 <= j < ts.len()) {
        Err(stuck(ts, j))
    } else if ts[j].kind is LParen {
        let j1 = next_pos(ts, j);
        if j < j1 < ts.len() {
            let args = if ts[j1].kind is RParen {
                Ok((seq![], j1))
            } else {
                args_at(ts, j1)
            };
            match args {
                Err(err) => Err(err),
                Ok((args, k)) => match expect_at(ts, k, SpecTokenKind::RParen) {
                    Err(err) => Err(err),
                    Ok((rp, m)) => if j < m < ts.len() {
                        postfix_at(
                            ts,
                            SpecExpr::Call { callee: Box::new(e), args, span: Span { start: expr_span(e).start, end: rp.span.end } },
                            m,
                        )
                    } else {
                        Err(stuck(ts, j))
                    },
                },
            }
        } else {
            Err(stuck(ts, j))
        }
    } else {
        Ok((e, j))
    }
}

/// `args := expr (',' expr)*`
pub open spec fn args_at(ts: Seq<SpecToken>, i: int) -> Result<(Seq<SpecExpr>, int), SpecParseError>
    decreases ts.len() - i, 8nat,
{
    if !(0 <= i < ts.len()) {
        Err(stuck(ts, i))
    } else {
        match expr_at(ts, i) {
            Err(e) => Err(e),
            Ok((a, m)) => if 0 <= m < ts.len() && ts[m].kind is Comma {
                let m1 = next_pos(ts, m);
                if i < m1 < ts.len() {
                    match args_at(ts, m1) {
                        Ok((rest, p)) => Ok((seq![a] + rest, p)),
                        Err(e) => Err(e),
                    }
                } else {
                    Err(stuck(ts, i))
                }
            } else {
                Ok((seq![a], m))
            },
        }
    }
}

// ------------------------------------------------------------------
// Results
// ------------------------------------------------------------------

pub open spec fn token_result(r: Result<Token, ParseError>, pos: int) -> Result<(SpecToken, int), SpecParseError> {
    match r {
        Ok(t) => Ok((t@, pos)),
        Err(e) => Err(e@),
    }
}

pub open spec fn expr_result(r: Result<Expr, ParseError>, pos: int) -> Result<(SpecExpr, int), SpecParseError> {
    match r {
        Ok(e) => Ok((e@, pos)),
        Err(e) => Err(e@),
    }
}

pub open spec fn exprs_result(r: Result<Vec<Expr>, ParseError>, pos: int) -> Result<(Seq<SpecExpr>, int), SpecParseError> {
    match r {
        Ok(es) => Ok((exprs_view(es@), pos)),
        Err(e) => Err(e@),
    }
}

pub open spec fn stmt_result(r: Result<Stmt, ParseError>, pos: int) -> Result<(SpecStmt, int), SpecParseError> {
    match r {
        Ok(s) => Ok((s@, pos)),
        Err(e) => Err(e@),
    }
}

pub open spec fn stmts_result(r: Result<Vec<Stmt>, ParseError>, pos: int) -> Result<(Seq<SpecStmt>, int), SpecParseError> {
    match r {
        Ok(ss) => Ok((stmts_view(ss@), pos)),
        Err(e) => Err(e@),
    }
}

/// `pre` followed by the items of `r`, or the error of `r`.
pub open spec fn prepend_result<A>(pre: Seq<A>, r: Result<(Seq<A>, int), SpecParseError>) -> Result<(Seq<A>, int), SpecParseError> {
    match r {
        Ok((rest, k)) => Ok((pre + rest, k)),
        Err(e) => Err(e),
    }
}

/// Whether an `Eof` token stands at index `i` or after it.
pub open spec fn eof_from(ts: Seq<SpecToken>, i: int) -> bool {
    exists|k: int| i <= k < ts.len() && (#[trigger] ts[k]).kind is Eof
}

/// Whether a token sequence can be parsed: it holds an `Eof`, which the parser
/// never moves past.
pub open spec fn well_terminated(ts: Seq<SpecToken>) -> bool {
    eof_from(ts, 0)
}

// ------------------------------------------------------------------
// Executable helpers
// ------------------------------------------------------------------

fn text(t: &str) -> (s: String)
    ensures
        s@ == t@,
{
    t.to_owned()
}

fn kind_number(k: &TokenKind) -> (n: u8)
    ensures
        n == kind_index(k@),
{
    match k {
        TokenKind::Plus => 0,
        TokenKind::Minus => 1,
        TokenKind::Star => 2,
        TokenKind::Slash => 3,
        TokenKind::Percent => 4,
        TokenKind::Caret => 5,
        TokenKind::LParen => 6,
        TokenKind::RParen => 7,
        TokenKind::LBrace => 8,
        TokenKind::RBrace => 9,
        TokenKind::Comma => 10,
        TokenKind::Semicolon => 11,
        TokenKind::Assign => 12,
        TokenKind::Number(_) => 13,
        TokenKind::Identifier(_) => 14,
        TokenKind::Let => 15,
        TokenKind::Eof => 16,
    }
}

/// How an identifier token shows in a message, given its name as `Debug`
/// renders it (quoted and escaped): `Identifier(` + `quoted` + `)`.
pub fn identifier_debug(quoted: &str) -> (r: String)
    ensures
        r@ == identifier_text(quoted@),
{
    let mut r = String::new();
    push_str(&mut r, "Identifier(");
    push_str(&mut r, quoted);
    push_str(&mut r, ")");
    proof {
        assert(r@ =~= identifier_text(quoted@));
    }
    r
}

/// Appends the debug rendering of a token kind.
fn push_debug(s: &mut String, k: &TokenKind)
    ensures
        final(s)@ == old(s)@ + kind_debug(k@),
{
    match k {
        TokenKind::Plus => push_str(s, "Plus"),
        TokenKind::Minus => push_str(s, "Minus"),
        TokenKind::Star => push_str(s, "Star"),
        TokenKind::Slash => push_str(s, "Slash"),
        TokenKind::Percent => push_str(s, "Percent"),
        TokenKind::Caret => push_str(s, "Caret"),
        TokenKind::LParen => push_str(s, "LParen"),
        TokenKind::RParen => push_str(s, "RParen"),
        TokenKind::LBrace => push_str(s, "LBrace"),
        TokenKind::RBrace => push_str(s, "RBrace"),
        TokenKind::Comma => push_str(s, "Comma"),
        TokenKind::Semicolon => push_str(s, "Semicolon"),
        TokenKind::Assign => push_str(s, "Assign"),
        TokenKind::Number(t) => {
            push_str(s, "Number(");
            push_str(s, t.as_str());
            push_str(s, ")");
            assert(final(s)@ =~= old(s)@ + kind_debug(k@));
        },
        TokenKind::Identifier(t) => {
            let quoted = debug_quoted(t.as_str());
            let shown = identifier_debug(quoted.as_str());
            push_str(s, shown.as_str());
        },
        TokenKind::Let => push_str(s, "Let"),
        TokenKind::Eof => push_str(s, "Eof"),
    }
}

fn binop_of_kind(k: &TokenKind) -> (r: Option<BinaryOp>)
    ensures
        r == binop_of(k@),
{
    match k {
        TokenKind::Plus => Some(BinaryOp::Add),
        TokenKind::Minus => Some(BinaryOp::Sub),
        TokenKind::Star => Some(BinaryOp::Mul),
        TokenKind::Slash => Some(BinaryOp::Div),
        TokenKind::Percent => Some(BinaryOp::Mod),
        TokenKind::Caret => Some(BinaryOp::Pow),
        _ => None,
    }
}

fn is_eof(k: &TokenKind) -> (r: bool)
    ensures
        r == (k@ is Eof),
{
    match k {
        TokenKind::Eof => true,
        _ => false,
    }
}

fn is_kind(k: &TokenKind, expected: &TokenKind) -> (r: bool)
    ensures
        r == (kind_index(k@) == kind_index(expected@)),
{
    kind_number(k) == kind_number(expected)
}

fn other_span() -> (s: Span)
    ensures
        s == origin_span(),
{
    let p = Pos::new(0, 1, 1);
    Span::new(p, p)
}

// ------------------------------------------------------------------
// The parser
// ------------------------------------------------------------------

/// Parses a token sequence that ends with `Eof` into statements.
pub struct Parser<'a> {
    tokens: &'a [Token],
    idx: usize,
}

impl<'a> Parser<'a> {
    /// The models of the tokens being parsed.
    pub closed spec fn toks(&self) -> Seq<SpecToken> {
        tokens_view(self.tokens@)
    }

    /// The index of the current token.
    pub closed spec fn pos(&self) -> int {
        self.idx as int
    }

    /// An `Eof` stands at or after the current token.
    #[verifier::type_invariant]
    spec fn wf(&self) -> bool {
        eof_from(self.toks(), self.idx as int)
    }

    pub fn new(tokens: &'a [Token]) -> (p: Self)
        requires
            well_terminated(tokens_view(tokens@)),
        ensures
            p.toks() == tokens_view(tokens@),
            p.pos() == 0,
    {
        Parser { tokens, idx: 0 }
    }

    fn current(&self) -> (t: &Token)
        ensures
            *t == self.tokens@[self.idx as int],
            t@ == self.toks()[self.idx as int],
    {
        proof {
            use_type_invariant(self);
        }
        proof {
            lemma_next_pos(self.toks(), self.idx as int);
        }
        &self.tokens[self.idx]
    }

    fn advance(&mut self)
        ensures
            eof_from(final(self).toks(), final(self).pos()),
            final(self).tokens == old(self).tokens,
            final(self).idx == next_pos(old(self).toks(), old(self).idx as int),
    {
        proof {
            use_type_invariant(&*self);
        }
        proof {
            lemma_next_pos(self.toks(), self.idx as int);
        }
        let n = self.tokens.len();
        if !is_eof(&self.current().kind) {
            assert(self.idx + 1 < n);
            self.idx += 1;
        }
    }

    fn expect(&mut self, expected: TokenKind) -> (r: Result<Token, ParseError>)
        ensures
            eof_from(final(self).toks(), final(self).pos()),
            final(self).tokens == old(self).tokens,
            token_result(r, final(self).idx as int) == expect_at(old(self).toks(), old(self).idx as int, expected@),
    {
        proof {
            use_type_invariant(&*self);
        }
        if kind_number(&self.current().kind) == kind_number(&expected) {
            let t = self.current().duplicate();
            self.advance();
            Ok(t)
        } else {
            let mut msg = text("expected ");
            push_debug(&mut msg, &expected);
            push_str(&mut msg, ", found ");
            push_debug(&mut msg, &self.current().kind);
            Err(ParseError { span: self.current().span, msg })
        }
    }

    /// The statement end: consumes an optional `;`.
    fn finish_stmt(&mut self, e: &Expr) -> (end: Span)
        ensures
            eof_from(final(self).toks(), final(self).pos()),
            final(self).tokens == old(self).tokens,
            (end, final(self).idx as int) == stmt_end(old(self).toks(), e@, old(self).idx as int),
    {
        proof {
            use_type_invariant(&*self);
        }
        if is_kind(&self.current().kind, &TokenKind::Semicolon) {
            let t = self.current().span;
            self.advance();
            t
        } else {
            e.span()
        }
    }

    /// Parses statements up to `Eof`.
    pub fn parse_program(&mut self) -> (r: Result<Vec<Stmt>, ParseError>)
        ensures
            eof_from(final(self).toks(), final(self).pos()),
            final(self).toks() == old(self).toks(),
            stmts_result(r, final(self).pos()) == program_at(old(self).toks(), old(self).pos()),
    {
        proof {
            use_type_invariant(&*self);
        }
        let ghost ts = self.toks();
        let ghost start = self.idx as int;
        let mut stmts: Vec<Stmt> = Vec::new();
        while !is_eof(&self.current().kind)
            invariant
                eof_from(self.toks(), self.idx as int),
                self.tokens == old(self).tokens,
                ts == self.toks(),
                start == old(self).idx,
                program_at(ts, start) == prepend_result(stmts_view(stmts@), program_at(ts, self.idx as int)),
            decreases self.tokens@.len() - self.idx,
        {
            let ghost i = self.idx as int;
            let s = match self.parse_stmt() {
                Ok(s) => s,
                Err(e) => {
                    return Err(e);
                },
            };
            let ghost old_stmts = stmts@;
            stmts.push(s);
            proof {
                lemma_stmts_view_push(old_stmts, s);
                match program_at(ts, self.idx as int) {
                    Ok((rest, k)) => {
                        assert(stmts_view(old_stmts) + (seq![s@] + rest) =~= stmts_view(stmts@) + rest);
                    },
                    Err(_) => {},
                }
            }
        }
        proof {
            assert(stmts_view(stmts@) + Seq::<SpecStmt>::empty() =~= stmts_view(stmts@));
        }
        Ok(stmts)
    }

    fn parse_stmt(&mut self) -> (r: Result<Stmt, ParseError>)
        ensures
            eof_from(final(self).toks(), final(self).pos()),
            final(self).tokens == old(self).tokens,
            stmt_result(r, final(self).idx as int) == stmt_at(old(self).toks(), old(self).idx as int),
            r is Ok ==> old(self).idx < final(self).idx,
        decreases old(self).tokens@.len() - old(self).idx, 9nat,
    {
        proof {
            use_type_invariant(&*self);
        }
        match &self.current().kind {
            TokenKind::Let => self.parse_let(),
            TokenKind::LBrace => self.parse_block(),
            _ => self.parse_expr_stmt(),
        }
    }

    fn parse_let(&mut self) -> (r: Result<Stmt, ParseError>)
        ensures
            eof_from(final(self).toks(), final(self).pos()),
            final(self).tokens == old(self).tokens,
            stmt_result(r, final(self).idx as int) == let_at(old(self).toks(), old(self).idx as int),
            r is Ok ==> old(self).idx < final(self).idx,
        decreases old(self).tokens@.len() - old(self).idx, 8nat,
    {
        proof {
            use_type_invariant(&*self);
        }
        let let_tok = self.expect(TokenKind::Let)?;
        let name = match &self.current().kind {
            TokenKind::Identifier(n) => {
                let s = n.clone();
                self.advance();
                s
            },
            _ => {
                return Err(ParseError { span: self.current().span, msg: text("expected identifier after 'let'") });
            },
        };
        self.expect(TokenKind::Assign)?;
        let expr = self.parse_expr()?;
        let end_span = self.finish_stmt(&expr);
        Ok(Stmt::Let { name, expr, span: Span::new(let_tok.span.start, end_span.end) })
    }

    fn parse_block(&mut self) -> (r: Result<Stmt, ParseError>)
        ensures
            eof_from(final(self).toks(), final(self).pos()),
            final(self).tokens == old(self).tokens,
            stmt_result(r, final(self).idx as int) == block_at(old(self).toks(), old(self).idx as int),
            r is Ok ==> old(self).idx < final(self).idx,
        decreases old(self).tokens@.len() - old(self).idx, 8nat,
    {
        proof {
            use_type_invariant(&*self);
        }
        let ghost ts = self.toks();
        let lbrace = self.expect(TokenKind::LBrace)?;
        let ghost j0 = self.idx as int;
        let mut stmts: Vec<Stmt> = Vec::new();
        while !is_kind(&self.current().kind, &TokenKind::RBrace) && !is_eof(&self.current().kind)
            invariant
                eof_from(self.toks(), self.idx as int),
                self.tokens == old(self).tokens,
                ts == self.toks(),
                old(self).idx < j0 <= self.idx,
                forall|e: SpecParseError| block_items_at(ts, j0) == Err::<(Seq<SpecStmt>, int), SpecParseError>(e)
                    ==> block_at(ts, old(self).idx as int) == Err::<(SpecStmt, int), SpecParseError>(e),
                block_items_at(ts, j0) == prepend_result(stmts_view(stmts@), block_items_at(ts, self.idx as int)),
            decreases self.tokens@.len() - self.idx,
        {
            let s = match self.parse_stmt() {
                Ok(s) => s,
                Err(e) => {
                    return Err(e);
                },
            };
            let ghost old_stmts = stmts@;
            stmts.push(s);
            proof {
                lemma_stmts_view_push(old_stmts, s);
                match block_items_at(ts, self.idx as int) {
                    Ok((rest, k)) => {
                        assert(stmts_view(old_stmts) + (seq![s@] + rest) =~= stmts_view(stmts@) + rest);
                    },
                    Err(_) => {},
                }
            }
        }
        proof {
            assert(stmts_view(stmts@) + Seq::<SpecStmt>::empty() =~= stmts_view(stmts@));
        }
        let rbrace = self.expect(TokenKind::RBrace)?;
        Ok(Stmt::Block { stmts, span: Span::new(lbrace.span.start, rbrace.span.end) })
    }

    fn parse_expr_stmt(&mut self) -> (r: Result<Stmt, ParseError>)
        ensures
            eof_from(final(self).toks(), final(self).pos()),
            final(self).tokens == old(self).tokens,
            stmt_result(r, final(self).idx as int) == expr_stmt_at(old(self).toks(), old(self).idx as int),
            r is Ok ==> old(self).idx < final(self).idx,
        decreases old(self).tokens@.len() - old(self).idx, 8nat,
    {
        proof {
            use_type_invariant(&*self);
        }
        let expr = self.parse_expr()?;
        // an assignment is a lone identifier followed directly by `=`
        if let Expr::Ident(name, ident_span) = &expr {
            if is_kind(&self.current().kind, &TokenKind::Assign) {
                self.advance();
                let rhs = self.parse_expr()?;
                let end_span2 = self.finish_stmt(&rhs);
                return Ok(Stmt::Assign { name: name.clone(), expr: rhs, span: Span::new(ident_span.start, end_span2.end) });
            }
        }
        let end_span = self.finish_stmt(&expr);
        let expr_span = expr.span();
        Ok(Stmt::ExprStmt { expr, span: Span::new(expr_span.start, end_span.end) })
    }

    fn parse_expr(&mut self) -> (r: Result<Expr, ParseError>)
        ensures
            eof_from(final(self).toks(), final(self).pos()),
            final(self).tokens == old(self).tokens,
            expr_result(r, final(self).idx as int) == expr_at(old(self).toks(), old(self).idx as int),
            r is Ok ==> old(self).idx < final(self).idx,
        decreases old(self).tokens@.len() - old(self).idx, 7nat,
    {
        proof {
            use_type_invariant(&*self);
        }
        self.parse_prec(0)
    }

    fn parse_prec(&mut self, min_prec: u8) -> (r: Result<Expr, ParseError>)
        ensures
            eof_from(final(self).toks(), final(self).pos()),
            final(self).tokens == old(self).tokens,
            expr_result(r, final(self).idx as int) == prec_at(old(self).toks(), old(self).idx as int, min_prec),
            r is Ok ==> old(self).idx < final(self).idx,
        decreases old(self).tokens@.len() - old(self).idx, 6nat,
    {
        proof {
            use_type_invariant(&*self);
        }
        let ghost ts = self.toks();
        let ghost start = self.idx as int;
        let mut lhs = self.parse_prefix()?;
        loop
            invariant
                eof_from(self.toks(), self.idx as int),
                self.tokens == old(self).tokens,
                ts == self.toks(),
                start == old(self).idx,
                start < self.idx,
                prec_at(ts, start, min_prec) == prec_loop(ts, lhs@, self.idx as int, min_prec),
            decreases self.tokens@.len() - self.idx,
        {
            let op = binop_of_kind(&self.current().kind);
            match op {
                None => {
                    return Ok(lhs);
                },
                Some(binop) => {
                    let prec = binop.precedence();
                    let assoc_right = binop.is_right_associative();
                    let cond = if assoc_right {
                        prec >= min_prec
                    } else {
                        prec > min_prec
                    };
                    if !cond {
                        return Ok(lhs);
                    }
                    let left_start = lhs.span().start;
                    self.advance();
                    let next_min: u8 = if assoc_right {
                        prec
                    } else {
                        prec + 1
                    };
                    let rhs = self.parse_prec(next_min)?;
                    let span = Span::new(left_start, rhs.span().end);
                    lhs = Expr::Binary { left: Box::new(lhs), op: binop, right: Box::new(rhs), span };
                },
            }
        }
    }

    fn parse_prefix(&mut self) -> (r: Result<Expr, ParseError>)
        ensures
            eof_from(final(self).toks(), final(self).pos()),
            final(self).tokens == old(self).tokens,
            expr_result(r, final(self).idx as int) == prefix_at(old(self).toks(), old(self).idx as int),
            r is Ok ==> old(self).idx < final(self).idx,
        decreases old(self).tokens@.len() - old(self).idx, 5nat,
    {
        proof {
            use_type_invariant(&*self);
        }
        proof {
            lemma_next_pos(self.toks(), self.idx as int);
        }
        match &self.current().kind {
            TokenKind::Plus => self.parse_unary(UnaryOp::Plus),
            TokenKind::Minus => self.parse_unary(UnaryOp::Minus),
            TokenKind::Number(v) => {
                let value = v.clone();
                let span = self.current().span;
                self.advance();
                Ok(Expr::Number(value, span))
            },
            TokenKind::Identifier(n) => {
                let name = n.clone();
                let span = self.current().span;
                self.advance();
                self.parse_postfix(Expr::Ident(name, span))
            },
            TokenKind::LParen => {
                self.advance();
                let e = self.parse_expr()?;
                self.expect(TokenKind::RParen)?;
                Ok(e)
            },
            other => {
                let mut msg = text("unexpected token in expression: ");
                push_debug(&mut msg, other);
                Err(ParseError { span: other_span(), msg })
            },
        }
    }

    /// A prefix operator applied to the prefix expression after it.
    fn parse_unary(&mut self, op: UnaryOp) -> (r: Result<Expr, ParseError>)
        requires
            !(old(self).toks()[old(self).idx as int].kind is Eof),
        ensures
            eof_from(final(self).toks(), final(self).pos()),
            final(self).tokens == old(self).tokens,
            expr_result(r, final(self).idx as int) == unary_at(old(self).toks(), old(self).idx as int, op),
            r is Ok ==> old(self).idx < final(self).idx,
        decreases old(self).tokens@.len() - old(self).idx, 4nat,
    {
        proof {
            use_type_invariant(&*self);
        }
        let start = self.current().span.start;
        self.advance();
        let expr = self.parse_prefix()?;
        let span = Span::new(start, expr.span().end);
        Ok(Expr::Unary { op, expr: Box::new(expr), span })
    }

    fn parse_postfix(&mut self, base: Expr) -> (r: Result<Expr, ParseError>)
        ensures
            eof_from(final(self).toks(), final(self).pos()),
            final(self).tokens == old(self).tokens,
            expr_result(r, final(self).idx as int) == postfix_at(old(self).toks(), base@, old(self).idx as int),
            r is Ok ==> old(self).idx <= final(self).idx,
        decreases old(self).tokens@.len() - old(self).idx, 5nat,
    {
        proof {
            use_type_invariant(&*self);
        }
        let ghost ts = self.toks();
        let ghost start = self.idx as int;
        let ghost e0 = base@;
        let mut expr = base;
        loop
            invariant
                eof_from(self.toks(), self.idx as int),
                self.tokens == old(self).tokens,
                ts == self.toks(),
                start == old(self).idx,
                start <= self.idx,
                e0 == base@,
                postfix_at(ts, e0, start) == postfix_at(ts, expr@, self.idx as int),
            decreases self.tokens@.len() - self.idx,
        {
            if is_kind(&self.current().kind, &TokenKind::LParen) {
                let ghost j = self.idx as int;
                let ghost prev = expr@;
                self.advance();
                let ghost j1 = self.idx as int;
                let args = if is_kind(&self.current().kind, &TokenKind::RParen) {
                    let v: Vec<Expr> = Vec::new();
                    assert(exprs_view(v@) =~= Seq::<SpecExpr>::empty());
                    v
                } else {
                    self.parse_args()?
                };
                let ghost k = self.idx as int;
                assert(j1 <= k);
                let rparen = self.expect(TokenKind::RParen)?;
                let span = Span::new(expr.span().start, rparen.span.end);
                expr = Expr::Call { callee: Box::new(expr), args, span };
                proof {
                    let a = if ts[j1].kind is RParen {
                        Ok::<(Seq<SpecExpr>, int), SpecParseError>((seq![], j1))
                    } else {
                        args_at(ts, j1)
                    };
                    assert(a == Ok::<(Seq<SpecExpr>, int), SpecParseError>((exprs_view(args@), k)));
                    assert(expect_at(ts, k, SpecTokenKind::RParen) == Ok::<(SpecToken, int), SpecParseError>((rparen@, self.idx as int)));
                    assert(j < j1 < ts.len());
                    assert(expr@ == SpecExpr::Call { callee: Box::new(prev), args: exprs_view(args@), span: Span { start: expr_span(prev).start, end: rparen@.span.end } });
                }
            } else {
                return Ok(expr);
            }
        }
    }

    /// Comma-separated call arguments.
    fn parse_args(&mut self) -> (r: Result<Vec<Expr>, ParseError>)
        ensures
            eof_from(final(self).toks(), final(self).pos()),
            final(self).tokens == old(self).tokens,
            exprs_result(r, final(self).idx as int) == args_at(old(self).toks(), old(self).idx as int),
            r is Ok ==> old(self).idx < final(self).idx,
        decreases old(self).tokens@.len() - old(self).idx, 8nat,
    {
        proof {
            use_type_invariant(&*self);
        }
        let ghost ts = self.toks();
        let ghost start = self.idx as int;
        let mut args: Vec<Expr> = Vec::new();
        loop
            invariant
                eof_from(self.toks(), self.idx as int),
                self.tokens == old(self).tokens,
                ts == self.toks(),
                start == old(self).idx,
                start <= self.idx,
                args@.len() == 0 ==> start == self.idx,
                args_at(ts, start) == prepend_result(exprs_view(args@), args_at(ts, self.idx as int)),
            decreases self.tokens@.len() - self.idx,
        {
            let a = self.parse_expr()?;
            let ghost old_args = args@;
            args.push(a);
            proof {
                lemma_exprs_view_push(old_args, a);
            }
            if is_kind(&self.current().kind, &TokenKind::Comma) {
                self.advance();
                proof {
                    match args_at(ts, self.idx as int) {
                        Ok((rest, k)) => {
                            assert(exprs_view(old_args) + (seq![a@] + rest) =~= exprs_view(args@) + rest);
                        },
                        Err(_) => {},
                    }
                }
            } else {
                proof {
                    assert(exprs_view(old_args) + seq![a@] =~= exprs_view(args@));
                }
                return Ok(args);
            }
        }
    }
}

// ------------------------------------------------------------------
// Laws
// ------------------------------------------------------------------

/// The tokens of a successful lexing can always be handed to the parser.
pub proof fn law_lexed_tokens_parse(cs: Seq<char>, i: int)
    requires
        0 <= i <= cs.len(),
    ensures
        lex_from(cs, i) matches Ok(ts) ==> well_terminated(ts),
{
    law_lex_ends_with_eof(cs, i);
    if let Ok(ts) = lex_from(cs, i) {
        assert(ts.last() == ts[ts.len() - 1]);
    }
}

/// `l op r`, spanning from the start of `l` to the end of `r`.
pub open spec fn binary(l: SpecExpr, op: BinaryOp, r: SpecExpr) -> SpecExpr {
    SpecExpr::Binary {
        left: Box::new(l),
        op,
        right: Box::new(r),
        span: Span { start: expr_span(l).start, end: expr_span(r).end },
    }
}

/// Whether in `a o1 b o2 c` the first operator takes `b`: it binds tighter, or
/// both are equally tight and group to the left.
pub open spec fn groups_first(o1: BinaryOp, o2: BinaryOp) -> bool {
    precedence_of(o1) > precedence_of(o2) || (precedence_of(o1) == precedence_of(o2) && !right_associative(o1))
}

/// Which operator of `a o1 b o2 c` takes `b`, operator by operator: the first
/// does exactly when the second is `+` or `-`, or when the first is not `+`
/// or `-` and the second is not `^`. So `a - b + c` is `(a - b) + c`,
/// `a + b * c` is `a + (b * c)`, `a * b / c` is `(a * b) / c` and
/// `a ^ b ^ c` is `a ^ (b ^ c)`.
pub proof fn law_grouping_table(o1: BinaryOp, o2: BinaryOp)
    ensures
        groups_first(o1, o2) <==> (
            (o2 == BinaryOp::Add || o2 == BinaryOp::Sub)
            || (o1 != BinaryOp::Add && o1 != BinaryOp::Sub && o2 != BinaryOp::Pow)
        ),
{
}

/// Operators bind by precedence, and operators of equal precedence group to
/// the left, except `^`, which groups to the right. For any three operands
/// `a`, `b`, `c` (each a prefix expression: a number, a name or call, a
/// parenthesized expression, or a signed one) joined by operators `o1` and
/// `o2` and followed by a token that is no operator, the expression is
/// `(a o1 b) o2 c` when `o1` binds tighter than `o2`, or equally tight and to
/// the left; otherwise it is `a o1 (b o2 c)`.
pub proof fn law_precedence(
    ts: Seq<SpecToken>,
    i: int,
    a: SpecExpr,
    o1: BinaryOp,
    j1: int,
    b: SpecExpr,
    o2: BinaryOp,
    j2: int,
    c: SpecExpr,
    j3: int,
)
    requires
        0 <= i,
        eof_from(ts, i),
        prefix_at(ts, i) == Ok::<(SpecExpr, int), SpecParseError>((a, j1)),
        binop_of(ts[j1].kind) == Some(o1),
        prefix_at(ts, j1 + 1) == Ok::<(SpecExpr, int), SpecParseError>((b, j2)),
        binop_of(ts[j2].kind) == Some(o2),
        prefix_at(ts, j2 + 1) == Ok::<(SpecExpr, int), SpecParseError>((c, j3)),
        binop_of(ts[j3].kind) is None,
    ensures
        expr_at(ts, i) == Ok::<(SpecExpr, int), SpecParseError>((
            if groups_first(o1, o2) {
                binary(binary(a, o1, b), o2, c)
            } else {
                binary(a, o1, binary(b, o2, c))
            },
            j3,
        )),
{
    lemma_prefix_progress(ts, i);
    lemma_next_pos(ts, j1);
    lemma_prefix_progress(ts, j1 + 1);
    lemma_next_pos(ts, j2);
    lemma_prefix_progress(ts, j2 + 1);
    let m1 = next_min(o1);
    let m2 = next_min(o2);
    assert(prec_loop(ts, c, j3, m2) == Ok::<(SpecExpr, int), SpecParseError>((c, j3)));
    assert(prec_at(ts, j2 + 1, m2) == Ok::<(SpecExpr, int), SpecParseError>((c, j3)));
    assert(binds(o1, 0));
    assert(binds(o2, 0));
    if groups_first(o1, o2) {
        assert(!binds(o2, m1));
        assert(prec_loop(ts, b, j2, m1) == Ok::<(SpecExpr, int), SpecParseError>((b, j2)));
        assert(prec_at(ts, j1 + 1, m1) == Ok::<(SpecExpr, int), SpecParseError>((b, j2)));
        let ab = binary(a, o1, b);
        let abc = binary(ab, o2, c);
        assert(prec_loop(ts, abc, j3, 0) == Ok::<(SpecExpr, int), SpecParseError>((abc, j3)));
        assert(prec_loop(ts, ab, j2, 0) == prec_loop(ts, abc, j3, 0));
        assert(prec_loop(ts, a, j1, 0) == prec_loop(ts, ab, j2, 0));
    } else {
        assert(binds(o2, m1));
        let bc = binary(b, o2, c);
        assert(prec_loop(ts, bc, j3, m1) == Ok::<(SpecExpr, int), SpecParseError>((bc, j3)));
        assert(prec_loop(ts, b, j2, m1) == prec_loop(ts, bc, j3, m1));
        assert(prec_at(ts, j1 + 1, m1) == Ok::<(SpecExpr, int), SpecParseError>((bc, j3)));
        let abc = binary(a, o1, bc);
        assert(prec_loop(ts, abc, j3, 0) == Ok::<(SpecExpr, int), SpecParseError>((abc, j3)));
        assert(prec_loop(ts, a, j1, 0) == prec_loop(ts, abc, j3, 0));
    }
    assert(prec_at(ts, i, 0) == prec_loop(ts, a, j1, 0));
}

/// A parenthesized expression is an operand: `( e )` reads as `e`, whatever
/// operators `e` contains, so parentheses group first.
pub proof fn law_parentheses(ts: Seq<SpecToken>, i: int, e: SpecExpr, k: int)
    requires
        0 <= i,
        eof_from(ts, i),
        ts[i].kind is LParen,
        expr_at(ts, i + 1) == Ok::<(SpecExpr, int), SpecParseError>((e, k)),
        ts[k].kind is RParen,
    ensures
        prefix_at(ts, i) == Ok::<(SpecExpr, int), SpecParseError>((e, k + 1)),
{
    lemma_next_pos(ts, i);
    lemma_expr_progress(ts, i + 1);
    lemma_next_pos(ts, k);
}

proof fn lemma_next_pos(ts: Seq<SpecToken>, i: int)
    requires
        0 <= i,
        eof_from(ts, i),
    ensures
        i <= next_pos(ts, i) < ts.len(),
        eof_from(ts, next_pos(ts, i)),
        !(ts[i].kind is Eof) ==> next_pos(ts, i) == i + 1,
{
    let k = choose|k: int| i <= k < ts.len() && (#[trigger] ts[k]).kind is Eof;
    if !(ts[i].kind is Eof) {
        assert(i < k);
    }
}

proof fn lemma_expect(ts: Seq<SpecToken>, i: int, expected: SpecTokenKind)
    requires
        0 <= i,
        eof_from(ts, i),
        !(expected is Eof),
    ensures
        expect_at(ts, i, expected) matches Ok((_, j)) ==> j == i + 1 && j < ts.len() && eof_from(ts, j),
{
    lemma_next_pos(ts, i);
}

proof fn lemma_stmt_end(ts: Seq<SpecToken>, e: SpecExpr, p: int)
    requires
        0 <= p,
        eof_from(ts, p),
    ensures
        p <= stmt_end(ts, e, p).1 < ts.len(),
{
    lemma_next_pos(ts, p);
}

proof fn lemma_program_progress(ts: Seq<SpecToken>, i: int)
    requires
        0 <= i,
        eof_from(ts, i),
    ensures
        program_at(ts, i) matches Ok((_, k)) ==> i <= k < ts.len() && eof_from(ts, k) && ts[k].kind is Eof,
    decreases ts.len() - i, 10nat,
{
    if !(ts[i].kind is Eof) {
        lemma_stmt_progress(ts, i);
        if let Ok((_, j)) = stmt_at(ts, i) {
            lemma_program_progress(ts, j);
        }
    }
}

proof fn lemma_stmt_progress(ts: Seq<SpecToken>, i: int)
    requires
        0 <= i,
        eof_from(ts, i),
    ensures
        stmt_at(ts, i) matches Ok((_, k)) ==> i < k < ts.len() && eof_from(ts, k),
    decreases ts.len() - i, 9nat,
{
    match ts[i].kind {
        SpecTokenKind::Let => lemma_let_progress(ts, i),
        SpecTokenKind::LBrace => lemma_block_progress(ts, i),
        _ => lemma_expr_stmt_progress(ts, i),
    }
}

proof fn lemma_let_progress(ts: Seq<SpecToken>, i: int)
    requires
        0 <= i,
        eof_from(ts, i),
    ensures
        let_at(ts, i) matches Ok((_, k)) ==> i < k < ts.len() && eof_from(ts, k),
    decreases ts.len() - i, 8nat,
{
    lemma_expect(ts, i, SpecTokenKind::Let);
    if let Ok((_, j)) = expect_at(ts, i, SpecTokenKind::Let) {
        if let SpecTokenKind::Identifier(_) = ts[j].kind {
            lemma_next_pos(ts, j);
            lemma_expect(ts, next_pos(ts, j), SpecTokenKind::Assign);
            if let Ok((_, m)) = expect_at(ts, next_pos(ts, j), SpecTokenKind::Assign) {
                lemma_expr_progress(ts, m);
                if let Ok((e, p)) = expr_at(ts, m) {
                    lemma_stmt_end(ts, e, p);
                }
            }
        }
    }
}

proof fn lemma_block_progress(ts: Seq<SpecToken>, i: int)
    requires
        0 <= i,
        eof_from(ts, i),
    ensures
        block_at(ts, i) matches Ok((_, k)) ==> i < k < ts.len() && eof_from(ts, k),
    decreases ts.len() - i, 8nat,
{
    lemma_expect(ts, i, SpecTokenKind::LBrace);
    if let Ok((_, j)) = expect_at(ts, i, SpecTokenKind::LBrace) {
        lemma_items_progress(ts, j);
        if let Ok((_, k)) = block_items_at(ts, j) {
            lemma_expect(ts, k, SpecTokenKind::RBrace);
        }
    }
}

proof fn lemma_items_progress(ts: Seq<SpecToken>, i: int)
    requires
        0 <= i,
        eof_from(ts, i),
    ensures
        block_items_at(ts, i) matches Ok((_, k)) ==> i <= k < ts.len() && eof_from(ts, k),
    decreases ts.len() - i, 10nat,
{
    if !(ts[i].kind is RBrace || ts[i].kind is Eof) {
        lemma_stmt_progress(ts, i);
        if let Ok((_, j)) = stmt_at(ts, i) {
            lemma_items_progress(ts, j);
        }
    }
}

proof fn lemma_expr_stmt_progress(ts: Seq<SpecToken>, i: int)
    requires
        0 <= i,
        eof_from(ts, i),
    ensures
        expr_stmt_at(ts, i) matches Ok((_, k)) ==> i < k < ts.len() && eof_from(ts, k),
    decreases ts.len() - i, 8nat,
{
    lemma_expr_progress(ts, i);
    if let Ok((e, j)) = expr_at(ts, i) {
        lemma_stmt_end(ts, e, j);
        if let SpecExpr::Ident(_, _) = e {
            if ts[j].kind is Assign {
                lemma_next_pos(ts, j);
                let m = next_pos(ts, j);
                lemma_expr_progress(ts, m);
                if let Ok((rhs, p)) = expr_at(ts, m) {
                    lemma_stmt_end(ts, rhs, p);
                }
            }
        }
    }
}

proof fn lemma_expr_progress(ts: Seq<SpecToken>, i: int)
    requires
        0 <= i,
        eof_from(ts, i),
    ensures
        expr_at(ts, i) matches Ok((_, k)) ==> i < k < ts.len() && eof_from(ts, k),
    decreases ts.len() - i, 7nat,
{
    lemma_prec_progress(ts, i, 0);
}

proof fn lemma_prec_progress(ts: Seq<SpecToken>, i: int, min: u8)
    requires
        0 <= i,
        eof_from(ts, i),
    ensures
        prec_at(ts, i, min) matches Ok((_, k)) ==> i < k < ts.len() && eof_from(ts, k),
    decreases ts.len() - i, 6nat,
{
    lemma_prefix_progress(ts, i);
    if let Ok((lhs, j)) = prefix_at(ts, i) {
        lemma_prec_loop_progress(ts, lhs, j, min);
    }
}

proof fn lemma_prec_loop_progress(ts: Seq<SpecToken>, lhs: SpecExpr, j: int, min: u8)
    requires
        0 <= j,
        eof_from(ts, j),
    ensures
        prec_loop(ts, lhs, j, min) matches Ok((_, k)) ==> j <= k < ts.len() && eof_from(ts, k),
    decreases ts.len() - j, 6nat,
{
    if let Some(op) = binop_of(ts[j].kind) {
        if binds(op, min) {
            lemma_next_pos(ts, j);
            let j1 = next_pos(ts, j);
            lemma_prec_progress(ts, j1, next_min(op));
            if let Ok((rhs, k)) = prec_at(ts, j1, next_min(op)) {
                lemma_prec_loop_progress(
                    ts,
                    SpecExpr::Binary {
                        left: Box::new(lhs),
                        op,
                        right: Box::new(rhs),
                        span: Span { start: expr_span(lhs).start, end: expr_span(rhs).end },
                    },
                    k,
                    min,
                );
            }
        }
    }
}

proof fn lemma_prefix_progress(ts: Seq<SpecToken>, i: int)
    requires
        0 <= i,
        eof_from(ts, i),
    ensures
        prefix_at(ts, i) matches Ok((_, k)) ==> i < k < ts.len() && eof_from(ts, k),
    decreases ts.len() - i, 5nat,
{
    lemma_next_pos(ts, i);
    let j = next_pos(ts, i);
    match ts[i].kind {
        SpecTokenKind::Plus => lemma_unary_progress(ts, i, UnaryOp::Plus),
        SpecTokenKind::Minus => lemma_unary_progress(ts, i, UnaryOp::Minus),
        SpecTokenKind::Identifier(n) => lemma_postfix_progress(ts, SpecExpr::Ident(n, ts[i].span), j),
        SpecTokenKind::LParen => {
            lemma_expr_progress(ts, j);
            if let Ok((_, k)) = expr_at(ts, j) {
                lemma_expect(ts, k, SpecTokenKind::RParen);
            }
        },
        _ => {},
    }
}

proof fn lemma_unary_progress(ts: Seq<SpecToken>, i: int, op: UnaryOp)
    requires
        0 <= i,
        eof_from(ts, i),
    ensures
        unary_at(ts, i, op) matches Ok((_, k)) ==> i < k < ts.len() && eof_from(ts, k),
    decreases ts.len() - i, 4nat,
{
    lemma_next_pos(ts, i);
    let j = next_pos(ts, i);
    if i < j {
        lemma_prefix_progress(ts, j);
    }
}

proof fn lemma_postfix_progress(ts: Seq<SpecToken>, e: SpecExpr, j: int)
    requires
        0 <= j,
        eof_from(ts, j),
    ensures
        postfix_at(ts, e, j) matches Ok((_, k)) ==> j <= k < ts.len() && eof_from(ts, k),
    decreases ts.len() - j, 5nat,
{
    if ts[j].kind is LParen {
        lemma_next_pos(ts, j);
        let j1 = next_pos(ts, j);
        if !(ts[j1].kind is RParen) {
            lemma_args_progress(ts, j1);
        }
        let args = if ts[j1].kind is RParen {
            Ok::<(Seq<SpecExpr>, int), SpecParseError>((seq![], j1))
        } else {
            args_at(ts, j1)
        };
        if let Ok((a, k)) = args {
            lemma_expect(ts, k, SpecTokenKind::RParen);
            if let Ok((rp, m)) = expect_at(ts, k, SpecTokenKind::RParen) {
                lemma_postfix_progress(
                    ts,
                    SpecExpr::Call { callee: Box::new(e), args: a, span: Span { start: expr_span(e).start, end: rp.span.end } },
                    m,
                );
            }
        }
    }
}

proof fn lemma_args_progress(ts: Seq<SpecToken>, i: int)
    requires
        0 <= i,
        eof_from(ts, i),
    ensures
        args_at(ts, i) matches Ok((_, k)) ==> i < k < ts.len() && eof_from(ts, k),
    decreases ts.len() - i, 8nat,
{
    lemma_expr_progress(ts, i);
    if let Ok((_, m)) = expr_at(ts, i) {
        if ts[m].kind is Comma {
            lemma_next_pos(ts, m);
            lemma_args_progress(ts, next_pos(ts, m));
        }
    }
}

/// On tokens that end with `Eof` the parser always moves forward: a statement,
/// an expression or a call's argument list that parses consumes at least one
/// token and stops on a token of the sequence, and a whole program stops on an
/// `Eof`.
pub proof fn law_parser_progress(ts: Seq<SpecToken>, i: int)
    requires
        0 <= i,
        eof_from(ts, i),
    ensures
        program_at(ts, i) matches Ok((_, k)) ==> i <= k < ts.len() && eof_from(ts, k) && ts[k].kind is Eof,
        stmt_at(ts, i) matches Ok((_, k)) ==> i < k < ts.len() && eof_from(ts, k),
        expr_at(ts, i) matches Ok((_, k)) ==> i < k < ts.len() && eof_from(ts, k),
        args_at(ts, i) matches Ok((_, k)) ==> i < k < ts.len() && eof_from(ts, k),
{
    lemma_program_progress(ts, i);
    lemma_stmt_progress(ts, i);
    lemma_expr_progress(ts, i);
    lemma_args_progress(ts, i);
}

} // verus!
