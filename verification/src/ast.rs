//! The syntax tree of expressions and statements, and its mathematical model.
use vstd::prelude::*;
use crate::span::Span;

verus! {

/// Binary operators, with precedence and associativity.
#[derive(Debug, Clone, Copy, PartialEq, Eq)]
pub enum BinaryOp {
    Add,
    Sub,
    Mul,
    Div,
    Mod,
    Pow,
}

/// Precedence of a binary operator: a higher value binds tighter.
pub open spec fn precedence_of(op: BinaryOp) -> u8 {
    match op {
        BinaryOp::Add | BinaryOp::Sub => 10,
        BinaryOp::Mul | BinaryOp::Div | BinaryOp::Mod => 20,
        BinaryOp::Pow => 30,
    }
}

/// Whether an operator groups to the right (`^` does, the others group to the left).
pub open spec fn right_associative(op: BinaryOp) -> bool {
    op == BinaryOp::Pow
}

impl BinaryOp {
    /// Precedence: a higher value binds tighter.
    pub fn precedence(&self) -> (p: u8)
        ensures
            p == precedence_of(*self),
    {
        match self {
            BinaryOp::Add | BinaryOp::Sub => 10,
            BinaryOp::Mul | BinaryOp::Div | BinaryOp::Mod => 20,
            BinaryOp::Pow => 30,
        }
    }

    /// True if the operator is right-associative (exponentiation).
    pub fn is_right_associative(&self) -> (r: bool)
        ensures
            r == right_associative(*self),
    {
        match self {
            BinaryOp::Pow => true,
            _ => false,
        }
    }
}

/// The precedence table: `+` and `-` bind alike and loosest, `*`, `/` and `%`
/// alike and tighter, `^` tightest; only `^` groups to the right.
pub proof fn law_precedence_table()
    ensures
        precedence_of(BinaryOp::Add) == 10,
        precedence_of(BinaryOp::Sub) == precedence_of(BinaryOp::Add),
        precedence_of(BinaryOp::Mul) == 20,
        precedence_of(BinaryOp::Div) == precedence_of(BinaryOp::Mul),
        precedence_of(BinaryOp::Mod) == precedence_of(BinaryOp::Mul),
        precedence_of(BinaryOp::Pow) == 30,
        precedence_of(BinaryOp::Add) < precedence_of(BinaryOp::Mul) < precedence_of(BinaryOp::Pow),
        forall|op: BinaryOp| right_associative(op) <==> op == BinaryOp::Pow,
{
}

/// Prefix operators.
#[derive(Debug, Clone, Copy, PartialEq, Eq)]
pub enum UnaryOp {
    Plus,
    Minus,
}

/// Expressions. A number keeps the literal text it was written with.
#[derive(Debug)]
pub enum Expr {
    Number(String, Span),
    Ident(String, Span),
    Unary { op: UnaryOp, expr: Box<Expr>, span: Span },
    Binary { left: Box<Expr>, op: BinaryOp, right: Box<Expr>, span: Span },
    Call { callee: Box<Expr>, args: Vec<Expr>, span: Span },
}

/// The model of an expression: names and literals as character sequences.
pub enum SpecExpr {
    Number(Seq<char>, Span),
    Ident(Seq<char>, Span),
    Unary { op: UnaryOp, expr: Box<SpecExpr>, span: Span },
    Binary { left: Box<SpecExpr>, op: BinaryOp, right: Box<SpecExpr>, span: Span },
    Call { callee: Box<SpecExpr>, args: Seq<SpecExpr>, span: Span },
}

pub open spec fn expr_view(e: Expr) -> SpecExpr
    decreases e,
{
    match e {
        Expr::Number(s, sp) => SpecExpr::Number(s@, sp),
        Expr::Ident(s, sp) => SpecExpr::Ident(s@, sp),
        Expr::Unary { op, expr, span } => SpecExpr::Unary { op, expr: Box::new(expr_view(*expr)), span },
        Expr::Binary { left, op, right, span } => SpecExpr::Binary {
            left: Box::new(expr_view(*left)),
            op,
            right: Box::new(expr_view(*right)),
            span,
        },
        Expr::Call { callee, args, span } => SpecExpr::Call {
            callee: Box::new(expr_view(*callee)),
            args: exprs_view(args@),
            span,
        },
    }
}

pub open spec fn exprs_view(es: Seq<Expr>) -> Seq<SpecExpr>
    decreases es,
{
    if es.len() == 0 {
        seq![]
    } else {
        exprs_view(es.drop_last()).push(expr_view(es.last()))
    }
}

impl View for Expr {
    type V = SpecExpr;

    open spec fn view(&self) -> SpecExpr {
        expr_view(*self)
    }
}

/// The span of an expression.
pub open spec fn expr_span(e: SpecExpr) -> Span {
    match e {
        SpecExpr::Number(_, s) => s,
        SpecExpr::Ident(_, s) => s,
        SpecExpr::Unary { span, .. } => span,
        SpecExpr::Binary { span, .. } => span,
        SpecExpr::Call { span, .. } => span,
    }
}

impl Expr {
    pub fn span(&self) -> (s: Span)
        ensures
            s == expr_span(self@),
    {
        match self {
            Expr::Number(_, s) => *s,
            Expr::Ident(_, s) => *s,
            Expr::Unary { span, .. } => *span,
            Expr::Binary { span, .. } => *span,
            Expr::Call { span, .. } => *span,
        }
    }
}

/// Statements.
#[derive(Debug)]
pub enum Stmt {
    Let { name: String, expr: Expr, span: Span },
    Assign { name: String, expr: Expr, span: Span },
    ExprStmt { expr: Expr, span: Span },
    Block { stmts: Vec<Stmt>, span: Span },
}

/// The model of a statement.
pub enum SpecStmt {
    Let { name: Seq<char>, expr: SpecExpr, span: Span },
    Assign { name: Seq<char>, expr: SpecExpr, span: Span },
    ExprStmt { expr: SpecExpr, span: Span },
    Block { stmts: Seq<SpecStmt>, span: Span },
}

pub open spec fn stmt_view(s: Stmt) -> SpecStmt
    decreases s,
{
    match s {
        Stmt::Let { name, expr, span } => SpecStmt::Let { name: name@, expr: expr@, span },
        Stmt::Assign { name, expr, span } => SpecStmt::Assign { name: name@, expr: expr@, span },
        Stmt::ExprStmt { expr, span } => SpecStmt::ExprStmt { expr: expr@, span },
        Stmt::Block { stmts, span } => SpecStmt::Block { stmts: stmts_view(stmts@), span },
    }
}

pub open spec fn stmts_view(ss: Seq<Stmt>) -> Seq<SpecStmt>
    decreases ss,
{
    if ss.len() == 0 {
        seq![]
    } else {
        stmts_view(ss.drop_last()).push(stmt_view(ss.last()))
    }
}

impl View for Stmt {
    type V = SpecStmt;

    open spec fn view(&self) -> SpecStmt {
        stmt_view(*self)
    }
}

/// The span of a statement.
pub open spec fn stmt_span(s: SpecStmt) -> Span {
    match s {
        SpecStmt::Let { span, .. } => span,
        SpecStmt::Assign { span, .. } => span,
        SpecStmt::ExprStmt { span, .. } => span,
        SpecStmt::Block { span, .. } => span,
    }
}

impl Stmt {
    pub fn span(&self) -> (s: Span)
        ensures
            s == stmt_span(self@),
    {
        match self {
            Stmt::Let { span, .. } => *span,
            Stmt::Assign { span, .. } => *span,
            Stmt::ExprStmt { span, .. } => *span,
            Stmt::Block { span, .. } => *span,
        }
    }
}

pub proof fn lemma_exprs_view_push(es: Seq<Expr>, e: Expr)
    ensures
        exprs_view(es.push(e)) == exprs_view(es).push(e@),
{
    assert(es.push(e).drop_last() =~= es);
}

pub proof fn lemma_stmts_view_push(ss: Seq<Stmt>, s: Stmt)
    ensures
        stmts_view(ss.push(s)) == stmts_view(ss).push(s@),
{
    assert(ss.push(s).drop_last() =~= ss);
}

impl Clone for Expr {
    /// A deep copy, equal in its model.
    #[verifier::loop_isolation(false)]
    fn clone(&self) -> (r: Self)
        ensures
            r@ == self@,
        decreases self,
    {
        match self {
            Expr::Number(t, s) => Expr::Number(t.clone(), *s),
            Expr::Ident(n, s) => Expr::Ident(n.clone(), *s),
            Expr::Unary { op, expr, span } => Expr::Unary { op: *op, expr: Box::new((**expr).clone()), span: *span },
            Expr::Binary { left, op, right, span } => Expr::Binary {
                left: Box::new((**left).clone()),
                op: *op,
                right: Box::new((**right).clone()),
                span: *span,
            },
            Expr::Call { callee, args, span } => {
                let mut copied: Vec<Expr> = Vec::new();
                let mut i: usize = 0;
                while i < args.len()
                    invariant
                        i <= args@.len(),
                        exprs_view(copied@) == exprs_view(args@.take(i as int)),
                    decreases args@.len() - i,
                {
                    let a = Expr::clone(&args[i]);
                    let ghost before = copied@;
                    copied.push(a);
                    proof {
                        lemma_exprs_view_push(before, a);
                        assert(args@.take(i + 1).drop_last() =~= args@.take(i as int));
                    }
                    i += 1;
                }
                proof {
                    assert(args@.take(args@.len() as int) =~= args@);
                }
                Expr::Call { callee: Box::new((**callee).clone()), args: copied, span: *span }
            },
        }
    }
}

impl Clone for Stmt {
    /// A deep copy, equal in its model.
    #[verifier::loop_isolation(false)]
    fn clone(&self) -> (r: Self)
        ensures
            r@ == self@,
        decreases self,
    {
        match self {
            Stmt::Let { name, expr, span } => Stmt::Let { name: name.clone(), expr: expr.clone(), span: *span },
            Stmt::Assign { name, expr, span } => Stmt::Assign { name: name.clone(), expr: expr.clone(), span: *span },
            Stmt::ExprStmt { expr, span } => Stmt::ExprStmt { expr: expr.clone(), span: *span },
            Stmt::Block { stmts, span } => {
                let mut copied: Vec<Stmt> = Vec::new();
                let mut i: usize = 0;
                while i < stmts.len()
                    invariant
                        i <= stmts@.len(),
                        stmts_view(copied@) == stmts_view(stmts@.take(i as int)),
                    decreases stmts@.len() - i,
                {
                    let a = Stmt::clone(&stmts[i]);
                    let ghost before = copied@;
                    copied.push(a);
                    proof {
                        lemma_stmts_view_push(before, a);
                        assert(stmts@.take(i + 1).drop_last() =~= stmts@.take(i as int));
                    }
                    i += 1;
                }
                proof {
                    assert(stmts@.take(stmts@.len() as int) =~= stmts@);
                }
                Stmt::Block { stmts: copied, span: *span }
            },
        }
    }
}

} // verus!
