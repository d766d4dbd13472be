//! An indented, one-node-per-line rendering of the syntax tree.
use vstd::prelude::*;
use crate::ast::{BinaryOp, UnaryOp, Expr, SpecExpr, Stmt, SpecStmt, exprs_view, stmts_view};
use crate::text::{push_str, push_char};

verus! {

/// Two spaces per level of indentation.
pub open spec fn pad(indent: nat) -> Seq<char> {
    Seq::new(2 * indent, |_i: int| ' ')
}

pub open spec fn unary_name(op: UnaryOp) -> Seq<char> {
    match op {
        UnaryOp::Plus => "Plus"@,
        UnaryOp::Minus => "Minus"@,
    }
}

pub open spec fn binary_name(op: BinaryOp) -> Seq<char> {
    match op {
        BinaryOp::Add => "Add"@,
        BinaryOp::Sub => "Sub"@,
        BinaryOp::Mul => "Mul"@,
        BinaryOp::Div => "Div"@,
        BinaryOp::Mod => "Mod"@,
        BinaryOp::Pow => "Pow"@,
    }
}

/// Nesting depth of an expression: 0 for a number or a name.
pub open spec fn expr_depth(e: SpecExpr) -> nat
    decreases e,
{
    match e {
        SpecExpr::Number(..) => 0,
        SpecExpr::Ident(..) => 0,
        SpecExpr::Unary { expr, .. } => 1 + expr_depth(*expr),
        SpecExpr::Binary { left, right, .. } => 1 + if expr_depth(*left) >= expr_depth(*right) {
            expr_depth(*left)
        } else {
            expr_depth(*right)
        },
        SpecExpr::Call { callee, args, .. } => 1 + if expr_depth(*callee) >= exprs_depth(args) {
            expr_depth(*callee)
        } else {
            exprs_depth(args)
        },
    }
}

/// The largest depth among `es`.
pub open spec fn exprs_depth(es: Seq<SpecExpr>) -> nat
    decreases es,
{
    if es.len() == 0 {
        0
    } else {
        let a = exprs_depth(es.drop_last());
        let b = expr_depth(es.last());
        if a >= b {
            a
        } else {
            b
        }
    }
}

/// Nesting depth of a statement.
pub open spec fn stmt_depth(s: SpecStmt) -> nat
    decreases s,
{
    match s {
        SpecStmt::Let { expr, .. } => 1 + expr_depth(expr),
        SpecStmt::Assign { expr, .. } => 1 + expr_depth(expr),
        SpecStmt::ExprStmt { expr, .. } => 1 + expr_depth(expr),
        SpecStmt::Block { stmts, .. } => 1 + stmts_depth(stmts),
    }
}

pub open spec fn stmts_depth(ss: Seq<SpecStmt>) -> nat
    decreases ss,
{
    if ss.len() == 0 {
        0
    } else {
        let a = stmts_depth(ss.drop_last());
        let b = stmt_depth(ss.last());
        if a >= b {
            a
        } else {
            b
        }
    }
}

/// Each operator is shown under its own name, spelled out here character by
/// character, and no two operators share a name.
pub proof fn law_operator_names(o1: BinaryOp, o2: BinaryOp, u1: UnaryOp, u2: UnaryOp)
    ensures
        binary_name(BinaryOp::Add) == seq!['A', 'd', 'd'],
        binary_name(BinaryOp::Sub) == seq!['S', 'u', 'b'],
        binary_name(BinaryOp::Mul) == seq!['M', 'u', 'l'],
        binary_name(BinaryOp::Div) == seq!['D', 'i', 'v'],
        binary_name(BinaryOp::Mod) == seq!['M', 'o', 'd'],
        binary_name(BinaryOp::Pow) == seq!['P', 'o', 'w'],
        unary_name(UnaryOp::Plus) == seq!['P', 'l', 'u', 's'],
        unary_name(UnaryOp::Minus) == seq!['M', 'i', 'n', 'u', 's'],
        binary_name(o1) == binary_name(o2) ==> o1 == o2,
        unary_name(u1) == unary_name(u2) ==> u1 == u2,
{
    reveal_strlit("Add");
    reveal_strlit("Sub");
    reveal_strlit("Mul");
    reveal_strlit("Div");
    reveal_strlit("Mod");
    reveal_strlit("Pow");
    reveal_strlit("Plus");
    reveal_strlit("Minus");
    assert("Add"@ =~= seq!['A', 'd', 'd']);
    assert("Sub"@ =~= seq!['S', 'u', 'b']);
    assert("Mul"@ =~= seq!['M', 'u', 'l']);
    assert("Div"@ =~= seq!['D', 'i', 'v']);
    assert("Mod"@ =~= seq!['M', 'o', 'd']);
    assert("Pow"@ =~= seq!['P', 'o', 'w']);
    assert("Plus"@ =~= seq!['P', 'l', 'u', 's']);
    assert("Minus"@ =~= seq!['M', 'i', 'n', 'u', 's']);
}

/// The rendering of an expression at `indent`: one line per node, children one level deeper.
pub open spec fn pretty_expr(e: SpecExpr, indent: nat) -> Seq<char>
    decreases e,
{
    match e {
        SpecExpr::Number(t, _) => pad(indent) + "Number("@ + t + ")\n"@,
        SpecExpr::Ident(n, _) => pad(indent) + "Ident("@ + n + ")\n"@,
        SpecExpr::Unary { op, expr, .. } => pad(indent) + "Unary("@ + unary_name(op) + ")\n"@ + pretty_expr(
            *expr,
            indent + 1,
        ),
        SpecExpr::Binary { left, op, right, .. } => pad(indent) + "Binary("@ + binary_name(op) + ")\n"@
            + pretty_expr(*left, indent + 1) + pretty_expr(*right, indent + 1),
        SpecExpr::Call { callee, args, .. } => pad(indent) + "Call:\n"@ + pretty_expr(*callee, indent + 1)
            + pretty_exprs(args, indent + 1),
    }
}

/// Two binary expressions that differ in their operator print differently,
/// whatever their operands: the node's line names the operator.
pub proof fn law_pretty_shows_operator(
    l1: SpecExpr, r1: SpecExpr, s1: crate::span::Span, o1: BinaryOp,
    l2: SpecExpr, r2: SpecExpr, s2: crate::span::Span, o2: BinaryOp,
    indent: nat,
)
    requires
        o1 != o2,
    ensures
        pretty_expr(SpecExpr::Binary { left: Box::new(l1), op: o1, right: Box::new(r1), span: s1 }, indent)
            != pretty_expr(SpecExpr::Binary { left: Box::new(l2), op: o2, right: Box::new(r2), span: s2 }, indent),
{
    let p1 = pretty_expr(SpecExpr::Binary { left: Box::new(l1), op: o1, right: Box::new(r1), span: s1 }, indent);
    let p2 = pretty_expr(SpecExpr::Binary { left: Box::new(l2), op: o2, right: Box::new(r2), span: s2 }, indent);
    law_operator_names(o1, o2, UnaryOp::Plus, UnaryOp::Plus);
    reveal_strlit("Binary(");
    let h = pad(indent) + "Binary("@;
    let a = h.len() as int;
    assert(binary_name(o1).len() == 3);
    assert(binary_name(o2).len() == 3);
    if p1 == p2 {
        assert(p1.subrange(a, a + 3) =~= binary_name(o1));
        assert(p2.subrange(a, a + 3) =~= binary_name(o2));
    }
}

pub open spec fn pretty_exprs(es: Seq<SpecExpr>, indent: nat) -> Seq<char>
    decreases es,
{
    if es.len() == 0 {
        seq![]
    } else {
        pretty_exprs(es.drop_last(), indent) + pretty_expr(es.last(), indent)
    }
}

/// The rendering of a statement at `indent`.
pub open spec fn pretty_stmt(s: SpecStmt, indent: nat) -> Seq<char>
    decreases s,
{
    match s {
        SpecStmt::Let { name, expr, .. } => pad(indent) + "Let "@ + name + " =\n"@ + pretty_expr(expr, indent + 1),
        SpecStmt::Assign { name, expr, .. } => pad(indent) + "Assign "@ + name + " =\n"@ + pretty_expr(
            expr,
            indent + 1,
        ),
        SpecStmt::ExprStmt { expr, .. } => pad(indent) + "ExprStmt:\n"@ + pretty_expr(expr, indent + 1),
        SpecStmt::Block { stmts, .. } => pad(indent) + "Block {\n"@ + pretty_stmts(stmts, indent + 1) + pad(indent)
            + "}\n"@,
    }
}

pub open spec fn pretty_stmts(ss: Seq<SpecStmt>, indent: nat) -> Seq<char>
    decreases ss,
{
    if ss.len() == 0 {
        seq![]
    } else {
        pretty_stmts(ss.drop_last(), indent) + pretty_stmt(ss.last(), indent)
    }
}

fn push_pad(out: &mut String, indent: usize)
    ensures
        final(out)@ == old(out)@ + pad(indent as nat),
{
    let mut k: usize = 0;
    while k < indent
        invariant
            k <= indent,
            out@ == old(out)@ + pad(k as nat),
        decreases indent - k,
    {
        push_char(out, ' ');
        push_char(out, ' ');
        k += 1;
        assert(out@ =~= old(out)@ + pad(k as nat));
    }
}

proof fn lemma_exprs_prefix(es: Seq<Expr>, i: int)
    requires
        0 <= i < es.len(),
    ensures
        exprs_view(es.take(i + 1)) == exprs_view(es.take(i)).push(es[i]@),
        exprs_view(es.take(i + 1)).len() == i + 1,
{
    assert(es.take(i + 1).drop_last() =~= es.take(i));
    lemma_exprs_view_len(es.take(i + 1));
}

proof fn lemma_exprs_view_len(es: Seq<Expr>)
    ensures
        exprs_view(es).len() == es.len(),
    decreases es.len(),
{
    if es.len() > 0 {
        lemma_exprs_view_len(es.drop_last());
    }
}

proof fn lemma_exprs_view_index(es: Seq<Expr>, i: int)
    requires
        0 <= i < es.len(),
    ensures
        exprs_view(es)[i] == es[i]@,
    decreases es.len(),
{
    lemma_exprs_view_len(es.drop_last());
    if i < es.len() - 1 {
        lemma_exprs_view_index(es.drop_last(), i);
    }
}

proof fn lemma_exprs_depth(es: Seq<SpecExpr>, i: int)
    requires
        0 <= i < es.len(),
    ensures
        expr_depth(es[i]) <= exprs_depth(es),
    decreases es.len(),
{
    if i < es.len() - 1 {
        lemma_exprs_depth(es.drop_last(), i);
    }
}

proof fn lemma_stmts_view_len(ss: Seq<Stmt>)
    ensures
        stmts_view(ss).len() == ss.len(),
    decreases ss.len(),
{
    if ss.len() > 0 {
        lemma_stmts_view_len(ss.drop_last());
    }
}

proof fn lemma_stmts_view_index(ss: Seq<Stmt>, i: int)
    requires
        0 <= i < ss.len(),
    ensures
        stmts_view(ss)[i] == ss[i]@,
    decreases ss.len(),
{
    lemma_stmts_view_len(ss.drop_last());
    if i < ss.len() - 1 {
        lemma_stmts_view_index(ss.drop_last(), i);
    }
}

proof fn lemma_stmts_depth(ss: Seq<SpecStmt>, i: int)
    requires
        0 <= i < ss.len(),
    ensures
        stmt_depth(ss[i]) <= stmts_depth(ss),
    decreases ss.len(),
{
    if i < ss.len() - 1 {
        lemma_stmts_depth(ss.drop_last(), i);
    }
}

#[verifier::loop_isolation(false)]
#[verifier::rlimit(40)]
fn write_expr(out: &mut String, expr: &Expr, indent: usize)
    requires
        indent + expr_depth(expr@) < usize::MAX,
    ensures
        final(out)@ == old(out)@ + pretty_expr(expr@, indent as nat),
    decreases expr,
{
    push_pad(out, indent);
    match expr {
        Expr::Number(t, _) => {
            push_str(out, "Number(");
            push_str(out, t.as_str());
            push_str(out, ")\n");
        },
        Expr::Ident(n, _) => {
            push_str(out, "Ident(");
            push_str(out, n.as_str());
            push_str(out, ")\n");
        },
        Expr::Unary { op, expr: inner, .. } => {
            match op {
                UnaryOp::Plus => push_str(out, "Unary(Plus)\n"),
                UnaryOp::Minus => push_str(out, "Unary(Minus)\n"),
            }
            proof {
                reveal_strlit("Unary(Plus)\n");
                reveal_strlit("Unary(Minus)\n");
                reveal_strlit("Unary(");
                reveal_strlit("Plus");
                reveal_strlit("Minus");
                reveal_strlit(")\n");
            }
            write_expr(out, inner, indent + 1);
        },
        Expr::Binary { left, op, right, .. } => {
            push_str(out, "Binary(");
            match op {
                BinaryOp::Add => push_str(out, "Add"),
                BinaryOp::Sub => push_str(out, "Sub"),
                BinaryOp::Mul => push_str(out, "Mul"),
                BinaryOp::Div => push_str(out, "Div"),
                BinaryOp::Mod => push_str(out, "Mod"),
                BinaryOp::Pow => push_str(out, "Pow"),
            }
            push_str(out, ")\n");
            write_expr(out, left, indent + 1);
            write_expr(out, right, indent + 1);
        },
        Expr::Call { callee, args, .. } => {
            push_str(out, "Call:\n");
            write_expr(out, callee, indent + 1);
            let ghost before = out@;
            let mut i: usize = 0;
            while i < args.len()
                invariant
                    i <= args@.len(),
                    indent + 1 + exprs_depth(exprs_view(args@)) < usize::MAX,
                    out@ == before + pretty_exprs(exprs_view(args@.take(i as int)), (indent + 1) as nat),
                decreases args@.len() - i,
            {
                proof {
                    lemma_exprs_prefix(args@, i as int);
                    lemma_exprs_view_len(args@);
                    lemma_exprs_view_index(args@, i as int);
                    lemma_exprs_depth(exprs_view(args@), i as int);
                }
                write_expr(out, &args[i], indent + 1);
                i += 1;
                proof {
                    let p = exprs_view(args@.take(i as int));
                    assert(p.drop_last() == exprs_view(args@.take(i - 1)));
                }
            }
            proof {
                assert(args@.take(args@.len() as int) =~= args@);
            }
        },
    }
    assert(final(out)@ =~= old(out)@ + pretty_expr(expr@, indent as nat));
}

#[verifier::loop_isolation(false)]
fn write_stmt(out: &mut String, stmt: &Stmt, indent: usize)
    requires
        indent + stmt_depth(stmt@) < usize::MAX,
    ensures
        final(out)@ == old(out)@ + pretty_stmt(stmt@, indent as nat),
    decreases stmt,
{
    push_pad(out, indent);
    match stmt {
        Stmt::Let { name, expr, .. } => {
            push_str(out, "Let ");
            push_str(out, name.as_str());
            push_str(out, " =\n");
            write_expr(out, expr, indent + 1);
        },
        Stmt::Assign { name, expr, .. } => {
            push_str(out, "Assign ");
            push_str(out, name.as_str());
            push_str(out, " =\n");
            write_expr(out, expr, indent + 1);
        },
        Stmt::ExprStmt { expr, .. } => {
            push_str(out, "ExprStmt:\n");
            write_expr(out, expr, indent + 1);
        },
        Stmt::Block { stmts, .. } => {
            push_str(out, "Block {\n");
            let ghost before = out@;
            let mut i: usize = 0;
            while i < stmts.len()
                invariant
                    i <= stmts@.len(),
                    indent + 1 + stmts_depth(stmts_view(stmts@)) < usize::MAX,
                    out@ == before + pretty_stmts(stmts_view(stmts@.take(i as int)), (indent + 1) as nat),
                decreases stmts@.len() - i,
            {
                proof {
                    assert(stmts@.take(i + 1).drop_last() =~= stmts@.take(i as int));
                    lemma_stmts_view_len(stmts@);
                    lemma_stmts_view_len(stmts@.take(i + 1));
                    lemma_stmts_view_index(stmts@, i as int);
                    lemma_stmts_depth(stmts_view(stmts@), i as int);
                }
                write_stmt(out, &stmts[i], indent + 1);
                i += 1;
                proof {
                    let p = stmts_view(stmts@.take(i as int));
                    assert(p.drop_last() == stmts_view(stmts@.take(i - 1)));
                }
            }
            proof {
                assert(stmts@.take(stmts@.len() as int) =~= stmts@);
            }
            push_pad(out, indent);
            push_str(out, "}\n");
        },
    }
    assert(final(out)@ =~= old(out)@ + pretty_stmt(stmt@, indent as nat));
}

/// The rendering of a statement at `indent`.
pub fn pretty_print_stmt(stmt: &Stmt, indent: usize) -> (r: String)
    requires
        indent + stmt_depth(stmt@) < usize::MAX,
    ensures
        r@ == pretty_stmt(stmt@, indent as nat),
{
    let mut out = String::new();
    write_stmt(&mut out, stmt, indent);
    assert(out@ =~= pretty_stmt(stmt@, indent as nat));
    out
}

/// The rendering of an expression at `indent`.
pub fn pretty_print_expr(expr: &Expr, indent: usize) -> (r: String)
    requires
        indent + expr_depth(expr@) < usize::MAX,
    ensures
        r@ == pretty_expr(expr@, indent as nat),
{
    let mut out = String::new();
    write_expr(&mut out, expr, indent);
    assert(out@ =~= pretty_expr(expr@, indent as nat));
    out
}

impl Stmt {
    /// The rendering of this statement at indentation 0.
    pub fn pretty(&self) -> (r: String)
        requires
            stmt_depth(self@) < usize::MAX,
        ensures
            r@ == pretty_stmt(self@, 0),
    {
        pretty_print_stmt(self, 0)
    }
}

impl Expr {
    /// The rendering of this expression at indentation 0.
    pub fn pretty(&self) -> (r: String)
        requires
            expr_depth(self@) < usize::MAX,
        ensures
            r@ == pretty_expr(self@, 0),
    {
        pretty_print_expr(self, 0)
    }
}

} // verus!
