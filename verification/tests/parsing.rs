use lib::ast::{BinaryOp, Expr, Stmt, UnaryOp};
use lib::lexer::Lexer;
use lib::parser::{identifier_debug, ParseError, Parser};
use lib::span::{Pos, Span};
use lib::token::{Token, TokenKind};

fn parse(src: &str) -> Result<Vec<Stmt>, ParseError> {
    let mut lexer = Lexer::new(src);
    let toks = lexer.tokenize().unwrap();
    let mut parser = Parser::new(&toks);
    parser.parse_program()
}

fn single_expr(src: &str) -> Expr {
    let mut stmts = parse(src).unwrap();
    assert_eq!(stmts.len(), 1);
    match stmts.remove(0) {
        Stmt::ExprStmt { expr, .. } => expr,
        other => panic!("not an expression statement: {:?}", other),
    }
}

/// A compact rendering: numbers and names as written, operators in parentheses.
fn shape(e: &Expr) -> String {
    match e {
        Expr::Number(t, _) => t.clone(),
        Expr::Ident(n, _) => n.clone(),
        Expr::Unary { op, expr, .. } => {
            let o = match op {
                UnaryOp::Plus => "+",
                UnaryOp::Minus => "-",
            };
            format!("({}{})", o, shape(expr))
        }
        Expr::Binary { left, op, right, .. } => {
            let o = match op {
                BinaryOp::Add => "+",
                BinaryOp::Sub => "-",
                BinaryOp::Mul => "*",
                BinaryOp::Div => "/",
                BinaryOp::Mod => "%",
                BinaryOp::Pow => "^",
            };
            format!("({} {} {})", shape(left), o, shape(right))
        }
        Expr::Call { callee, args, .. } => {
            let a: Vec<String> = args.iter().map(shape).collect();
            format!("{}[{}]", shape(callee), a.join(","))
        }
    }
}

#[test]
fn precedence_and_grouping() {
    assert_eq!(shape(&single_expr("1+2")), "(1 + 2)");
    assert_eq!(shape(&single_expr("2*3+1")), "((2 * 3) + 1)");
    assert_eq!(shape(&single_expr("1+2*3")), "(1 + (2 * 3))");
    assert_eq!(shape(&single_expr("2*(3+1)")), "(2 * (3 + 1))");
    assert_eq!(shape(&single_expr("8-3-2")), "((8 - 3) - 2)");
    assert_eq!(shape(&single_expr("8/4%3")), "((8 / 4) % 3)");
}

#[test]
fn exponent_is_right_associative() {
    assert_eq!(shape(&single_expr("2^3^2")), "(2 ^ (3 ^ 2))");
    assert_eq!(shape(&single_expr("2*3^2")), "(2 * (3 ^ 2))");
}

#[test]
fn unary_binds_tightest() {
    assert_eq!(shape(&single_expr("-3")), "(-3)");
    assert_eq!(shape(&single_expr("-2^2")), "((-2) ^ 2)");
    assert_eq!(shape(&single_expr("+-x")), "(+(-x))");
}

#[test]
fn calls() {
    assert_eq!(shape(&single_expr("sin(0)")), "sin[0]");
    assert_eq!(shape(&single_expr("pow(2,3)")), "pow[2,3]");
    assert_eq!(shape(&single_expr("f()")), "f[]");
    assert_eq!(shape(&single_expr("f(1)(2)")), "f[1][2]");
    assert_eq!(shape(&single_expr("1 / (2 - 2)")), "(1 / (2 - 2))");
}

#[test]
fn statements() {
    let stmts = parse("let x = 3; x").unwrap();
    assert_eq!(stmts.len(), 2);
    match &stmts[0] {
        Stmt::Let { name, expr, span } => {
            assert_eq!(name, "x");
            assert_eq!(shape(expr), "3");
            assert_eq!((span.start.col, span.end.col), (1, 11));
        }
        other => panic!("{:?}", other),
    }
    match &stmts[1] {
        Stmt::ExprStmt { expr, span } => {
            assert_eq!(shape(expr), "x");
            assert_eq!((span.start.col, span.end.col), (12, 13));
        }
        other => panic!("{:?}", other),
    }
    let stmts = parse("x = x + 1; { let y = 2 y }").unwrap();
    assert_eq!(stmts.len(), 2);
    match &stmts[0] {
        Stmt::Assign { name, expr, span } => {
            assert_eq!(name, "x");
            assert_eq!(shape(expr), "(x + 1)");
            assert_eq!((span.start.col, span.end.col), (1, 11));
        }
        other => panic!("{:?}", other),
    }
    match &stmts[1] {
        Stmt::Block { stmts, span } => {
            assert_eq!(stmts.len(), 2);
            assert_eq!((span.start.col, span.end.col), (12, 27));
            assert_eq!(stmts[0].span().start.col, 14);
        }
        other => panic!("{:?}", other),
    }
    assert_eq!(parse("").unwrap().len(), 0);
}

#[test]
fn parse_errors() {
    let e = parse("(1").unwrap_err();
    assert_eq!(e.msg, "expected RParen, found Eof");
    assert_eq!(e.message(), "ParseError at 1:3: expected RParen, found Eof");
    let e = parse("let 5 = 1").unwrap_err();
    assert_eq!(e.msg, "expected identifier after 'let'");
    assert_eq!(e.span.start.col, 5);
    let e = parse("let x 1").unwrap_err();
    assert_eq!(e.msg, "expected Assign, found Number(1)");
    let e = parse(")").unwrap_err();
    assert_eq!(e.msg, "unexpected token in expression: RParen");
    assert_eq!((e.span.start.line, e.span.start.col, e.span.start.offset), (1, 1, 0));
    let e = parse("{ 1").unwrap_err();
    assert_eq!(e.msg, "expected RBrace, found Eof");
    let e = parse("f(a b)").unwrap_err();
    assert_eq!(e.msg, "expected RParen, found Identifier(\"b\")");
}

#[test]
fn spans_of_expressions() {
    let e = single_expr("  12 + ab");
    let s = e.span();
    assert_eq!((s.start.col, s.end.col), (3, 10));
    assert_eq!((s.start.offset, s.end.offset), (2, 9));
}

#[test]
fn parentheses_group_first() {
    assert_eq!(shape(&single_expr("(1+2)*3")), "((1 + 2) * 3)");
    assert_eq!(shape(&single_expr("(2^3)^2")), "((2 ^ 3) ^ 2)");
    assert_eq!(shape(&single_expr("(8-1)-(2-3)")), "((8 - 1) - (2 - 3))");
}

#[test]
fn assignment_needs_equals_after_the_identifier() {
    let e = parse("x; = 3").unwrap_err();
    assert_eq!(e.msg, "unexpected token in expression: Assign");
    let mut lexer = Lexer::new("x; = 3");
    let toks = lexer.tokenize().unwrap();
    let mut parser = Parser::new(&toks);
    // parsing a single statement directly shows the expression statement
    let stmts = parse("x;").unwrap();
    match &stmts[0] {
        Stmt::ExprStmt { expr, span } => {
            assert_eq!(shape(expr), "x");
            assert_eq!((span.start.col, span.end.col), (1, 3));
        }
        other => panic!("{:?}", other),
    }
    assert!(parser.parse_program().is_err());
    let stmts = parse("x = 3;").unwrap();
    assert!(matches!(stmts[0], Stmt::Assign { .. }));
}

#[test]
fn tokens_after_the_first_eof_are_never_read() {
    let mut lexer = Lexer::new("1 + 2");
    let mut toks = lexer.tokenize().unwrap();
    let extra = toks[0].duplicate();
    toks.push(extra);
    let stmts = Parser::new(&toks).parse_program().unwrap();
    assert_eq!(stmts.len(), 1);
}

#[test]
fn clones_are_equal_trees() {
    let stmts = parse("let v = -f(1, x) ^ 2; { v = 3; g(); }").unwrap();
    let copies: Vec<Stmt> = stmts.iter().map(|s| s.clone()).collect();
    assert_eq!(copies.len(), stmts.len());
    for (a, b) in stmts.iter().zip(copies.iter()) {
        assert_eq!(a.pretty(), b.pretty());
        assert_eq!(format!("{:?}", a), format!("{:?}", b));
    }
    let e = single_expr("h(1, 2 * y, -z) % 4");
    let c = e.clone();
    assert_eq!(format!("{:?}", e), format!("{:?}", c));
    assert_eq!(shape(&c), shape(&e));
}

#[test]
fn identifiers_in_messages_are_quoted_and_escaped() {
    let p = Pos::new(0, 1, 1);
    let s = Span::new(p, p);
    let toks = vec![
        Token::simple(TokenKind::Let, s),
        Token::simple(TokenKind::Identifier("x".to_string()), s),
        Token::simple(TokenKind::Identifier("q\"z\\".to_string()), s),
        Token::simple(TokenKind::Eof, s),
    ];
    let e = Parser::new(&toks).parse_program().unwrap_err();
    assert_eq!(e.msg, "expected Assign, found Identifier(\"q\\\"z\\\\\")");
    assert_eq!(identifier_debug("\"b\""), "Identifier(\"b\")");
}
