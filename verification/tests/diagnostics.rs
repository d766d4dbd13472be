use lib::ast::{BinaryOp, Expr};
use lib::eval::{resolve_call, Builtin, EvalError};
use lib::lexer::Lexer;
use lib::parser::Parser;
use lib::pretty::{pretty_print_expr, pretty_print_stmt};
use lib::render::render_error_with_source;
use lib::span::{Pos, Span};

fn span_at(line: usize, col: usize) -> Span {
    let p = Pos::new(0, line, col);
    Span::new(p, p)
}

#[test]
fn builtins_and_arity() {
    assert_eq!(Builtin::lookup("sin"), Some(Builtin::Sin));
    assert_eq!(Builtin::lookup("pow"), Some(Builtin::Pow));
    assert_eq!(Builtin::lookup("abs"), Some(Builtin::Abs));
    assert_eq!(Builtin::lookup("max"), None);
    assert_eq!(Builtin::Pow.arity(), 2);
    assert_eq!(Builtin::Sqrt.arity(), 1);
}

#[test]
fn call_resolution() {
    let s = span_at(1, 1);
    let callee = Expr::Ident("pow".to_string(), s);
    assert_eq!(resolve_call(&callee, 2, s).unwrap(), Builtin::Pow);
    match resolve_call(&callee, 1, s) {
        Err(EvalError::ArityError(name, got, _)) => {
            assert_eq!(name, "pow");
            assert_eq!(got, 1);
        }
        other => panic!("{:?}", other),
    }
    let unknown = Expr::Ident("nope".to_string(), s);
    assert!(matches!(resolve_call(&unknown, 0, s), Err(EvalError::NameError(..))));
    let number = Expr::Number("1".to_string(), s);
    match resolve_call(&number, 0, s) {
        Err(e) => assert_eq!(e.message(), "call target must be identifier (builtin) at 1:1"),
        Ok(b) => panic!("{:?}", b),
    }
}

#[test]
fn eval_error_messages() {
    assert_eq!(EvalError::DivByZero(span_at(1, 3)).message(), "Division by zero at 1:3");
    assert_eq!(EvalError::NameError("y".to_string(), span_at(2, 10)).message(), "Unknown name 'y' at 2:10");
    assert_eq!(
        EvalError::ArityError("sin".to_string(), 12, span_at(1, 1)).message(),
        "Function 'sin' expected different arity (got 12) at 1:1"
    );
}

#[test]
fn render_with_caret() {
    let src = "let a = 1\nlet b = a $ 2\r\n";
    assert_eq!(
        render_error_with_source(src, span_at(2, 11), "oops"),
        "oops at 2:11\nlet b = a $ 2\n          ^"
    );
    assert_eq!(render_error_with_source(src, span_at(3, 1), "late"), "late at 3:1");
    assert_eq!(render_error_with_source("x", span_at(0, 0), "m"), "m at 0:0\nx\n^");
    assert_eq!(render_error_with_source("ab\r", span_at(1, 2), "m"), "m at 1:2\nab\r\n ^");
}

#[test]
fn pretty_printing() {
    let mut lexer = Lexer::new("let v = -f(1, x) ^ 2; { v = 3 }");
    let toks = lexer.tokenize().unwrap();
    let stmts = Parser::new(&toks).parse_program().unwrap();
    assert_eq!(
        pretty_print_stmt(&stmts[0], 0),
        "Let v =\n  Binary(Pow)\n    Unary(Minus)\n      Call:\n        Ident(f)\n        Number(1)\n        Ident(x)\n    Number(2)\n"
    );
    assert_eq!(stmts[1].pretty(), "Block {\n  Assign v =\n    Number(3)\n}\n");
    let e = Expr::Binary {
        left: Box::new(Expr::Number("1".to_string(), span_at(1, 1))),
        op: BinaryOp::Add,
        right: Box::new(Expr::Number("2".to_string(), span_at(1, 3))),
        span: span_at(1, 1),
    };
    assert_eq!(pretty_print_expr(&e, 1), "  Binary(Add)\n    Number(1)\n    Number(2)\n");
    assert_eq!(e.pretty(), "Binary(Add)\n  Number(1)\n  Number(2)\n");
}

#[test]
fn operator_properties() {
    assert_eq!(BinaryOp::Add.precedence(), 10);
    assert_eq!(BinaryOp::Mod.precedence(), 20);
    assert_eq!(BinaryOp::Pow.precedence(), 30);
    assert!(BinaryOp::Pow.is_right_associative());
    assert!(!BinaryOp::Sub.is_right_associative());
}

#[test]
fn decimal_rendering() {
    assert_eq!(
        EvalError::ArityError("f".to_string(), 1234567890, span_at(10, 100)).message(),
        "Function 'f' expected different arity (got 1234567890) at 10:100"
    );
    assert_eq!(EvalError::DivByZero(span_at(0, 9)).message(), "Division by zero at 0:9");
}
