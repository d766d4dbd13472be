//! The evaluator's decisions that do not depend on arithmetic: which builtin
//! a call names, whether the call has the right number of arguments, and the
//! runtime errors with the text they are shown under.
use vstd::prelude::*;
use crate::span::Span;
use crate::ast::{Expr, SpecExpr};
use crate::text::{push_str, push_decimal, decimal};

verus! {

/// The builtin functions.
#[derive(Clone, Copy, Debug, PartialEq, Eq)]
pub enum Builtin {
    Sin,
    Cos,
    Tan,
    Sqrt,
    Pow,
    Log,
    Exp,
    Abs,
}

/// The builtin called `name`, if there is one.
pub open spec fn builtin_named(name: Seq<char>) -> Option<Builtin> {
    if name == "sin"@ {
        Some(Builtin::Sin)
    } else if name == "cos"@ {
        Some(Builtin::Cos)
    } else if name == "tan"@ {
        Some(Builtin::Tan)
    } else if name == "sqrt"@ {
        Some(Builtin::Sqrt)
    } else if name == "pow"@ {
        Some(Builtin::Pow)
    } else if name == "log"@ {
        Some(Builtin::Log)
    } else if name == "exp"@ {
        Some(Builtin::Exp)
    } else if name == "abs"@ {
        Some(Builtin::Abs)
    } else {
        None
    }
}

/// The name a builtin is called by, spelled out character by character.
pub open spec fn builtin_spelling(b: Builtin) -> Seq<char> {
    match b {
        Builtin::Sin => seq!['s', 'i', 'n'],
        Builtin::Cos => seq!['c', 'o', 's'],
        Builtin::Tan => seq!['t', 'a', 'n'],
        Builtin::Sqrt => seq!['s', 'q', 'r', 't'],
        Builtin::Pow => seq!['p', 'o', 'w'],
        Builtin::Log => seq!['l', 'o', 'g'],
        Builtin::Exp => seq!['e', 'x', 'p'],
        Builtin::Abs => seq!['a', 'b', 's'],
    }
}

/// Every builtin is found under its own name and under no other, and takes two
/// arguments if it is `pow`, one otherwise; so a call of a builtin by its name
/// with that many arguments resolves to that builtin.
pub proof fn law_builtin_names(b: Builtin, name: Seq<char>, span: Span)
    ensures
        builtin_named(builtin_spelling(b)) == Some(b),
        builtin_named(name) == Some(b) ==> name == builtin_spelling(b),
        builtin_arity(b) == (if b == Builtin::Pow { 2usize } else { 1usize }),
        call_resolution(SpecExpr::Ident(builtin_spelling(b), span), builtin_arity(b), span)
            == Ok::<Builtin, SpecEvalError>(b),
{
    reveal_strlit("sin");
    reveal_strlit("cos");
    reveal_strlit("tan");
    reveal_strlit("sqrt");
    reveal_strlit("pow");
    reveal_strlit("log");
    reveal_strlit("exp");
    reveal_strlit("abs");
    assert("sin"@ =~= seq!['s', 'i', 'n']);
    assert("cos"@ =~= seq!['c', 'o', 's']);
    assert("tan"@ =~= seq!['t', 'a', 'n']);
    assert("sqrt"@ =~= seq!['s', 'q', 'r', 't']);
    assert("pow"@ =~= seq!['p', 'o', 'w']);
    assert("log"@ =~= seq!['l', 'o', 'g']);
    assert("exp"@ =~= seq!['e', 'x', 'p']);
    assert("abs"@ =~= seq!['a', 'b', 's']);
}

/// The number of arguments a builtin takes: two for `pow`, one for the others.
pub open spec fn builtin_arity(b: Builtin) -> usize {
    match b {
        Builtin::Pow => 2,
        _ => 1,
    }
}

fn string_of(t: &str) -> (s: String)
    ensures
        s@ == t@,
{
    t.to_owned()
}

impl Builtin {
    /// The builtin called `name`, if there is one.
    pub fn lookup(name: &str) -> (r: Option<Builtin>)
        ensures
            r == builtin_named(name@),
    {
        let n = string_of(name);
        if n == string_of("sin") {
            Some(Builtin::Sin)
        } else if n == string_of("cos") {
            Some(Builtin::Cos)
        } else if n == string_of("tan") {
            Some(Builtin::Tan)
        } else if n == string_of("sqrt") {
            Some(Builtin::Sqrt)
        } else if n == string_of("pow") {
            Some(Builtin::Pow)
        } else if n == string_of("log") {
            Some(Builtin::Log)
        } else if n == string_of("exp") {
            Some(Builtin::Exp)
        } else if n == string_of("abs") {
            Some(Builtin::Abs)
        } else {
            None
        }
    }

    /// The number of arguments this builtin takes.
    pub fn arity(&self) -> (n: usize)
        ensures
            n == builtin_arity(*self),
    {
        match self {
            Builtin::Pow => 2,
            _ => 1,
        }
    }
}

/// Runtime errors: evaluation or name resolution errors.
#[derive(Debug)]
pub enum EvalError {
    DivByZero(Span),
    NameError(String, Span),
    ArityError(String, usize, Span),
    Other(String, Span),
}

/// The model of an `EvalError`.
pub enum SpecEvalError {
    DivByZero(Span),
    NameError(Seq<char>, Span),
    ArityError(Seq<char>, usize, Span),
    Other(Seq<char>, Span),
}

impl View for EvalError {
    type V = SpecEvalError;

    open spec fn view(&self) -> SpecEvalError {
        match self {
            EvalError::DivByZero(s) => SpecEvalError::DivByZero(*s),
            EvalError::NameError(n, s) => SpecEvalError::NameError(n@, *s),
            EvalError::ArityError(n, got, s) => SpecEvalError::ArityError(n@, *got, *s),
            EvalError::Other(m, s) => SpecEvalError::Other(m@, *s),
        }
    }
}

/// `" at <line>:<col>"` for the start of `s`.
pub open spec fn at_location(s: Span) -> Seq<char> {
    " at "@ + decimal(s.start.line as nat) + ":"@ + decimal(s.start.col as nat)
}

/// The text under which an evaluation error is shown.
pub open spec fn eval_error_message(e: SpecEvalError) -> Seq<char> {
    match e {
        SpecEvalError::DivByZero(s) => "Division by zero"@ + at_location(s),
        SpecEvalError::NameError(n, s) => "Unknown name '"@ + n + "'"@ + at_location(s),
        SpecEvalError::ArityError(n, got, s) => "Function '"@ + n + "' expected different arity (got "@
            + decimal(got as nat) + ")"@ + at_location(s),
        SpecEvalError::Other(m, s) => m + at_location(s),
    }
}

fn push_location(out: &mut String, s: Span)
    ensures
        final(out)@ == old(out)@ + at_location(s),
{
    push_str(out, " at ");
    push_decimal(out, s.start.line);
    push_str(out, ":");
    push_decimal(out, s.start.col);
    assert(final(out)@ =~= old(out)@ + at_location(s));
}

impl EvalError {
    /// The text under which this error is shown.
    pub fn message(&self) -> (r: String)
        ensures
            r@ == eval_error_message(self@),
    {
        let mut out = String::new();
        match self {
            EvalError::DivByZero(s) => {
                push_str(&mut out, "Division by zero");
                push_location(&mut out, *s);
            },
            EvalError::NameError(n, s) => {
                push_str(&mut out, "Unknown name '");
                push_str(&mut out, n.as_str());
                push_str(&mut out, "'");
                push_location(&mut out, *s);
            },
            EvalError::ArityError(n, got, s) => {
                push_str(&mut out, "Function '");
                push_str(&mut out, n.as_str());
                push_str(&mut out, "' expected different arity (got ");
                push_decimal(&mut out, *got);
                push_str(&mut out, ")");
                push_location(&mut out, *s);
            },
            EvalError::Other(m, s) => {
                push_str(&mut out, m.as_str());
                push_location(&mut out, *s);
            },
        }
        assert(out@ =~= eval_error_message(self@));
        out
    }
}

/// How a call with `nargs` arguments to `callee` resolves: the builtin it names,
/// or the error for a callee that is not an identifier, an unknown name, or a
/// wrong number of arguments.
pub open spec fn call_resolution(callee: SpecExpr, nargs: usize, span: Span) -> Result<Builtin, SpecEvalError> {
    match callee {
        SpecExpr::Ident(name, _) => match builtin_named(name) {
            Some(b) => if builtin_arity(b) == nargs {
                Ok(b)
            } else {
                Err(SpecEvalError::ArityError(name, nargs, span))
            },
            None => Err(SpecEvalError::NameError(name, span)),
        },
        _ => Err(SpecEvalError::Other("call target must be identifier (builtin)"@, span)),
    }
}

/// Resolves a call before its arguments are evaluated.
pub fn resolve_call(callee: &Expr, nargs: usize, span: Span) -> (r: Result<Builtin, EvalError>)
    ensures
        match r {
            Ok(b) => call_resolution(callee@, nargs, span) == Ok::<Builtin, SpecEvalError>(b),
            Err(e) => call_resolution(callee@, nargs, span) == Err::<Builtin, SpecEvalError>(e@),
        },
{
    match callee {
        Expr::Ident(name, _) => match Builtin::lookup(name.as_str()) {
            Some(b) => if b.arity() == nargs {
                Ok(b)
            } else {
                Err(EvalError::ArityError(name.clone(), nargs, span))
            },
            None => Err(EvalError::NameError(name.clone(), span)),
        },
        _ => Err(EvalError::Other(string_of("call target must be identifier (builtin)"), span)),
    }
}

} // verus!
