//! The error type of evaluation, and how names in an expression are resolved.
use crate::chars::{same_text, text_to_lowercase, to_lowercase};
use vstd::prelude::*;
use vstd::string::StringExecFns;

verus! {

/// An error met while tokenizing, parsing or evaluating an expression.
#[derive(Debug)]
pub struct EvaluatorError {
    message: String,
}

impl Clone for EvaluatorError {
    fn clone(&self) -> (r: Self)
        ensures
            r == *self,
    {
        EvaluatorError { message: self.message.clone() }
    }
}

impl EvaluatorError {
    /// The message that the error carries.
    pub closed spec fn view(&self) -> Seq<char> {
        self.message@
    }

    /// An error with the given message.
    pub fn new(message: String) -> (r: Self)
        ensures
            r@ == message@,
    {
        EvaluatorError { message }
    }

    /// An error whose message is `prefix`, then `subject`, then a closing `'`.
    pub fn quoted(prefix: &str, subject: &str) -> (r: Self)
        ensures
            r@ == prefix@ + subject@ + "'"@,
    {
        let mut message = String::from_str(prefix);
        message.append(subject);
        message.append("'");
        EvaluatorError { message }
    }

    /// An error whose message is the given text.
    pub fn from_text(message: &str) -> (r: Self)
        ensures
            r@ == message@,
    {
        EvaluatorError { message: String::from_str(message) }
    }

    /// The message, as it is shown to the user.
    pub fn message(&self) -> (r: String)
        ensures
            r@ == self@,
    {
        self.message.clone()
    }
}

/// A named constant that an identifier can stand for.
#[derive(Debug, Clone, Copy, PartialEq, Eq, Structural)]
pub enum Constant {
    /// The result of the previous evaluation.
    Ans,
    /// The circle constant.
    Pi,
    /// Euler's number.
    E,
    /// Not a number.
    Nan,
    /// Positive infinity.
    Infinity,
}

/// A function that a call can name.
#[derive(Debug, Clone, Copy, PartialEq, Eq, Structural)]
pub enum MathFunction {
    Sin,
    Cos,
    Tan,
    Sqrt,
    Pow,
    Log,
    Ln,
    Abs,
    Ceil,
    Floor,
}

/// The constant that a lowercased identifier names, if any.
pub open spec fn constant_named(lower: Seq<char>) -> Option<Constant> {
    if lower == "ans"@ {
        Some(Constant::Ans)
    } else if lower == "pi"@ {
        Some(Constant::Pi)
    } else if lower == "e"@ {
        Some(Constant::E)
    } else if lower == "nan"@ {
        Some(Constant::Nan)
    } else if lower == "inf"@ || lower == "infinity"@ {
        Some(Constant::Infinity)
    } else {
        None
    }
}

/// The function that a lowercased name names, if any.
pub open spec fn function_named(lower: Seq<char>) -> Option<MathFunction> {
    if lower == "sin"@ {
        Some(MathFunction::Sin)
    } else if lower == "cos"@ {
        Some(MathFunction::Cos)
    } else if lower == "tan"@ {
        Some(MathFunction::Tan)
    } else if lower == "sqrt"@ {
        Some(MathFunction::Sqrt)
    } else if lower == "pow"@ {
        Some(MathFunction::Pow)
    } else if lower == "log"@ {
        Some(MathFunction::Log)
    } else if lower == "ln"@ {
        Some(MathFunction::Ln)
    } else if lower == "abs"@ {
        Some(MathFunction::Abs)
    } else if lower == "ceil"@ {
        Some(MathFunction::Ceil)
    } else if lower == "floor"@ {
        Some(MathFunction::Floor)
    } else {
        None
    }
}

/// Resolves an identifier, case-insensitively, to the constant it names.
/// An unknown name gives the error `unknown identifier '<name>'`.
pub fn resolve_constant(name: &str) -> (r: Result<Constant, EvaluatorError>)
    ensures
        match constant_named(text_to_lowercase(name@)) {
            Some(c) => r == Ok::<Constant, EvaluatorError>(c),
            None => r is Err && r->Err_0@ == "unknown identifier '"@ + name@ + "'"@,
        },
{
    let lower = to_lowercase(name);
    let l = lower.as_str();
    if same_text(l, "ans") {
        Ok(Constant::Ans)
    } else if same_text(l, "pi") {
        Ok(Constant::Pi)
    } else if same_text(l, "e") {
        Ok(Constant::E)
    } else if same_text(l, "nan") {
        Ok(Constant::Nan)
    } else if same_text(l, "inf") || same_text(l, "infinity") {
        Ok(Constant::Infinity)
    } else {
        Err(EvaluatorError::quoted("unknown identifier '", name))
    }
}

/// Resolves the name of a call, case-insensitively, given how many arguments
/// the call has. `pow` with fewer than two arguments gives the error
/// `pow expects two arguments`; an unknown name gives `unknown function '<name>'`.
pub fn resolve_function(name: &str, arg_count: usize) -> (r: Result<MathFunction, EvaluatorError>)
    ensures
        match function_named(text_to_lowercase(name@)) {
            Some(f) => if f == MathFunction::Pow && arg_count < 2 {
                r is Err && r->Err_0@ == "pow expects two arguments"@
            } else {
                r == Ok::<MathFunction, EvaluatorError>(f)
            },
            None => r is Err && r->Err_0@ == "unknown function '"@ + name@ + "'"@,
        },
{
    let lower = to_lowercase(name);
    let l = lower.as_str();
    if same_text(l, "sin") {
        Ok(MathFunction::Sin)
    } else if same_text(l, "cos") {
        Ok(MathFunction::Cos)
    } else if same_text(l, "tan") {
        Ok(MathFunction::Tan)
    } else if same_text(l, "sqrt") {
        Ok(MathFunction::Sqrt)
    } else if same_text(l, "pow") {
        if arg_count < 2 {
            Err(EvaluatorError::from_text("pow expects two arguments"))
        } else {
            Ok(MathFunction::Pow)
        }
    } else if same_text(l, "log") {
        Ok(MathFunction::Log)
    } else if same_text(l, "ln") {
        Ok(MathFunction::Ln)
    } else if same_text(l, "abs") {
        Ok(MathFunction::Abs)
    } else if same_text(l, "ceil") {
        Ok(MathFunction::Ceil)
    } else if same_text(l, "floor") {
        Ok(MathFunction::Floor)
    } else {
        Err(EvaluatorError::quoted("unknown function '", name))
    }
}


/// The name that a function is called by, in lowercase.
pub open spec fn function_name(f: MathFunction) -> Seq<char> {
    match f {
        MathFunction::Sin => "sin"@,
        MathFunction::Cos => "cos"@,
        MathFunction::Tan => "tan"@,
        MathFunction::Sqrt => "sqrt"@,
        MathFunction::Pow => "pow"@,
        MathFunction::Log => "log"@,
        MathFunction::Ln => "ln"@,
        MathFunction::Abs => "abs"@,
        MathFunction::Ceil => "ceil"@,
        MathFunction::Floor => "floor"@,
    }
}

/// The name that a constant is written as, in lowercase (`inf` is also
/// accepted for infinity).
pub open spec fn constant_name(c: Constant) -> Seq<char> {
    match c {
        Constant::Ans => "ans"@,
        Constant::Pi => "pi"@,
        Constant::E => "e"@,
        Constant::Nan => "nan"@,
        Constant::Infinity => "infinity"@,
    }
}

proof fn lemma_name_literals()
    ensures
        "sin"@ == seq!['s', 'i', 'n'],
        "cos"@ == seq!['c', 'o', 's'],
        "tan"@ == seq!['t', 'a', 'n'],
        "sqrt"@ == seq!['s', 'q', 'r', 't'],
        "pow"@ == seq!['p', 'o', 'w'],
        "log"@ == seq!['l', 'o', 'g'],
        "ln"@ == seq!['l', 'n'],
        "abs"@ == seq!['a', 'b', 's'],
        "ceil"@ == seq!['c', 'e', 'i', 'l'],
        "floor"@ == seq!['f', 'l', 'o', 'o', 'r'],
        "ans"@ == seq!['a', 'n', 's'],
        "pi"@ == seq!['p', 'i'],
        "e"@ == seq!['e'],
        "nan"@ == seq!['n', 'a', 'n'],
        "inf"@ == seq!['i', 'n', 'f'],
        "infinity"@ == seq!['i', 'n', 'f', 'i', 'n', 'i', 't', 'y'],
{
    reveal_strlit("sin");
    reveal_strlit("cos");
    reveal_strlit("tan");
    reveal_strlit("sqrt");
    reveal_strlit("pow");
    reveal_strlit("log");
    reveal_strlit("ln");
    reveal_strlit("abs");
    reveal_strlit("ceil");
    reveal_strlit("floor");
    reveal_strlit("ans");
    reveal_strlit("pi");
    reveal_strlit("e");
    reveal_strlit("nan");
    reveal_strlit("inf");
    reveal_strlit("infinity");
    assert("sin"@ =~= seq!['s', 'i', 'n']);
    assert("cos"@ =~= seq!['c', 'o', 's']);
    assert("tan"@ =~= seq!['t', 'a', 'n']);
    assert("sqrt"@ =~= seq!['s', 'q', 'r', 't']);
    assert("pow"@ =~= seq!['p', 'o', 'w']);
    assert("log"@ =~= seq!['l', 'o', 'g']);
    assert("ln"@ =~= seq!['l', 'n']);
    assert("abs"@ =~= seq!['a', 'b', 's']);
    assert("ceil"@ =~= seq!['c', 'e', 'i', 'l']);
    assert("floor"@ =~= seq!['f', 'l', 'o', 'o', 'r']);
    assert("ans"@ =~= seq!['a', 'n', 's']);
    assert("pi"@ =~= seq!['p', 'i']);
    assert("e"@ =~= seq!['e']);
    assert("nan"@ =~= seq!['n', 'a', 'n']);
    assert("inf"@ =~= seq!['i', 'n', 'f']);
    assert("infinity"@ =~= seq!['i', 'n', 'f', 'i', 'n', 'i', 't', 'y']);
}

/// Each function is reached by its own name and by no other: a lowercased
/// name resolves to a function exactly when it is that function's name. So
/// distinct names give distinct functions, and `log` is the base-10 `Log`,
/// not `Ln`.
pub proof fn law_functions_resolve_by_name(lower: Seq<char>, f: MathFunction)
    ensures
        (function_named(lower) == Some(f)) == (lower == function_name(f)),
{
    lemma_name_literals();
}

/// Each constant is reached by its own name and by no other, except that
/// infinity is also reached by `inf`.
pub proof fn law_constants_resolve_by_name(lower: Seq<char>, c: Constant)
    ensures
        (constant_named(lower) == Some(c)) == (lower == constant_name(c) || (c == Constant::Infinity
            && lower == "inf"@)),
{
    lemma_name_literals();
}

} // verus!
