use speedier::calc::evaluator::{resolve_constant, resolve_function, Constant, MathFunction};
use speedier::calc::EvaluatorError;

#[test]
fn constants_resolve_case_insensitively() {
    assert_eq!(resolve_constant("PI").unwrap(), Constant::Pi);
    assert_eq!(resolve_constant("ans").unwrap(), Constant::Ans);
    assert_eq!(resolve_constant("E").unwrap(), Constant::E);
    assert_eq!(resolve_constant("NaN").unwrap(), Constant::Nan);
    assert_eq!(resolve_constant("inf").unwrap(), Constant::Infinity);
    assert_eq!(resolve_constant("Infinity").unwrap(), Constant::Infinity);
}

#[test]
fn unknown_identifier_is_an_error() {
    assert_eq!(resolve_constant("foo").unwrap_err().message(), "unknown identifier 'foo'");
    assert_eq!(resolve_constant("Pie").unwrap_err().message(), "unknown identifier 'Pie'");
}

#[test]
fn functions_resolve_case_insensitively() {
    assert_eq!(resolve_function("SIN", 1).unwrap(), MathFunction::Sin);
    assert_eq!(resolve_function("floor", 0).unwrap(), MathFunction::Floor);
    assert_eq!(resolve_function("Pow", 2).unwrap(), MathFunction::Pow);
    assert_eq!(resolve_function("ln", 3).unwrap(), MathFunction::Ln);
}

#[test]
fn pow_needs_two_arguments() {
    assert_eq!(resolve_function("pow", 1).unwrap_err().message(), "pow expects two arguments");
    assert_eq!(resolve_function("POW", 0).unwrap_err().message(), "pow expects two arguments");
}

#[test]
fn unknown_function_is_an_error() {
    assert_eq!(resolve_function("bogus", 1).unwrap_err().message(), "unknown function 'bogus'");
}

#[test]
fn error_keeps_its_message() {
    assert_eq!(EvaluatorError::new("boom".to_string()).message(), "boom");
    assert_eq!(EvaluatorError::quoted("bad '", "x").message(), "bad 'x'");
    assert_eq!(EvaluatorError::from_text("plain").message(), "plain");
}
