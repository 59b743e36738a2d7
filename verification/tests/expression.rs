use speedier::calc::expression::{parse_expression, Expr};
use speedier::calc::prepend_ans_if_leading_operator;

fn show(e: &Expr) -> String {
    match e {
        Expr::Number(t) => t.clone(),
        Expr::Ident(t) => t.clone(),
        Expr::Unary { op, expr } => format!("{}({})", op, show(expr)),
        Expr::Postfix { op, expr } => format!("{}{}", show(expr), op),
        Expr::Binary { op, left, right } => format!("({}{}{})", show(left), op, show(right)),
        Expr::Call { name, args } => {
            let parts: Vec<String> = args.iter().map(show).collect();
            format!("{}[{}]", name, parts.join(","))
        }
    }
}

fn parsed(input: &str) -> String {
    show(&parse_expression(input).unwrap())
}

fn error(input: &str) -> String {
    parse_expression(input).unwrap_err().message()
}

#[test]
fn precedence_and_grouping() {
    assert_eq!(parsed("1+2*3"), "(1+(2*3))");
    assert_eq!(parsed("1-2-3"), "((1-2)-3)");
    assert_eq!(parsed("8/4%3*2"), "(((8/4)%3)*2)");
    assert_eq!(parsed("(1+2)*3"), "((1+2)*3)");
}

#[test]
fn power_groups_right_and_signs() {
    assert_eq!(parsed("2^3^2"), "(2^(3^2))");
    assert_eq!(parsed("-2^2"), "-((2^2))");
    assert_eq!(parsed("2^-1"), "(2^-(1))");
    assert_eq!(parsed("+-3"), "+(-(3))");
}

#[test]
fn factorial_is_postfix() {
    assert_eq!(parsed("3!!"), "3!!");
    assert_eq!(parsed("3!^2"), "(3!^2)");
}

#[test]
fn calls_and_names() {
    assert_eq!(parsed("pow(2, 3)"), "pow[2,3]");
    assert_eq!(parsed("f()"), "f[]");
    assert_eq!(parsed("sin(pi/2)+ans"), "(sin[(pi/2)]+ans)");
    assert_eq!(parsed("  1.5e3 "), "1.5e3");
    assert_eq!(parsed(".5"), ".5");
}

#[test]
fn number_text_is_kept_as_written() {
    match parse_expression("007.50").unwrap() {
        Expr::Number(t) => assert_eq!(t, "007.50"),
        _ => panic!("expected a number"),
    }
}

#[test]
fn errors_name_what_went_wrong() {
    assert_eq!(error("1 +"), "unexpected end of expression");
    assert_eq!(error(""), "unexpected end of expression");
    assert_eq!(error("(1"), "expected ')'");
    assert_eq!(error("1 2"), "unexpected token '2'");
    assert_eq!(error(")"), "unexpected token ')'");
    assert_eq!(error("pow(1 2)"), "expected ',' or ')'");
    assert_eq!(error("1 # 2"), "unexpected character '#'");
    assert_eq!(error("1 + ?"), "unexpected character '?'");
    assert_eq!(error("1,2"), "unexpected token ','");
}

#[test]
fn tokenizing_error_comes_first() {
    assert_eq!(error(") $"), "unexpected character '$'");
}

#[test]
fn leading_operator_continues_previous_result() {
    assert_eq!(prepend_ans_if_leading_operator("  +2 "), "ans+2");
    assert_eq!(prepend_ans_if_leading_operator("^2"), "ans^2");
    assert_eq!(prepend_ans_if_leading_operator("3+2"), "3+2");
    assert_eq!(prepend_ans_if_leading_operator(" 5 "), "5");
    assert_eq!(prepend_ans_if_leading_operator("   "), "   ");
    assert_eq!(prepend_ans_if_leading_operator(""), "");
    assert_eq!(prepend_ans_if_leading_operator("!x"), "!x");
}

fn numbers_of(e: &Expr, out: &mut Vec<String>) {
    match e {
        Expr::Number(t) => out.push(t.clone()),
        Expr::Ident(_) => {}
        Expr::Unary { expr, .. } | Expr::Postfix { expr, .. } => numbers_of(expr, out),
        Expr::Binary { left, right, .. } => {
            numbers_of(left, out);
            numbers_of(right, out);
        }
        Expr::Call { args, .. } => {
            for a in args {
                numbers_of(a, out);
            }
        }
    }
}

#[test]
fn parsed_numbers_read_as_floats() {
    let e = parse_expression("1. + .5 * 2e10 - 3.25E-2 + pow(7e+1, 1.e3) + 1e").unwrap_err();
    assert_eq!(e.message(), "unexpected token 'e'");
    let tree = parse_expression("1. + .5 * 2e10 - 3.25E-2 + pow(7e+1, 1.e3) + 1e2x").unwrap_err();
    assert_eq!(tree.message(), "unexpected token 'x'");
    let tree = parse_expression("1. + .5 * 2e10 - 3.25E-2 + pow(7e+1, 1.e3)").unwrap();
    let mut nums = Vec::new();
    numbers_of(&tree, &mut nums);
    assert_eq!(nums, vec!["1.", ".5", "2e10", "3.25E-2", "7e+1", "1.e3"]);
    for n in nums {
        assert!(n.parse::<f64>().is_ok(), "{} should read as a float", n);
    }
    assert_eq!("3.25E-2".parse::<f64>().unwrap(), 0.0325);
}

#[test]
fn clone_copies_the_tree() {
    let tree = parse_expression("pow(1, -2!) * (x + 3)").unwrap();
    let copy = tree.clone();
    assert_eq!(show(&copy), show(&tree));
}

#[test]
fn prepend_ans_twice_is_once() {
    for s in ["  +2 ", "^2", "3+2", " 5 ", "   ", "", "- 1\t"] {
        let once = prepend_ans_if_leading_operator(s);
        assert_eq!(prepend_ans_if_leading_operator(&once), once);
    }
}
