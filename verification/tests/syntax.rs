use speedier::calc::evaluator::{resolve_constant, resolve_function};
use speedier::syntax::{tokenize, TokenKind};

fn kinds(input: &str) -> Vec<(TokenKind, String)> {
    tokenize(input).into_iter().map(|t| (t.kind, t.text)).collect()
}

#[test]
fn highlights_every_class() {
    let got = kinds("sin(x) + 1.5e3, PI foo(  [q]=ans # _a1");
    let want: Vec<(TokenKind, &str)> = vec![
        (TokenKind::Function, "sin"),
        (TokenKind::Paren, "("),
        (TokenKind::Identifier, "x"),
        (TokenKind::Paren, ")"),
        (TokenKind::Whitespace, " "),
        (TokenKind::Operator, "+"),
        (TokenKind::Whitespace, " "),
        (TokenKind::Number, "1.5e3"),
        (TokenKind::Comma, ","),
        (TokenKind::Whitespace, " "),
        (TokenKind::Constant, "PI"),
        (TokenKind::Whitespace, " "),
        (TokenKind::Function, "foo"),
        (TokenKind::Paren, "("),
        (TokenKind::Whitespace, "  "),
        (TokenKind::Paren, "["),
        (TokenKind::Identifier, "q"),
        (TokenKind::Paren, "]"),
        (TokenKind::Operator, "="),
        (TokenKind::Constant, "ans"),
        (TokenKind::Whitespace, " "),
        (TokenKind::Unknown, "#"),
        (TokenKind::Whitespace, " "),
        (TokenKind::Identifier, "_a1"),
    ];
    let want: Vec<(TokenKind, String)> = want.into_iter().map(|(k, t)| (k, t.to_string())).collect();
    assert_eq!(got, want);
}

#[test]
fn empty_input_has_no_pieces() {
    assert!(tokenize("").is_empty());
}

#[test]
fn number_exponent_takes_its_sign() {
    assert_eq!(kinds("1e-5"), vec![(TokenKind::Number, "1e-5".to_string())]);
    assert_eq!(
        kinds("1.2.3"),
        vec![(TokenKind::Number, "1.2".to_string()), (TokenKind::Number, ".3".to_string())]
    );
}

#[test]
fn pieces_cover_the_line() {
    for input in ["", "  a+b ", "sqrt(2)*π/é", "1e+ \t x!", "((()))"] {
        let joined: String = tokenize(input).into_iter().map(|t| t.text).collect();
        assert_eq!(joined, input);
    }
}

#[test]
fn name_followed_by_paren_is_function() {
    assert_eq!(kinds("bar (")[0], (TokenKind::Function, "bar".to_string()));
    assert_eq!(kinds("bar")[0], (TokenKind::Identifier, "bar".to_string()));
    assert_eq!(kinds("COS")[0], (TokenKind::Function, "COS".to_string()));
}

#[test]
fn highlighting_agrees_with_resolution() {
    for name in ["pi", "PI", "Ans", "e", "nan", "inf", "Infinity", "sin", "FLOOR", "pow", "foo", "pie"] {
        let kind = tokenize(name)[0].kind;
        assert_eq!(kind == TokenKind::Constant, resolve_constant(name).is_ok(), "{}", name);
        if resolve_function(name, 2).is_ok() {
            assert_eq!(kind, TokenKind::Function, "{}", name);
        }
    }
}

#[test]
fn identifier_ends_at_space() {
    assert_eq!(
        kinds("a b"),
        vec![
            (TokenKind::Identifier, "a".to_string()),
            (TokenKind::Whitespace, " ".to_string()),
            (TokenKind::Identifier, "b".to_string()),
        ]
    );
}
