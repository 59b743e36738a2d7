//! Tokenizing and parsing of calculator expressions.
use crate::calc::evaluator::EvaluatorError;
use crate::chars::{
    lemma_trim_fixed, lemma_trim_shape,
    char_is_alphabetic, char_is_alphanumeric, char_is_whitespace, chars_of, is_alphabetic,
    is_alphanumeric, is_ascii_digit, is_whitespace, spec_is_ascii_digit, spec_trim, text_of, trim,
};
use vstd::prelude::*;
use vstd::string::StringExecFns;

verus! {

/// The kind of a token of an expression.
#[derive(Clone, Copy, Debug, PartialEq, Eq, Structural)]
pub enum TokenKind {
    Eof,
    Number,
    Identifier,
    Operator,
    LParen,
    RParen,
    Comma,
}

/// A token of an expression: its kind and the text it was read from.
#[derive(Debug)]
pub struct Token {
    pub kind: TokenKind,
    pub text: String,
}

/// A token as a mathematical value.
pub struct TokenView {
    pub kind: TokenKind,
    pub text: Seq<char>,
}

impl Token {
    pub open spec fn view(&self) -> TokenView {
        TokenView { kind: self.kind, text: self.text@ }
    }
}

impl Clone for Token {
    fn clone(&self) -> (r: Self)
        ensures
            r == *self,
    {
        Token { kind: self.kind, text: self.text.clone() }
    }
}

/// The views of a sequence of tokens.
pub open spec fn token_views(ts: Seq<Token>) -> Seq<TokenView> {
    ts.map_values(|t: Token| t@)
}

/// A token of the given kind and text.
pub open spec fn tok(kind: TokenKind, text: Seq<char>) -> TokenView {
    TokenView { kind, text }
}

/// The characters that make a one-character operator token.
pub open spec fn is_operator_char(c: char) -> bool {
    c == '+' || c == '-' || c == '*' || c == '/' || c == '%' || c == '^' || c == '!'
}

/// A number starts at `i`: a digit, or a `.` followed by a digit.
pub open spec fn spec_is_number_start(s: Seq<char>, i: int) -> bool {
    spec_is_ascii_digit(s[i]) || (s[i] == '.' && i + 1 < s.len() && spec_is_ascii_digit(s[i + 1]))
}

/// The end of the digits and the at most one `.` that begin at `i`.
pub open spec fn mantissa_end(s: Seq<char>, i: int, seen_dot: bool) -> int
    decreases s.len() - i,
{
    if i < 0 || i >= s.len() {
        i
    } else if s[i] == '.' {
        if seen_dot {
            i
        } else {
            mantissa_end(s, i + 1, true)
        }
    } else if spec_is_ascii_digit(s[i]) {
        mantissa_end(s, i + 1, seen_dot)
    } else {
        i
    }
}

/// The end of the run of ASCII digits that begins at `i`.
pub open spec fn digits_end(s: Seq<char>, i: int) -> int
    decreases s.len() - i,
{
    if 0 <= i < s.len() && spec_is_ascii_digit(s[i]) {
        digits_end(s, i + 1)
    } else {
        i
    }
}

/// The end of the exponent that may follow a mantissa ending at `k`:
/// `e` or `E`, an optional sign, and at least one digit; else `k` itself.
pub open spec fn exponent_end(s: Seq<char>, k: int) -> int {
    if 0 <= k < s.len() && (s[k] == 'e' || s[k] == 'E') {
        let j = if k + 1 < s.len() && (s[k + 1] == '+' || s[k + 1] == '-') {
            k + 2
        } else {
            k + 1
        };
        if j < s.len() && spec_is_ascii_digit(s[j]) {
            digits_end(s, j + 1)
        } else {
            k
        }
    } else {
        k
    }
}

/// The end of the number literal that starts at `i`.
pub open spec fn number_end(s: Seq<char>, i: int) -> int {
    exponent_end(s, mantissa_end(s, i, false))
}

/// The end of the run of identifier characters (alphanumeric or `_`) that begins at `i`.
pub open spec fn identifier_end(s: Seq<char>, i: int) -> int
    decreases s.len() - i,
{
    if 0 <= i < s.len() && (char_is_alphanumeric(s[i]) || s[i] == '_') {
        identifier_end(s, i + 1)
    } else {
        i
    }
}

/// An identifier starts with an alphabetic character or `_`.
pub open spec fn spec_is_identifier_start(c: char) -> bool {
    char_is_alphabetic(c) || c == '_'
}

/// `t` followed by what `rest` gives, or the error of `rest`.
pub open spec fn cons_token(t: TokenView, rest: Result<Seq<TokenView>, Seq<char>>) -> Result<
    Seq<TokenView>,
    Seq<char>,
> {
    match rest {
        Ok(ts) => Ok(seq![t] + ts),
        Err(e) => Err(e),
    }
}

/// The tokens of `s[i..]`, ended by an end token, or the error for the
/// first character that starts no token.
pub open spec fn lex_from(s: Seq<char>, i: int) -> Result<Seq<TokenView>, Seq<char>>
    decreases s.len() - i,
{
    if i < 0 || i >= s.len() {
        Ok(seq![tok(TokenKind::Eof, seq![])])
    } else {
        let c = s[i];
        if char_is_whitespace(c) {
            lex_from(s, i + 1)
        } else if c == '(' {
            cons_token(tok(TokenKind::LParen, seq![c]), lex_from(s, i + 1))
        } else if c == ')' {
            cons_token(tok(TokenKind::RParen, seq![c]), lex_from(s, i + 1))
        } else if c == ',' {
            cons_token(tok(TokenKind::Comma, seq![c]), lex_from(s, i + 1))
        } else if is_operator_char(c) {
            cons_token(tok(TokenKind::Operator, seq![c]), lex_from(s, i + 1))
        } else if spec_is_number_start(s, i) {
            let j = number_end(s, i);
            if i < j <= s.len() {
                cons_token(tok(TokenKind::Number, s.subrange(i, j)), lex_from(s, j))
            } else {
                Err(seq![])
            }
        } else if spec_is_identifier_start(c) {
            let j = identifier_end(s, i + 1);
            if i < j <= s.len() {
                cons_token(tok(TokenKind::Identifier, s.subrange(i, j)), lex_from(s, j))
            } else {
                Err(seq![])
            }
        } else {
            Err("unexpected character '"@ + seq![c] + "'"@)
        }
    }
}

/// The tokens of an input text, or the tokenizing error.
pub open spec fn spec_tokenize(s: Seq<char>) -> Result<Seq<TokenView>, Seq<char>> {
    lex_from(s, 0)
}

proof fn lemma_mantissa_end_bounds(s: Seq<char>, i: int, seen_dot: bool)
    requires
        0 <= i <= s.len(),
    ensures
        i <= mantissa_end(s, i, seen_dot) <= s.len(),
    decreases s.len() - i,
{
    if i < s.len() {
        if s[i] == '.' {
            if !seen_dot {
                lemma_mantissa_end_bounds(s, i + 1, true);
            }
        } else if spec_is_ascii_digit(s[i]) {
            lemma_mantissa_end_bounds(s, i + 1, seen_dot);
        }
    }
}

proof fn lemma_digits_end_bounds(s: Seq<char>, i: int)
    requires
        0 <= i <= s.len(),
    ensures
        i <= digits_end(s, i) <= s.len(),
    decreases s.len() - i,
{
    if i < s.len() && spec_is_ascii_digit(s[i]) {
        lemma_digits_end_bounds(s, i + 1);
    }
}

proof fn lemma_identifier_end_bounds(s: Seq<char>, i: int)
    requires
        0 <= i <= s.len(),
    ensures
        i <= identifier_end(s, i) <= s.len(),
    decreases s.len() - i,
{
    if i < s.len() && (char_is_alphanumeric(s[i]) || s[i] == '_') {
        lemma_identifier_end_bounds(s, i + 1);
    }
}

/// A number literal that starts at `i` ends after `i`, within `s`.
proof fn lemma_number_end_bounds(s: Seq<char>, i: int)
    requires
        0 <= i < s.len(),
        spec_is_number_start(s, i),
    ensures
        i < number_end(s, i) <= s.len(),
{
    if s[i] == '.' {
        lemma_mantissa_end_bounds(s, i + 1, true);
    } else {
        lemma_mantissa_end_bounds(s, i + 1, false);
    }
    let k = mantissa_end(s, i, false);
    if 0 <= k < s.len() && (s[k] == 'e' || s[k] == 'E') {
        let j = if k + 1 < s.len() && (s[k + 1] == '+' || s[k + 1] == '-') {
            k + 2
        } else {
            k + 1
        };
        if j < s.len() && spec_is_ascii_digit(s[j]) {
            lemma_digits_end_bounds(s, j + 1);
        }
    }
}

/// Whether a number literal starts at `idx`.
fn is_number_start(runes: &[char], idx: usize) -> (r: bool)
    requires
        idx < runes@.len(),
    ensures
        r == spec_is_number_start(runes@, idx as int),
{
    let r = runes[idx];
    if is_ascii_digit(r) {
        return true;
    }
    r == '.' && idx + 1 < runes.len() && is_ascii_digit(runes[idx + 1])
}

/// The end of the number literal that starts at `idx`.
fn consume_number(runes: &[char], idx: usize) -> (r: usize)
    requires
        idx <= runes@.len(),
    ensures
        r == number_end(runes@, idx as int),
{
    let ghost s = runes@;
    let mut i = idx;
    let mut seen_dot = false;
    while i < runes.len()
        invariant_except_break
            idx <= i <= s.len(),
            s == runes@,
            mantissa_end(s, idx as int, false) == mantissa_end(s, i as int, seen_dot),
        ensures
            i <= s.len(),
            s == runes@,
            mantissa_end(s, idx as int, false) == i,
        decreases s.len() - i,
    {
        let r = runes[i];
        if r == '.' {
            if seen_dot {
                break;
            }
            seen_dot = true;
            i += 1;
            continue;
        }
        if !is_ascii_digit(r) {
            break;
        }
        i += 1;
    }
    if i < runes.len() && (runes[i] == 'e' || runes[i] == 'E') {
        let mut j = i + 1;
        if j < runes.len() && (runes[j] == '+' || runes[j] == '-') {
            j += 1;
        }
        if j < runes.len() && is_ascii_digit(runes[j]) {
            i = j + 1;
            while i < runes.len() && is_ascii_digit(runes[i])
                invariant
                    j < i <= s.len(),
                    s == runes@,
                    digits_end(s, j + 1) == digits_end(s, i as int),
                decreases s.len() - i,
            {
                i += 1;
            }
        }
    }
    i
}

/// Whether `r` may start an identifier.
fn is_identifier_start(r: char) -> (b: bool)
    ensures
        b == spec_is_identifier_start(r),
{
    is_alphabetic(r) || r == '_'
}

/// Whether `r` may continue an identifier.
fn is_identifier_part(r: char) -> (b: bool)
    ensures
        b == (char_is_alphanumeric(r) || r == '_'),
{
    is_alphanumeric(r) || r == '_'
}

/// The views of the tokens read so far followed by what the rest gives.
pub open spec fn after_tokens(done: Seq<TokenView>, rest: Result<Seq<TokenView>, Seq<char>>) -> Result<
    Seq<TokenView>,
    Seq<char>,
> {
    match rest {
        Ok(ts) => Ok(done + ts),
        Err(e) => Err(e),
    }
}

proof fn lemma_after_cons(done: Seq<TokenView>, t: TokenView, rest: Result<Seq<TokenView>, Seq<char>>)
    ensures
        after_tokens(done, cons_token(t, rest)) == after_tokens(done + seq![t], rest),
{
    if let Ok(ts) = rest {
        assert((done + seq![t]) + ts =~= done + (seq![t] + ts));
    }
}

/// Splits an expression into tokens, ending with an end token.
fn tokenize(input: &str) -> (r: Result<Vec<Token>, EvaluatorError>)
    ensures
        match spec_tokenize(input@) {
            Ok(ts) => r is Ok && token_views(r->Ok_0@) == ts,
            Err(e) => r is Err && r->Err_0@ == e,
        },
{
    let runes = chars_of(input);
    let ghost s = runes@;
    let mut tokens: Vec<Token> = Vec::with_capacity(runes.len());
    let mut i: usize = 0;
    while i < runes.len()
        invariant
            s == runes@,
            s == input@,
            i <= s.len(),
            spec_tokenize(s) == after_tokens(token_views(tokens@), lex_from(s, i as int)),
        decreases s.len() - i,
    {
        let r = runes[i];
        let ghost before = token_views(tokens@);
        if is_whitespace(r) {
            i += 1;
            continue;
        }
        if r == '(' || r == ')' || r == ',' || r == '+' || r == '-' || r == '*' || r == '/' || r
            == '%' || r == '^' || r == '!' {
            let kind = if r == '(' {
                TokenKind::LParen
            } else if r == ')' {
                TokenKind::RParen
            } else if r == ',' {
                TokenKind::Comma
            } else {
                TokenKind::Operator
            };
            let text = text_of(runes.as_slice(), i, i + 1);
            assert(text@ =~= seq![r]);
            tokens.push(Token { kind, text });
            assert(token_views(tokens@) =~= before + seq![tok(kind, seq![r])]);
            proof {
                lemma_after_cons(before, tok(kind, seq![r]), lex_from(s, i + 1));
            }
            i += 1;
            continue;
        }
        if is_number_start(runes.as_slice(), i) {
            let start = i;
            proof {
                lemma_number_end_bounds(s, i as int);
            }
            i = consume_number(runes.as_slice(), i);
            let text = text_of(runes.as_slice(), start, i);
            tokens.push(Token { kind: TokenKind::Number, text });
            assert(token_views(tokens@) =~= before + seq![tok(TokenKind::Number, s.subrange(start as int, i as int))]);
            proof {
                lemma_after_cons(before, tok(TokenKind::Number, s.subrange(start as int, i as int)), lex_from(s, i as int));
            }
            continue;
        }
        if is_identifier_start(r) {
            let start = i;
            i += 1;
            while i < runes.len() && is_identifier_part(runes[i])
                invariant
                    s == runes@,
                    start < i <= s.len(),
                    identifier_end(s, start + 1) == identifier_end(s, i as int),
                decreases s.len() - i,
            {
                i += 1;
            }
            let text = text_of(runes.as_slice(), start, i);
            tokens.push(Token { kind: TokenKind::Identifier, text });
            assert(token_views(tokens@) =~= before + seq![tok(TokenKind::Identifier, s.subrange(start as int, i as int))]);
            proof {
                lemma_identifier_end_bounds(s, start + 1);
                lemma_after_cons(before, tok(TokenKind::Identifier, s.subrange(start as int, i as int)), lex_from(s, i as int));
            }
            continue;
        }
        let c = text_of(runes.as_slice(), i, i + 1);
        assert(c@ =~= seq![r]);
        return Err(EvaluatorError::quoted("unexpected character '", c.as_str()));
    }
    let ghost before = token_views(tokens@);
    tokens.push(Token { kind: TokenKind::Eof, text: String::new() });
    assert(token_views(tokens@) =~= before + seq![tok(TokenKind::Eof, seq![])]);
    Ok(tokens)
}


/// A parsed expression. A number keeps the text of its literal; turning that
/// text into a floating-point value is left to whoever evaluates the tree.
#[derive(Debug)]
pub enum Expr {
    Number(String),
    Ident(String),
    Unary { op: char, expr: Box<Expr> },
    Postfix { op: char, expr: Box<Expr> },
    Binary { op: char, left: Box<Expr>, right: Box<Expr> },
    Call { name: String, args: Vec<Expr> },
}

/// An expression as a mathematical value.
pub enum ExprView {
    Number(Seq<char>),
    Ident(Seq<char>),
    Unary(char, Box<ExprView>),
    Postfix(char, Box<ExprView>),
    Binary(char, Box<ExprView>, Box<ExprView>),
    Call(Seq<char>, Seq<ExprView>),
}

impl Expr {
    pub open spec fn view(&self) -> ExprView
        decreases self, 0int,
    {
        match self {
            Expr::Number(t) => ExprView::Number(t@),
            Expr::Ident(t) => ExprView::Ident(t@),
            Expr::Unary { op, expr } => ExprView::Unary(*op, Box::new(expr.view())),
            Expr::Postfix { op, expr } => ExprView::Postfix(*op, Box::new(expr.view())),
            Expr::Binary { op, left, right } => ExprView::Binary(
                *op,
                Box::new(left.view()),
                Box::new(right.view()),
            ),
            Expr::Call { name, args } => ExprView::Call(name@, views_of(args@)),
        }
    }
}

impl Expr {
    /// A copy of the tree, node by node.
    #[verifier::loop_isolation(false)]
    fn copy_of(&self) -> (r: Expr)
        ensures
            r@ == self@,
        decreases self,
    {
        match self {
            Expr::Number(t) => Expr::Number(t.clone()),
            Expr::Ident(t) => Expr::Ident(t.clone()),
            Expr::Unary { op, expr } => Expr::Unary { op: *op, expr: Box::new(expr.copy_of()) },
            Expr::Postfix { op, expr } => Expr::Postfix { op: *op, expr: Box::new(expr.copy_of()) },
            Expr::Binary { op, left, right } => Expr::Binary {
                op: *op,
                left: Box::new(left.copy_of()),
                right: Box::new(right.copy_of()),
            },
            Expr::Call { name, args } => {
                let mut out: Vec<Expr> = Vec::new();
                let mut i: usize = 0;
                while i < args.len()
                    invariant
                        i <= args@.len(),
                        views_of(out@) == views_of(args@.take(i as int)),
                    decreases args@.len() - i,
                {
                    proof {
                        assert(decreases_to!(*self => self->args@[i as int]));
                    }
                    let e = args[i].copy_of();
                    proof {
                        lemma_views_push(out@, e);
                        assert(args@.take(i + 1).subrange(0, i as int) =~= args@.take(i as int));
                    }
                    out.push(e);
                    i += 1;
                }
                assert(args@.take(args@.len() as int) =~= args@);
                Expr::Call { name: name.clone(), args: out }
            },
        }
    }
}

impl Clone for Expr {
    fn clone(&self) -> (r: Self)
        ensures
            r@ == self@,
    {
        self.copy_of()
    }
}

/// The views of a sequence of expressions.
pub open spec fn views_of(es: Seq<Expr>) -> Seq<ExprView>
    decreases es, 1int,
{
    if es.len() == 0 {
        seq![]
    } else {
        views_of(es.subrange(0, es.len() - 1)).push(es[es.len() - 1].view())
    }
}


/// The result of parsing from a token position: the tree and the position
/// after it, or an error message.
pub type Parsed = Result<(ExprView, int), Seq<char>>;

/// The end token.
pub open spec fn eof_token() -> TokenView {
    tok(TokenKind::Eof, seq![])
}

/// The token at position `p`; past the end, the end token.
pub open spec fn tok_at(t: Seq<TokenView>, p: int) -> TokenView {
    if 0 <= p < t.len() {
        t[p]
    } else {
        eof_token()
    }
}

/// The token at `p` is the operator `c`.
pub open spec fn is_op_at(t: Seq<TokenView>, p: int, c: char) -> bool {
    tok_at(t, p).kind == TokenKind::Operator && tok_at(t, p).text == seq![c]
}

/// The additive operator at `p`, if any.
pub open spec fn additive_op(t: Seq<TokenView>, p: int) -> Option<char> {
    if is_op_at(t, p, '+') {
        Some('+')
    } else if is_op_at(t, p, '-') {
        Some('-')
    } else {
        None
    }
}

/// The multiplicative operator at `p`, if any.
pub open spec fn multiplicative_op(t: Seq<TokenView>, p: int) -> Option<char> {
    if is_op_at(t, p, '*') {
        Some('*')
    } else if is_op_at(t, p, '/') {
        Some('/')
    } else if is_op_at(t, p, '%') {
        Some('%')
    } else {
        None
    }
}

/// The binary node `left op right`.
pub open spec fn bin(op: char, left: ExprView, right: ExprView) -> ExprView {
    ExprView::Binary(op, Box::new(left), Box::new(right))
}

/// expression := sum
pub open spec fn p_expression(t: Seq<TokenView>, p: int) -> Parsed
    decreases t.len() - p, 20int,
{
    p_add_sub(t, p)
}

/// sum := product (('+' | '-') product)*, grouping to the left
pub open spec fn p_add_sub(t: Seq<TokenView>, p: int) -> Parsed
    decreases t.len() - p, 19int,
{
    match p_mul_div(t, p) {
        Ok((left, q)) => if p < q <= t.len() {
            p_add_sub_rest(t, q, left)
        } else {
            Err(seq![])
        },
        Err(m) => Err(m),
    }
}

/// The rest of a sum whose terms so far make `left`.
pub open spec fn p_add_sub_rest(t: Seq<TokenView>, p: int, left: ExprView) -> Parsed
    decreases t.len() - p, 18int,
{
    match additive_op(t, p) {
        Some(op) => match p_mul_div(t, p + 1) {
            Ok((right, q)) => if p < q <= t.len() {
                p_add_sub_rest(t, q, bin(op, left, right))
            } else {
                Err(seq![])
            },
            Err(m) => Err(m),
        },
        None => Ok((left, p)),
    }
}

/// product := unary (('*' | '/' | '%') unary)*, grouping to the left
pub open spec fn p_mul_div(t: Seq<TokenView>, p: int) -> Parsed
    decreases t.len() - p, 17int,
{
    match p_unary(t, p) {
        Ok((left, q)) => if p < q <= t.len() {
            p_mul_div_rest(t, q, left)
        } else {
            Err(seq![])
        },
        Err(m) => Err(m),
    }
}

/// The rest of a product whose factors so far make `left`.
pub open spec fn p_mul_div_rest(t: Seq<TokenView>, p: int, left: ExprView) -> Parsed
    decreases t.len() - p, 16int,
{
    match multiplicative_op(t, p) {
        Some(op) => match p_unary(t, p + 1) {
            Ok((right, q)) => if p < q <= t.len() {
                p_mul_div_rest(t, q, bin(op, left, right))
            } else {
                Err(seq![])
            },
            Err(m) => Err(m),
        },
        None => Ok((left, p)),
    }
}

/// unary := ('+' | '-') unary | power
pub open spec fn p_unary(t: Seq<TokenView>, p: int) -> Parsed
    decreases t.len() - p, 15int,
{
    if is_op_at(t, p, '+') || is_op_at(t, p, '-') {
        let op = if is_op_at(t, p, '+') {
            '+'
        } else {
            '-'
        };
        match p_unary(t, p + 1) {
            Ok((e, q)) => Ok((ExprView::Unary(op, Box::new(e)), q)),
            Err(m) => Err(m),
        }
    } else {
        p_power(t, p)
    }
}

/// power := postfix ('^' unary)?, so that `^` groups to the right and binds
/// tighter than a sign on its left but not on its right
pub open spec fn p_power(t: Seq<TokenView>, p: int) -> Parsed
    decreases t.len() - p, 14int,
{
    match p_postfix(t, p) {
        Ok((left, q)) => if is_op_at(t, q, '^') {
            if p <= q {
                match p_unary(t, q + 1) {
                    Ok((right, q2)) => Ok((bin('^', left, right), q2)),
                    Err(m) => Err(m),
                }
            } else {
                Err(seq![])
            }
        } else {
            Ok((left, q))
        },
        Err(m) => Err(m),
    }
}

/// postfix := primary '!'*
pub open spec fn p_postfix(t: Seq<TokenView>, p: int) -> Parsed
    decreases t.len() - p, 13int,
{
    match p_primary(t, p) {
        Ok((e, q)) => Ok(bangs(t, q, e)),
        Err(m) => Err(m),
    }
}

/// Wraps `e` in one factorial node for each `!` from `p` on.
pub open spec fn bangs(t: Seq<TokenView>, p: int, e: ExprView) -> (ExprView, int)
    decreases t.len() - p,
{
    if is_op_at(t, p, '!') {
        bangs(t, p + 1, ExprView::Postfix('!', Box::new(e)))
    } else {
        (e, p)
    }
}

/// primary := number | identifier | identifier '(' arguments | '(' expression ')'
pub open spec fn p_primary(t: Seq<TokenView>, p: int) -> Parsed
    decreases t.len() - p, 12int,
{
    let tk = tok_at(t, p);
    if tk.kind == TokenKind::Number {
        Ok((ExprView::Number(tk.text), p + 1))
    } else if tk.kind == TokenKind::Identifier {
        if tok_at(t, p + 1).kind == TokenKind::LParen {
            match p_args(t, p + 2) {
                Ok((args, q)) => Ok((ExprView::Call(tk.text, args), q)),
                Err(m) => Err(m),
            }
        } else {
            Ok((ExprView::Ident(tk.text), p + 1))
        }
    } else if tk.kind == TokenKind::LParen {
        match p_expression(t, p + 1) {
            Ok((e, q)) => if tok_at(t, q).kind == TokenKind::RParen {
                Ok((e, q + 1))
            } else {
                Err("expected ')'"@)
            },
            Err(m) => Err(m),
        }
    } else if tk.kind == TokenKind::Eof {
        Err("unexpected end of expression"@)
    } else {
        Err("unexpected token '"@ + tk.text + "'"@)
    }
}

/// arguments := ')' | expression (',' expression)* ')'
pub open spec fn p_args(t: Seq<TokenView>, p: int) -> Result<(Seq<ExprView>, int), Seq<char>>
    decreases t.len() - p, 22int,
{
    if tok_at(t, p).kind == TokenKind::RParen {
        Ok((seq![], p + 1))
    } else {
        p_arg_list(t, p, seq![])
    }
}

/// The arguments from `p` on, after the arguments `done`.
pub open spec fn p_arg_list(t: Seq<TokenView>, p: int, done: Seq<ExprView>) -> Result<
    (Seq<ExprView>, int),
    Seq<char>,
>
    decreases t.len() - p, 21int,
{
    match p_expression(t, p) {
        Ok((e, q)) => if tok_at(t, q).kind == TokenKind::Comma {
            if p <= q {
                p_arg_list(t, q + 1, done.push(e))
            } else {
                Err(seq![])
            }
        } else if tok_at(t, q).kind == TokenKind::RParen {
            Ok((done.push(e), q + 1))
        } else {
            Err("expected ',' or ')'"@)
        },
        Err(m) => Err(m),
    }
}

/// The tree of a whole token sequence: an expression followed by the end token.
pub open spec fn parse_tokens(t: Seq<TokenView>) -> Result<ExprView, Seq<char>> {
    match p_expression(t, 0) {
        Ok((e, q)) => if tok_at(t, q).kind != TokenKind::Eof {
            Err("unexpected token '"@ + tok_at(t, q).text + "'"@)
        } else {
            Ok(e)
        },
        Err(m) => Err(m),
    }
}

/// The tree of an input text, or the error that tokenizing or parsing meets first.
pub open spec fn spec_parse_expression(s: Seq<char>) -> Result<ExprView, Seq<char>> {
    match spec_tokenize(s) {
        Ok(t) => parse_tokens(t),
        Err(m) => Err(m),
    }
}


/// A result of parsing, held against what the grammar gives from `p`.
pub open spec fn matches_parse(r: Result<Expr, EvaluatorError>, g: Parsed, p: int, end: int) -> bool {
    match g {
        Ok((e, q)) => r is Ok && r->Ok_0@ == e && end == q && p < q,
        Err(m) => r is Err && r->Err_0@ == m,
    }
}

proof fn lemma_views_push(es: Seq<Expr>, e: Expr)
    ensures
        views_of(es.push(e)) == views_of(es).push(e@),
{
    assert(es.push(e).subrange(0, es.len() as int) == es);
}

/// Whether `text` is exactly the one character `c`.
fn is_char_text(text: &str, c: char) -> (r: bool)
    ensures
        r == (text@ == seq![c]),
{
    if text.unicode_len() == 1 {
        let r = text.get_char(0) == c;
        assert(r ==> text@ =~= seq![c]);
        r
    } else {
        false
    }
}

struct Parser {
    tokens: Vec<Token>,
    pos: usize,
}

impl Parser {
    spec fn toks(&self) -> Seq<TokenView> {
        token_views(self.tokens@)
    }

    spec fn wf(&self) -> bool {
        &&& self.tokens@.len() > 0
        &&& self.tokens@.last().kind == TokenKind::Eof
        &&& self.pos < self.tokens.len()
    }

    /// A parser positioned at the first token of `input`.
    fn new(input: &str) -> (r: Result<Parser, EvaluatorError>)
        ensures
            match spec_tokenize(input@) {
                Ok(ts) => r is Ok && r->Ok_0.wf() && r->Ok_0.toks() == ts && r->Ok_0.pos == 0,
                Err(m) => r is Err && r->Err_0@ == m,
            },
    {
        let tokens = tokenize(input)?;
        proof {
            lemma_lex_ends_with_eof(input@, 0);
            assert(tokens@.last()@ == token_views(tokens@).last());
        }
        Ok(Parser { tokens, pos: 0 })
    }

    fn peek(&self) -> (r: &Token)
        requires
            self.wf(),
        ensures
            r@ == tok_at(self.toks(), self.pos as int),
            *r == self.tokens@[self.pos as int],
    {
        &self.tokens[self.pos]
    }

    fn next(&mut self) -> (r: Token)
        requires
            old(self).wf(),
        ensures
            final(self).wf(),
            final(self).tokens == old(self).tokens,
            r@ == tok_at(old(self).toks(), old(self).pos as int),
            final(self).pos == if r.kind == TokenKind::Eof {
                old(self).pos as int
            } else {
                old(self).pos + 1
            },
    {
        let tok = self.peek().clone();
        if tok.kind != TokenKind::Eof {
            assert(self.pos < self.tokens@.len() - 1);
            self.pos += 1;
        }
        tok
    }

    /// Steps past the current token when it is of the given kind. Asked for
    /// the end kind at the end token, it steps past the end, and the parser is
    /// then left past its tokens.
    fn match_kind(&mut self, kind: TokenKind) -> (r: bool)
        requires
            old(self).wf(),
        ensures
            kind != TokenKind::Eof ==> final(self).wf(),
            final(self).pos <= final(self).tokens@.len(),
            final(self).tokens == old(self).tokens,
            r == (tok_at(old(self).toks(), old(self).pos as int).kind == kind),
            final(self).pos == old(self).pos + if r {
                1int
            } else {
                0int
            },
    {
        if self.peek().kind == kind {
            assert(kind != TokenKind::Eof ==> self.pos < self.tokens@.len() - 1);
            self.pos += 1;
            return true;
        }
        false
    }

    fn match_operator(&mut self, op: char) -> (r: bool)
        requires
            old(self).wf(),
        ensures
            final(self).wf(),
            final(self).tokens == old(self).tokens,
            r == is_op_at(old(self).toks(), old(self).pos as int, op),
            final(self).pos == old(self).pos + if r {
                1int
            } else {
                0int
            },
    {
        let tok = self.peek();
        if tok.kind == TokenKind::Operator && is_char_text(tok.text.as_str(), op) {
            assert(self.pos < self.tokens@.len() - 1);
            self.pos += 1;
            return true;
        }
        false
    }

    fn parse_expression(&mut self) -> (r: Result<Expr, EvaluatorError>)
        requires
            old(self).wf(),
        ensures
            final(self).wf(),
            final(self).tokens == old(self).tokens,
            matches_parse(r, p_expression(old(self).toks(), old(self).pos as int), old(self).pos as int, final(self).pos as int),
        decreases old(self).tokens@.len() - old(self).pos, 20int,
    {
        self.parse_add_sub()
    }

    fn parse_add_sub(&mut self) -> (r: Result<Expr, EvaluatorError>)
        requires
            old(self).wf(),
        ensures
            final(self).wf(),
            final(self).tokens == old(self).tokens,
            matches_parse(r, p_add_sub(old(self).toks(), old(self).pos as int), old(self).pos as int, final(self).pos as int),
        decreases old(self).tokens@.len() - old(self).pos, 19int,
    {
        let ghost t = self.toks();
        let ghost p0 = self.pos as int;
        let mut left = self.parse_mul_div()?;
        loop
            invariant
                self.wf(),
                self.tokens == old(self).tokens,
                t == self.toks(),
                p0 == old(self).pos,
                p0 < self.pos,
                p_add_sub(t, p0) == p_add_sub_rest(t, self.pos as int, left@),
            ensures
                self.wf(),
                self.tokens == old(self).tokens,
                p0 < self.pos,
                p_add_sub(t, p0) == Ok::<(ExprView, int), Seq<char>>((left@, self.pos as int)),
            decreases self.tokens@.len() - self.pos,
        {
                if self.match_operator('+') {
                let right = self.parse_mul_div()?;
                left = Expr::Binary { op: '+', left: Box::new(left), right: Box::new(right) };
                continue;
            }
            if self.match_operator('-') {
                let right = self.parse_mul_div()?;
                left = Expr::Binary { op: '-', left: Box::new(left), right: Box::new(right) };
                continue;
            }
            break;
        }
        Ok(left)
    }

    fn parse_mul_div(&mut self) -> (r: Result<Expr, EvaluatorError>)
        requires
            old(self).wf(),
        ensures
            final(self).wf(),
            final(self).tokens == old(self).tokens,
            matches_parse(r, p_mul_div(old(self).toks(), old(self).pos as int), old(self).pos as int, final(self).pos as int),
        decreases old(self).tokens@.len() - old(self).pos, 17int,
    {
        let ghost t = self.toks();
        let ghost p0 = self.pos as int;
        let mut left = self.parse_unary()?;
        loop
            invariant
                self.wf(),
                self.tokens == old(self).tokens,
                t == self.toks(),
                p0 == old(self).pos,
                p0 < self.pos,
                p_mul_div(t, p0) == p_mul_div_rest(t, self.pos as int, left@),
            ensures
                self.wf(),
                self.tokens == old(self).tokens,
                p0 < self.pos,
                p_mul_div(t, p0) == Ok::<(ExprView, int), Seq<char>>((left@, self.pos as int)),
            decreases self.tokens@.len() - self.pos,
        {
            if self.match_operator('*') {
                let right = self.parse_unary()?;
                left = Expr::Binary { op: '*', left: Box::new(left), right: Box::new(right) };
                continue;
            }
            if self.match_operator('/') {
                let right = self.parse_unary()?;
                left = Expr::Binary { op: '/', left: Box::new(left), right: Box::new(right) };
                continue;
            }
            if self.match_operator('%') {
                let right = self.parse_unary()?;
                left = Expr::Binary { op: '%', left: Box::new(left), right: Box::new(right) };
                continue;
            }
            break;
        }
        Ok(left)
    }

    fn parse_unary(&mut self) -> (r: Result<Expr, EvaluatorError>)
        requires
            old(self).wf(),
        ensures
            final(self).wf(),
            final(self).tokens == old(self).tokens,
            matches_parse(r, p_unary(old(self).toks(), old(self).pos as int), old(self).pos as int, final(self).pos as int),
        decreases old(self).tokens@.len() - old(self).pos, 15int,
    {
        if self.match_operator('+') {
            let expr = self.parse_unary()?;
            return Ok(Expr::Unary { op: '+', expr: Box::new(expr) });
        }
        if self.match_operator('-') {
            let expr = self.parse_unary()?;
            return Ok(Expr::Unary { op: '-', expr: Box::new(expr) });
        }
        self.parse_power()
    }

    fn parse_power(&mut self) -> (r: Result<Expr, EvaluatorError>)
        requires
            old(self).wf(),
        ensures
            final(self).wf(),
            final(self).tokens == old(self).tokens,
            matches_parse(r, p_power(old(self).toks(), old(self).pos as int), old(self).pos as int, final(self).pos as int),
        decreases old(self).tokens@.len() - old(self).pos, 14int,
    {
        let left = self.parse_postfix()?;
        if self.match_operator('^') {
            let right = self.parse_unary()?;
            return Ok(Expr::Binary { op: '^', left: Box::new(left), right: Box::new(right) });
        }
        Ok(left)
    }

    fn parse_postfix(&mut self) -> (r: Result<Expr, EvaluatorError>)
        requires
            old(self).wf(),
        ensures
            final(self).wf(),
            final(self).tokens == old(self).tokens,
            matches_parse(r, p_postfix(old(self).toks(), old(self).pos as int), old(self).pos as int, final(self).pos as int),
        decreases old(self).tokens@.len() - old(self).pos, 13int,
    {
        let ghost t = self.toks();
        let ghost p0 = self.pos as int;
        let mut expr = self.parse_primary()?;
        while self.match_operator('!')
            invariant
                self.wf(),
                self.tokens == old(self).tokens,
                t == self.toks(),
                p0 < self.pos,
                p_postfix(t, p0) == Ok::<(ExprView, int), Seq<char>>(bangs(t, self.pos as int, expr@)),
            decreases self.tokens@.len() - self.pos,
        {
            expr = Expr::Postfix { op: '!', expr: Box::new(expr) };
        }
        Ok(expr)
    }

    fn parse_primary(&mut self) -> (r: Result<Expr, EvaluatorError>)
        requires
            old(self).wf(),
        ensures
            final(self).wf(),
            final(self).tokens == old(self).tokens,
            matches_parse(r, p_primary(old(self).toks(), old(self).pos as int), old(self).pos as int, final(self).pos as int),
        decreases old(self).tokens@.len() - old(self).pos, 12int,
    {
        match self.peek().kind {
            TokenKind::Number => {
                let tok = self.next();
                Ok(Expr::Number(tok.text))
            },
            TokenKind::Identifier => {
                let tok = self.next();
                if self.match_kind(TokenKind::LParen) {
                    let args = self.parse_args()?;
                    Ok(Expr::Call { name: tok.text, args })
                } else {
                    Ok(Expr::Ident(tok.text))
                }
            },
            TokenKind::LParen => {
                self.next();
                let expr = self.parse_expression()?;
                if !self.match_kind(TokenKind::RParen) {
                    return Err(EvaluatorError::from_text("expected ')'"));
                }
                Ok(expr)
            },
            TokenKind::Eof => Err(EvaluatorError::from_text("unexpected end of expression")),
            _ => Err(EvaluatorError::quoted("unexpected token '", self.peek().text.as_str())),
        }
    }

    fn parse_args(&mut self) -> (r: Result<Vec<Expr>, EvaluatorError>)
        requires
            old(self).wf(),
        ensures
            final(self).wf(),
            final(self).tokens == old(self).tokens,
            match p_args(old(self).toks(), old(self).pos as int) {
                Ok((vs, q)) => r is Ok && views_of(r->Ok_0@) == vs && final(self).pos == q
                    && old(self).pos < q,
                Err(m) => r is Err && r->Err_0@ == m,
            },
        decreases old(self).tokens@.len() - old(self).pos, 22int,
    {
        let ghost t = self.toks();
        let ghost p0 = self.pos as int;
        if self.match_kind(TokenKind::RParen) {
            return Ok(Vec::new());
        }
        let mut args: Vec<Expr> = Vec::new();
        loop
            invariant_except_break
                p_args(t, p0) == p_arg_list(t, self.pos as int, views_of(args@)),
            invariant
                self.wf(),
                self.tokens == old(self).tokens,
                t == self.toks(),
                p0 == old(self).pos,
                p0 <= self.pos,
            ensures
                self.wf(),
                self.tokens == old(self).tokens,
                p0 < self.pos,
                p_args(t, p0) == Ok::<(Seq<ExprView>, int), Seq<char>>((views_of(args@), self.pos as int)),
            decreases self.tokens@.len() - self.pos,
        {
            let expr = self.parse_expression()?;
            proof {
                lemma_views_push(args@, expr);
            }
            args.push(expr);
            if self.match_kind(TokenKind::Comma) {
                continue;
            }
            if self.match_kind(TokenKind::RParen) {
                break;
            }
            return Err(EvaluatorError::from_text("expected ',' or ')'"));
        }
        Ok(args)
    }
}

/// A successful tokenization ends with the end token.
proof fn lemma_lex_ends_with_eof(s: Seq<char>, i: int)
    ensures
        lex_from(s, i) matches Ok(ts) ==> ts.len() > 0 && ts.last().kind == TokenKind::Eof,
    decreases s.len() - i,
{
    if 0 <= i < s.len() {
        let c = s[i];
        if char_is_whitespace(c) || c == '(' || c == ')' || c == ',' || is_operator_char(c) {
            lemma_lex_ends_with_eof(s, i + 1);
        } else if spec_is_number_start(s, i) {
            lemma_number_end_bounds(s, i);
            lemma_lex_ends_with_eof(s, number_end(s, i));
        } else if spec_is_identifier_start(c) {
            lemma_identifier_end_bounds(s, i + 1);
            lemma_lex_ends_with_eof(s, identifier_end(s, i + 1));
        }
    }
}

/// Parses an expression. Succeeds exactly when the input tokenizes and its
/// tokens form one expression followed by nothing else; the error is the one
/// that tokenizing or parsing meets first.
pub fn parse_expression(input: &str) -> (r: Result<Expr, EvaluatorError>)
    ensures
        match spec_parse_expression(input@) {
            Ok(e) => r is Ok && r->Ok_0@ == e,
            Err(m) => r is Err && r->Err_0@ == m,
        },
{
    let mut parser = Parser::new(input)?;
    let expr = parser.parse_expression()?;
    if parser.peek().kind != TokenKind::Eof {
        return Err(EvaluatorError::quoted("unexpected token '", parser.peek().text.as_str()));
    }
    Ok(expr)
}


/// The operators that, leading an input, make it continue the previous result.
pub open spec fn is_leading_operator(c: char) -> bool {
    c == '+' || c == '-' || c == '*' || c == '/' || c == '%' || c == '^'
}

/// An input with `ans` put in front when, once trimmed, it starts with a
/// binary operator; an input that is blank once trimmed is kept as it is,
/// and any other input is trimmed.
pub open spec fn spec_prepend_ans(e: Seq<char>) -> Seq<char> {
    let t = spec_trim(e);
    if t.len() == 0 {
        e
    } else if is_leading_operator(t[0]) {
        "ans"@ + t
    } else {
        t
    }
}

/// What the rewrite does, case by case: a blank input is kept as it is; an
/// input whose trimmed text starts with one of `+ - * / % ^` becomes `ans`
/// followed by the trimmed text; any other input becomes its trimmed text.
pub proof fn law_prepend_ans_cases(e: Seq<char>)
    ensures
        spec_trim(e).len() == 0 ==> spec_prepend_ans(e) == e,
        spec_trim(e).len() > 0 && ({
            let c = spec_trim(e)[0];
            c == '+' || c == '-' || c == '*' || c == '/' || c == '%' || c == '^'
        }) ==> spec_prepend_ans(e) == "ans"@ + spec_trim(e),
        spec_trim(e).len() > 0 && !({
            let c = spec_trim(e)[0];
            c == '+' || c == '-' || c == '*' || c == '/' || c == '%' || c == '^'
        }) ==> spec_prepend_ans(e) == spec_trim(e),
{
}

/// Continuing the previous result is done once: applying the rewrite to its
/// own result changes nothing.
pub proof fn law_prepend_ans_idempotent(e: Seq<char>)
    ensures
        spec_prepend_ans(spec_prepend_ans(e)) == spec_prepend_ans(e),
{
    reveal_strlit("ans");
    let t = spec_trim(e);
    lemma_trim_shape(e);
    if t.len() > 0 {
        if is_leading_operator(t[0]) {
            let p = "ans"@ + t;
            assert(p[0] == 'a');
            assert(p.last() == t.last());
            lemma_trim_fixed(p);
        } else {
            lemma_trim_fixed(t);
        }
    }
}

/// Makes an input that starts with an operator continue the previous result:
/// `"+ 2"` becomes `"ans+ 2"`.
pub fn prepend_ans_if_leading_operator(expr: &str) -> (r: String)
    ensures
        r@ == spec_prepend_ans(expr@),
{
    let trimmed = trim(expr);
    if trimmed.as_str().is_empty() {
        return String::from_str(expr);
    }
    let first = trimmed.as_str().get_char(0);
    if first == '+' || first == '-' || first == '*' || first == '/' || first == '%' || first == '^' {
        let mut out = String::from_str("ans");
        out.append(trimmed.as_str());
        out
    } else {
        trimmed
    }
}


/// Every character of `t` is an ASCII digit.
pub open spec fn all_digits(t: Seq<char>) -> bool {
    forall|k: int| 0 <= k < t.len() ==> spec_is_ascii_digit(#[trigger] t[k])
}

/// `Digit+`, `Digit+ '.' Digit*` or `Digit* '.' Digit+`.
pub open spec fn is_decimal_mantissa(m: Seq<char>) -> bool {
    ||| (m.len() > 0 && all_digits(m))
    ||| exists|k: int|
        0 <= k < m.len() && m[k] == '.' && m.len() > 1 && all_digits(#[trigger] m.take(k))
            && all_digits(m.skip(k + 1))
}

/// `('e' | 'E') Sign? Digit+`.
pub open spec fn is_exponent(x: Seq<char>) -> bool {
    &&& x.len() >= 2
    &&& (x[0] == 'e' || x[0] == 'E')
    &&& {
        let digits = if x[1] == '+' || x[1] == '-' {
            x.skip(2)
        } else {
            x.skip(1)
        };
        digits.len() > 0 && all_digits(digits)
    }
}

/// A decimal floating-point literal: a mantissa, then an optional exponent,
/// the unsigned form that `f64`'s `FromStr` documents as accepted.
pub open spec fn is_float_literal(t: Seq<char>) -> bool {
    ||| is_decimal_mantissa(t)
    ||| exists|j: int| 0 < j < t.len() && is_decimal_mantissa(#[trigger] t.take(j)) && is_exponent(t.skip(j))
}

proof fn lemma_mantissa_shape(s: Seq<char>, j: int, seen_dot: bool)
    requires
        0 <= j <= s.len(),
    ensures
        forall|q: int|
            j <= q < mantissa_end(s, j, seen_dot) ==> spec_is_ascii_digit(#[trigger] s[q]) || s[q] == '.',
        seen_dot ==> forall|q: int| j <= q < mantissa_end(s, j, seen_dot) ==> #[trigger] s[q] != '.',
        forall|q1: int, q2: int|
            j <= q1 < q2 < mantissa_end(s, j, seen_dot) && #[trigger] s[q1] == '.' ==> #[trigger] s[q2] != '.',
    decreases s.len() - j,
{
    lemma_mantissa_end_bounds(s, j, seen_dot);
    if j < s.len() {
        if s[j] == '.' {
            if !seen_dot {
                lemma_mantissa_shape(s, j + 1, true);
            }
        } else if spec_is_ascii_digit(s[j]) {
            lemma_mantissa_shape(s, j + 1, seen_dot);
        }
    }
}

proof fn lemma_digits_shape(s: Seq<char>, j: int)
    requires
        0 <= j <= s.len(),
    ensures
        forall|q: int| j <= q < digits_end(s, j) ==> spec_is_ascii_digit(#[trigger] s[q]),
    decreases s.len() - j,
{
    if j < s.len() && spec_is_ascii_digit(s[j]) {
        lemma_digits_shape(s, j + 1);
    }
}

proof fn lemma_mantissa_valid(s: Seq<char>, i: int)
    requires
        0 <= i < s.len(),
        spec_is_number_start(s, i),
    ensures
        is_decimal_mantissa(s.subrange(i, mantissa_end(s, i, false))),
{
    let e = mantissa_end(s, i, false);
    lemma_mantissa_end_bounds(s, i, false);
    lemma_mantissa_shape(s, i, false);
    if s[i] == '.' {
        lemma_mantissa_end_bounds(s, i + 1, true);
    } else {
        lemma_mantissa_end_bounds(s, i + 1, false);
    }
    let m = s.subrange(i, e);
    if s[i] == '.' {
        assert(mantissa_end(s, i, false) == mantissa_end(s, i + 1, true));
        assert(mantissa_end(s, i + 1, true) == mantissa_end(s, i + 2, true));
        lemma_mantissa_end_bounds(s, i + 2, true);
        assert(m[0] == '.');
        assert(all_digits(m.take(0)));
        assert forall|q: int| 0 <= q < m.skip(1).len() implies spec_is_ascii_digit(#[trigger] m.skip(1)[q]) by {
            assert(m.skip(1)[q] == s[i + 1 + q]);
            assert(s[i] == '.');
        }
        assert(m.len() > 1);
        assert(0 <= 0int < m.len() && m[0] == '.' && m.len() > 1 && all_digits(m.take(0int)) && all_digits(m.skip(0int + 1)));
    } else if exists|q: int| i <= q < e && s[q] == '.' {
        let k = choose|q: int| i <= q < e && s[q] == '.';
        assert(m[k - i] == '.');
        assert forall|q: int| 0 <= q < m.take(k - i).len() implies spec_is_ascii_digit(#[trigger] m.take(k - i)[q]) by {
            assert(m.take(k - i)[q] == s[i + q]);
            assert(s[i + q] != '.');
        }
        assert forall|q: int| 0 <= q < m.skip(k - i + 1).len() implies spec_is_ascii_digit(#[trigger] m.skip(k - i + 1)[q]) by {
            assert(m.skip(k - i + 1)[q] == s[k + 1 + q]);
        }
        assert(m.len() > 1);
        assert(0 <= k - i < m.len() && m[k - i] == '.' && m.len() > 1 && all_digits(m.take(k - i)) && all_digits(m.skip(k - i + 1)));
    } else {
        assert forall|q: int| 0 <= q < m.len() implies spec_is_ascii_digit(#[trigger] m[q]) by {
            assert(m[q] == s[i + q]);
        }
    }
}

/// The text of a number literal that the tokenizer reads is a decimal
/// floating-point literal, so converting it to a number cannot fail.
pub proof fn law_number_literal_well_formed(s: Seq<char>, i: int)
    requires
        0 <= i < s.len(),
        spec_is_number_start(s, i),
    ensures
        is_float_literal(s.subrange(i, number_end(s, i))),
{
    lemma_mantissa_valid(s, i);
    lemma_number_end_bounds(s, i);
    let k = mantissa_end(s, i, false);
    lemma_mantissa_end_bounds(s, i, false);
    let t = s.subrange(i, number_end(s, i));
    if number_end(s, i) == k {
        assert(t =~= s.subrange(i, k));
    } else {
        let j = if k + 1 < s.len() && (s[k + 1] == '+' || s[k + 1] == '-') {
            k + 2
        } else {
            k + 1
        };
        lemma_digits_end_bounds(s, j + 1);
        lemma_digits_shape(s, j + 1);
        let x = t.skip(k - i);
        assert(t.take(k - i) =~= s.subrange(i, k));
        assert(x =~= s.subrange(k, number_end(s, i)));
        let digits = if x[1] == '+' || x[1] == '-' {
            x.skip(2)
        } else {
            x.skip(1)
        };
        assert(digits =~= s.subrange(j, number_end(s, i)));
        assert forall|q: int| 0 <= q < digits.len() implies spec_is_ascii_digit(#[trigger] digits[q]) by {
            assert(digits[q] == s[j + q]);
        }
        assert(is_exponent(x));
        assert(k - i > 0);
    }
}

/// Every number token that tokenizing gives is a decimal floating-point literal.
pub proof fn law_number_tokens_well_formed(s: Seq<char>, i: int)
    ensures
        lex_from(s, i) matches Ok(ts) ==> forall|k: int|
            0 <= k < ts.len() && (#[trigger] ts[k]).kind == TokenKind::Number ==> is_float_literal(ts[k].text),
    decreases s.len() - i,
{
    if 0 <= i < s.len() {
        let c = s[i];
        let j = if char_is_whitespace(c) || c == '(' || c == ')' || c == ',' || is_operator_char(c) {
            i + 1
        } else if spec_is_number_start(s, i) {
            lemma_number_end_bounds(s, i);
            law_number_literal_well_formed(s, i);
            number_end(s, i)
        } else if spec_is_identifier_start(c) {
            lemma_identifier_end_bounds(s, i + 1);
            identifier_end(s, i + 1)
        } else {
            i + 1
        };
        law_number_tokens_well_formed(s, j);
        if let Ok(ts) = lex_from(s, i) {
            if !char_is_whitespace(c) {
                if let Ok(rest) = lex_from(s, j) {
                    assert forall|k: int|
                        0 <= k < ts.len() && (#[trigger] ts[k]).kind == TokenKind::Number implies is_float_literal(
                        ts[k].text,
                    ) by {
                        if k > 0 {
                            assert(ts[k] == rest[k - 1]);
                        }
                    }
                }
            }
        }
    }
}


/// Every number in the tree is a decimal floating-point literal.
pub open spec fn numbers_well_formed(e: ExprView) -> bool
    decreases e, 1int,
{
    match e {
        ExprView::Number(x) => is_float_literal(x),
        ExprView::Ident(_) => true,
        ExprView::Unary(_, b) => numbers_well_formed(*b),
        ExprView::Postfix(_, b) => numbers_well_formed(*b),
        ExprView::Binary(_, l, r) => numbers_well_formed(*l) && numbers_well_formed(*r),
        ExprView::Call(_, args) => all_numbers_well_formed(args),
    }
}

/// Every number in each of the trees is a decimal floating-point literal.
pub open spec fn all_numbers_well_formed(es: Seq<ExprView>) -> bool
    decreases es, 0int,
{
    if es.len() == 0 {
        true
    } else {
        all_numbers_well_formed(es.subrange(0, es.len() - 1)) && numbers_well_formed(
            es[es.len() - 1],
        )
    }
}

/// Every number token is a decimal floating-point literal.
pub open spec fn number_tokens_well_formed(t: Seq<TokenView>) -> bool {
    forall|k: int| 0 <= k < t.len() && (#[trigger] t[k]).kind == TokenKind::Number ==> is_float_literal(t[k].text)
}

/// The tree that a parse gives, when it gives one, has only well-formed numbers.
pub open spec fn parsed_well_formed(g: Parsed) -> bool {
    g matches Ok((e, _)) ==> numbers_well_formed(e)
}

proof fn lemma_push_well_formed(done: Seq<ExprView>, e: ExprView)
    requires
        all_numbers_well_formed(done),
        numbers_well_formed(e),
    ensures
        all_numbers_well_formed(done.push(e)),
{
    assert(done.push(e).subrange(0, done.len() as int) =~= done);
}

proof fn lemma_wf_expression(t: Seq<TokenView>, p: int)
    requires
        number_tokens_well_formed(t),
    ensures
        parsed_well_formed(p_expression(t, p)),
    decreases t.len() - p, 20int,
{
    lemma_wf_add_sub(t, p);
}

proof fn lemma_wf_add_sub(t: Seq<TokenView>, p: int)
    requires
        number_tokens_well_formed(t),
    ensures
        parsed_well_formed(p_add_sub(t, p)),
    decreases t.len() - p, 19int,
{
    lemma_wf_mul_div(t, p);
    if let Ok((left, q)) = p_mul_div(t, p) {
        if p < q <= t.len() {
            lemma_wf_add_sub_rest(t, q, left);
        }
    }
}

proof fn lemma_wf_add_sub_rest(t: Seq<TokenView>, p: int, left: ExprView)
    requires
        number_tokens_well_formed(t),
        numbers_well_formed(left),
    ensures
        parsed_well_formed(p_add_sub_rest(t, p, left)),
    decreases t.len() - p, 18int,
{
    if let Some(op) = additive_op(t, p) {
        lemma_wf_mul_div(t, p + 1);
        if let Ok((right, q)) = p_mul_div(t, p + 1) {
            if p < q <= t.len() {
                lemma_wf_add_sub_rest(t, q, bin(op, left, right));
            }
        }
    }
}

proof fn lemma_wf_mul_div(t: Seq<TokenView>, p: int)
    requires
        number_tokens_well_formed(t),
    ensures
        parsed_well_formed(p_mul_div(t, p)),
    decreases t.len() - p, 17int,
{
    lemma_wf_unary(t, p);
    if let Ok((left, q)) = p_unary(t, p) {
        if p < q <= t.len() {
            lemma_wf_mul_div_rest(t, q, left);
        }
    }
}

proof fn lemma_wf_mul_div_rest(t: Seq<TokenView>, p: int, left: ExprView)
    requires
        number_tokens_well_formed(t),
        numbers_well_formed(left),
    ensures
        parsed_well_formed(p_mul_div_rest(t, p, left)),
    decreases t.len() - p, 16int,
{
    if let Some(op) = multiplicative_op(t, p) {
        lemma_wf_unary(t, p + 1);
        if let Ok((right, q)) = p_unary(t, p + 1) {
            if p < q <= t.len() {
                lemma_wf_mul_div_rest(t, q, bin(op, left, right));
            }
        }
    }
}

proof fn lemma_wf_unary(t: Seq<TokenView>, p: int)
    requires
        number_tokens_well_formed(t),
    ensures
        parsed_well_formed(p_unary(t, p)),
    decreases t.len() - p, 15int,
{
    if is_op_at(t, p, '+') || is_op_at(t, p, '-') {
        lemma_wf_unary(t, p + 1);
    } else {
        lemma_wf_power(t, p);
    }
}

proof fn lemma_wf_power(t: Seq<TokenView>, p: int)
    requires
        number_tokens_well_formed(t),
    ensures
        parsed_well_formed(p_power(t, p)),
    decreases t.len() - p, 14int,
{
    lemma_wf_postfix(t, p);
    if let Ok((left, q)) = p_postfix(t, p) {
        if is_op_at(t, q, '^') && p <= q {
            lemma_wf_unary(t, q + 1);
        }
    }
}

proof fn lemma_wf_bangs(t: Seq<TokenView>, p: int, e: ExprView)
    requires
        numbers_well_formed(e),
    ensures
        numbers_well_formed(bangs(t, p, e).0),
    decreases t.len() - p,
{
    if is_op_at(t, p, '!') {
        lemma_wf_bangs(t, p + 1, ExprView::Postfix('!', Box::new(e)));
    }
}

proof fn lemma_wf_postfix(t: Seq<TokenView>, p: int)
    requires
        number_tokens_well_formed(t),
    ensures
        parsed_well_formed(p_postfix(t, p)),
    decreases t.len() - p, 13int,
{
    lemma_wf_primary(t, p);
    if let Ok((e, q)) = p_primary(t, p) {
        lemma_wf_bangs(t, q, e);
    }
}

proof fn lemma_wf_primary(t: Seq<TokenView>, p: int)
    requires
        number_tokens_well_formed(t),
    ensures
        parsed_well_formed(p_primary(t, p)),
    decreases t.len() - p, 12int,
{
    let tk = tok_at(t, p);
    if tk.kind == TokenKind::Number {
        assert(0 <= p < t.len());
        assert(t[p].kind == TokenKind::Number);
    } else if tk.kind == TokenKind::Identifier {
        if tok_at(t, p + 1).kind == TokenKind::LParen {
            lemma_wf_args(t, p + 2);
        }
    } else if tk.kind == TokenKind::LParen {
        lemma_wf_expression(t, p + 1);
    }
}

proof fn lemma_wf_args(t: Seq<TokenView>, p: int)
    requires
        number_tokens_well_formed(t),
    ensures
        p_args(t, p) matches Ok((args, _)) ==> all_numbers_well_formed(args),
    decreases t.len() - p, 22int,
{
    if tok_at(t, p).kind != TokenKind::RParen {
        lemma_wf_arg_list(t, p, seq![]);
    }
}

proof fn lemma_wf_arg_list(t: Seq<TokenView>, p: int, done: Seq<ExprView>)
    requires
        number_tokens_well_formed(t),
        all_numbers_well_formed(done),
    ensures
        p_arg_list(t, p, done) matches Ok((args, _)) ==> all_numbers_well_formed(args),
    decreases t.len() - p, 21int,
{
    lemma_wf_expression(t, p);
    if let Ok((e, q)) = p_expression(t, p) {
        lemma_push_well_formed(done, e);
        if tok_at(t, q).kind == TokenKind::Comma && p <= q {
            lemma_wf_arg_list(t, q + 1, done.push(e));
        }
    }
}

/// Every number in an expression that parses is a decimal floating-point
/// literal, so evaluating the tree never meets a number it cannot read.
pub proof fn law_parsed_numbers_well_formed(s: Seq<char>)
    ensures
        spec_parse_expression(s) matches Ok(e) ==> numbers_well_formed(e),
{
    law_number_tokens_well_formed(s, 0);
    if let Ok(t) = spec_tokenize(s) {
        lemma_wf_expression(t, 0);
    }
}


/// A parse from `p` that succeeds ends after `p`, within the tokens.
pub open spec fn advances(g: Parsed, p: int, n: int) -> bool {
    g matches Ok((_, q)) ==> p < q <= n
}

/// A parse of the rest of a sum or product from `p` that succeeds ends at or
/// after `p`, within the tokens.
pub open spec fn keeps_up(g: Parsed, p: int, n: int) -> bool {
    g matches Ok((_, q)) ==> p <= q <= n
}

proof fn lemma_adv_expression(t: Seq<TokenView>, p: int)
    requires
        0 <= p,
    ensures
        advances(p_expression(t, p), p, t.len() as int),
    decreases t.len() - p, 20int,
{
    lemma_adv_add_sub(t, p);
}

proof fn lemma_adv_add_sub(t: Seq<TokenView>, p: int)
    requires
        0 <= p,
    ensures
        advances(p_add_sub(t, p), p, t.len() as int),
    decreases t.len() - p, 19int,
{
    lemma_adv_mul_div(t, p);
    if let Ok((left, q)) = p_mul_div(t, p) {
        lemma_adv_add_sub_rest(t, q, left);
    }
}

proof fn lemma_adv_add_sub_rest(t: Seq<TokenView>, p: int, left: ExprView)
    requires
        0 <= p <= t.len(),
    ensures
        keeps_up(p_add_sub_rest(t, p, left), p, t.len() as int),
    decreases t.len() - p, 18int,
{
    if let Some(op) = additive_op(t, p) {
        lemma_adv_mul_div(t, p + 1);
        if let Ok((right, q)) = p_mul_div(t, p + 1) {
            lemma_adv_add_sub_rest(t, q, bin(op, left, right));
        }
    }
}

proof fn lemma_adv_mul_div(t: Seq<TokenView>, p: int)
    requires
        0 <= p,
    ensures
        advances(p_mul_div(t, p), p, t.len() as int),
    decreases t.len() - p, 17int,
{
    lemma_adv_unary(t, p);
    if let Ok((left, q)) = p_unary(t, p) {
        lemma_adv_mul_div_rest(t, q, left);
    }
}

proof fn lemma_adv_mul_div_rest(t: Seq<TokenView>, p: int, left: ExprView)
    requires
        0 <= p <= t.len(),
    ensures
        keeps_up(p_mul_div_rest(t, p, left), p, t.len() as int),
    decreases t.len() - p, 16int,
{
    if let Some(op) = multiplicative_op(t, p) {
        lemma_adv_unary(t, p + 1);
        if let Ok((right, q)) = p_unary(t, p + 1) {
            lemma_adv_mul_div_rest(t, q, bin(op, left, right));
        }
    }
}

proof fn lemma_adv_unary(t: Seq<TokenView>, p: int)
    requires
        0 <= p,
    ensures
        advances(p_unary(t, p), p, t.len() as int),
    decreases t.len() - p, 15int,
{
    if is_op_at(t, p, '+') || is_op_at(t, p, '-') {
        lemma_adv_unary(t, p + 1);
    } else {
        lemma_adv_power(t, p);
    }
}

proof fn lemma_adv_power(t: Seq<TokenView>, p: int)
    requires
        0 <= p,
    ensures
        advances(p_power(t, p), p, t.len() as int),
    decreases t.len() - p, 14int,
{
    lemma_adv_postfix(t, p);
    if let Ok((left, q)) = p_postfix(t, p) {
        if is_op_at(t, q, '^') && p <= q {
            lemma_adv_unary(t, q + 1);
        }
    }
}

proof fn lemma_adv_bangs(t: Seq<TokenView>, p: int, e: ExprView)
    requires
        0 <= p <= t.len(),
    ensures
        p <= bangs(t, p, e).1 <= t.len(),
    decreases t.len() - p,
{
    if is_op_at(t, p, '!') {
        lemma_adv_bangs(t, p + 1, ExprView::Postfix('!', Box::new(e)));
    }
}

proof fn lemma_adv_postfix(t: Seq<TokenView>, p: int)
    requires
        0 <= p,
    ensures
        advances(p_postfix(t, p), p, t.len() as int),
    decreases t.len() - p, 13int,
{
    lemma_adv_primary(t, p);
    if let Ok((e, q)) = p_primary(t, p) {
        lemma_adv_bangs(t, q, e);
    }
}

proof fn lemma_adv_primary(t: Seq<TokenView>, p: int)
    requires
        0 <= p,
    ensures
        advances(p_primary(t, p), p, t.len() as int),
    decreases t.len() - p, 12int,
{
    let tk = tok_at(t, p);
    if tk.kind == TokenKind::Identifier {
        if tok_at(t, p + 1).kind == TokenKind::LParen {
            lemma_adv_args(t, p + 2);
        }
    } else if tk.kind == TokenKind::LParen {
        lemma_adv_expression(t, p + 1);
    }
}

proof fn lemma_adv_args(t: Seq<TokenView>, p: int)
    requires
        0 <= p <= t.len(),
    ensures
        p_args(t, p) matches Ok((_, q)) ==> p < q <= t.len(),
    decreases t.len() - p, 22int,
{
    if tok_at(t, p).kind != TokenKind::RParen {
        lemma_adv_arg_list(t, p, seq![]);
    }
}

proof fn lemma_adv_arg_list(t: Seq<TokenView>, p: int, done: Seq<ExprView>)
    requires
        0 <= p <= t.len(),
    ensures
        p_arg_list(t, p, done) matches Ok((_, q)) ==> p < q <= t.len(),
    decreases t.len() - p, 21int,
{
    lemma_adv_expression(t, p);
    if let Ok((e, q)) = p_expression(t, p) {
        if tok_at(t, q).kind == TokenKind::Comma && p <= q {
            lemma_adv_arg_list(t, q + 1, done.push(e));
        }
    }
}

/// Every parse from a position that succeeds reads at least one token and
/// stops within the tokens; so the grammar's `p < q <= t.len()` conditions
/// always hold, and its branches for the other case are never taken.
pub proof fn law_parse_advances(t: Seq<TokenView>, p: int)
    requires
        0 <= p,
    ensures
        advances(p_expression(t, p), p, t.len() as int),
        advances(p_add_sub(t, p), p, t.len() as int),
        advances(p_mul_div(t, p), p, t.len() as int),
        advances(p_unary(t, p), p, t.len() as int),
        advances(p_power(t, p), p, t.len() as int),
        advances(p_postfix(t, p), p, t.len() as int),
        advances(p_primary(t, p), p, t.len() as int),
{
    lemma_adv_expression(t, p);
    lemma_adv_add_sub(t, p);
    lemma_adv_mul_div(t, p);
    lemma_adv_unary(t, p);
    lemma_adv_power(t, p);
    lemma_adv_postfix(t, p);
    lemma_adv_primary(t, p);
}


proof fn lemma_op_unique(t: Seq<TokenView>, p: int, x: char, y: char)
    requires
        is_op_at(t, p, x),
    ensures
        is_op_at(t, p, y) == (x == y),
{
    assert(seq![x][0] == x);
    assert(seq![y][0] == y);
}

/// A sign applies to the power expression right after it, and to nothing
/// more: after a `+` or `-` that is not followed by another sign, the parse is
/// the sign applied to the power expression that follows, ending where that
/// expression ends. So in `-2+3` the sign takes `2`, not `2+3`.
pub proof fn law_sign_applies_to_next_operand(t: Seq<TokenView>, p: int, c: char)
    requires
        c == '+' || c == '-',
        is_op_at(t, p, c),
        !is_op_at(t, p + 1, '+'),
        !is_op_at(t, p + 1, '-'),
    ensures
        p_unary(t, p) == match p_power(t, p + 1) {
            Ok((x, q)) => Ok::<(ExprView, int), Seq<char>>((ExprView::Unary(c, Box::new(x)), q)),
            Err(m) => Err(m),
        },
{
    lemma_op_unique(t, p, c, '+');
    lemma_op_unique(t, p, c, '-');
    assert(p_unary(t, p + 1) == p_power(t, p + 1));
}

/// The tokens of `c a o b`: a sign, a number, a binary operator, a number.
pub open spec fn signed_pair_tokens(c: char, a: Seq<char>, o: char, b: Seq<char>) -> Seq<TokenView> {
    seq![
        tok(TokenKind::Operator, seq![c]),
        tok(TokenKind::Number, a),
        tok(TokenKind::Operator, seq![o]),
        tok(TokenKind::Number, b),
        eof_token(),
    ]
}

/// For any numbers `a` and `b`, any sign `c` and any of the operators
/// `+ - * / %`, the tokens `c a o b` parse as `(c a) o b`: the sign binds to
/// the first number only, tighter than every one of these operators.
pub proof fn law_signed_pair(c: char, a: Seq<char>, o: char, b: Seq<char>)
    requires
        c == '+' || c == '-',
        o == '+' || o == '-' || o == '*' || o == '/' || o == '%',
    ensures
        parse_tokens(signed_pair_tokens(c, a, o, b)) == Ok::<ExprView, Seq<char>>(
            bin(o, ExprView::Unary(c, Box::new(ExprView::Number(a))), ExprView::Number(b)),
        ),
{
    let t = signed_pair_tokens(c, a, o, b);
    let na = ExprView::Number(a);
    let nb = ExprView::Number(b);
    let u = ExprView::Unary(c, Box::new(na));
    assert(tok_at(t, 0) == t[0] && tok_at(t, 1) == t[1] && tok_at(t, 2) == t[2] && tok_at(t, 3) == t[3]
        && tok_at(t, 4) == t[4]);
    assert(!is_op_at(t, 1, '+') && !is_op_at(t, 1, '-') && !is_op_at(t, 1, '!') && !is_op_at(t, 1, '^'));
    assert(!is_op_at(t, 3, '!') && !is_op_at(t, 3, '^') && !is_op_at(t, 3, '+') && !is_op_at(t, 3, '-'));
    assert(!is_op_at(t, 4, '+') && !is_op_at(t, 4, '-') && !is_op_at(t, 4, '*') && !is_op_at(t, 4, '/')
        && !is_op_at(t, 4, '%'));
    assert(is_op_at(t, 2, o));
    lemma_op_unique(t, 2, o, '!');
    lemma_op_unique(t, 2, o, '^');
    lemma_op_unique(t, 2, o, '+');
    lemma_op_unique(t, 2, o, '-');
    lemma_op_unique(t, 2, o, '*');
    lemma_op_unique(t, 2, o, '/');
    lemma_op_unique(t, 2, o, '%');
    // the first operand
    assert(p_primary(t, 1) == Ok::<(ExprView, int), Seq<char>>((na, 2)));
    assert(bangs(t, 2, na) == (na, 2int));
    assert(p_postfix(t, 1) == Ok::<(ExprView, int), Seq<char>>((na, 2)));
    assert(p_power(t, 1) == Ok::<(ExprView, int), Seq<char>>((na, 2)));
    law_sign_applies_to_next_operand(t, 0, c);
    assert(p_unary(t, 0) == Ok::<(ExprView, int), Seq<char>>((u, 2)));
    // the second operand
    assert(p_primary(t, 3) == Ok::<(ExprView, int), Seq<char>>((nb, 4)));
    assert(bangs(t, 4, nb) == (nb, 4int));
    assert(p_postfix(t, 3) == Ok::<(ExprView, int), Seq<char>>((nb, 4)));
    assert(p_power(t, 3) == Ok::<(ExprView, int), Seq<char>>((nb, 4)));
    assert(p_unary(t, 3) == Ok::<(ExprView, int), Seq<char>>((nb, 4)));
    assert(p_mul_div_rest(t, 4, nb) == Ok::<(ExprView, int), Seq<char>>((nb, 4)));
    assert(p_mul_div(t, 3) == Ok::<(ExprView, int), Seq<char>>((nb, 4)));
    let e = bin(o, u, nb);
    assert(p_mul_div_rest(t, 4, e) == Ok::<(ExprView, int), Seq<char>>((e, 4)));
    assert(p_add_sub_rest(t, 4, e) == Ok::<(ExprView, int), Seq<char>>((e, 4)));
    if o == '+' || o == '-' {
        assert(additive_op(t, 2) == Some(o));
        assert(multiplicative_op(t, 2) is None);
        assert(p_mul_div_rest(t, 2, u) == Ok::<(ExprView, int), Seq<char>>((u, 2)));
        assert(p_mul_div(t, 0) == Ok::<(ExprView, int), Seq<char>>((u, 2)));
        assert(p_add_sub_rest(t, 2, u) == Ok::<(ExprView, int), Seq<char>>((e, 4)));
    } else {
        assert(multiplicative_op(t, 2) == Some(o));
        assert(p_mul_div_rest(t, 2, u) == Ok::<(ExprView, int), Seq<char>>((e, 4)));
        assert(p_mul_div(t, 0) == Ok::<(ExprView, int), Seq<char>>((e, 4)));
    }
    assert(p_add_sub(t, 0) == Ok::<(ExprView, int), Seq<char>>((e, 4)));
    assert(p_expression(t, 0) == Ok::<(ExprView, int), Seq<char>>((e, 4)));
}

} // verus!
