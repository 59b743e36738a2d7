//! Splitting of an input line into classified pieces, for syntax highlighting.
//! Unlike the expression tokenizer, this one never fails and keeps every
//! character, whitespace and unknown characters included.
use crate::calc::evaluator::{constant_named, function_named};
use crate::chars::{
    char_is_alphabetic, char_is_alphanumeric, char_is_whitespace, chars_of, is_alphabetic,
    is_alphanumeric, is_ascii_digit, is_whitespace, same_text, spec_is_ascii_digit, text_of,
    text_to_lowercase, to_lowercase,
};
use vstd::prelude::*;

verus! {

/// The class of a piece of an input line.
#[derive(Clone, Copy, Debug, PartialEq, Eq, Structural)]
pub enum TokenKind {
    Whitespace,
    Number,
    Operator,
    Function,
    Constant,
    Identifier,
    Paren,
    Comma,
    Unknown,
}

/// A classified piece of an input line.
#[derive(Debug)]
pub struct Token {
    pub kind: TokenKind,
    pub text: String,
}

/// A piece as a mathematical value.
pub struct TokenView {
    pub kind: TokenKind,
    pub text: Seq<char>,
}

impl Token {
    pub open spec fn view(&self) -> TokenView {
        TokenView { kind: self.kind, text: self.text@ }
    }
}

impl Clone for Token {
    fn clone(&self) -> (r: Self)
        ensures
            r == *self,
    {
        Token { kind: self.kind, text: self.text.clone() }
    }
}

/// The views of a sequence of pieces.
pub open spec fn token_views(ts: Seq<Token>) -> Seq<TokenView> {
    ts.map_values(|t: Token| t@)
}

/// A piece of the given class and text.
pub open spec fn piece(kind: TokenKind, text: Seq<char>) -> TokenView {
    TokenView { kind, text }
}

/// A number starts at `i`: a digit, or a `.` followed by a digit.
pub open spec fn spec_is_number_start(s: Seq<char>, i: int) -> bool {
    spec_is_ascii_digit(s[i]) || (s[i] == '.' && i + 1 < s.len() && spec_is_ascii_digit(s[i + 1]))
}

/// The end of a number from `i` on: digits, at most one `.` in all, and any
/// `e` or `E` together with a sign right after it.
pub open spec fn number_end(s: Seq<char>, i: int, seen_dot: bool) -> int
    decreases s.len() - i,
{
    if i < 0 || i >= s.len() {
        i
    } else if s[i] == '.' {
        if seen_dot {
            i
        } else {
            number_end(s, i + 1, true)
        }
    } else if s[i] == 'e' || s[i] == 'E' {
        if i + 1 < s.len() && (s[i + 1] == '+' || s[i + 1] == '-') {
            number_end(s, i + 2, seen_dot)
        } else {
            number_end(s, i + 1, seen_dot)
        }
    } else if spec_is_ascii_digit(s[i]) {
        number_end(s, i + 1, seen_dot)
    } else {
        i
    }
}

/// The end of the run of whitespace that begins at `i`.
pub open spec fn whitespace_end(s: Seq<char>, i: int) -> int
    decreases s.len() - i,
{
    if 0 <= i < s.len() && char_is_whitespace(s[i]) {
        whitespace_end(s, i + 1)
    } else {
        i
    }
}

/// The end of the run of identifier characters (alphanumeric or `_`) that begins at `i`.
pub open spec fn identifier_end(s: Seq<char>, i: int) -> int
    decreases s.len() - i,
{
    if 0 <= i < s.len() && (char_is_alphanumeric(s[i]) || s[i] == '_') {
        identifier_end(s, i + 1)
    } else {
        i
    }
}

/// The first character at or after `i` that is not whitespace is `target`.
pub open spec fn spec_next_non_space_is(s: Seq<char>, i: int, target: char) -> bool
    decreases s.len() - i,
{
    if i < 0 || i >= s.len() {
        false
    } else if char_is_whitespace(s[i]) {
        spec_next_non_space_is(s, i + 1, target)
    } else {
        s[i] == target
    }
}

/// The class of the identifier `ident` that ends at `idx` in `s`: a known
/// constant, a known function, or a name followed by `(`, case-insensitively.
pub open spec fn spec_classify_identifier(ident: Seq<char>, s: Seq<char>, idx: int) -> TokenKind {
    let lower = text_to_lowercase(ident);
    if constant_named(lower) is Some {
        TokenKind::Constant
    } else if function_named(lower) is Some {
        TokenKind::Function
    } else if spec_next_non_space_is(s, idx, '(') {
        TokenKind::Function
    } else {
        TokenKind::Identifier
    }
}

/// The characters that make an operator piece.
pub open spec fn spec_is_operator_rune(c: char) -> bool {
    c == '+' || c == '-' || c == '*' || c == '/' || c == '%' || c == '^' || c == '!' || c == '='
}

/// The characters that make a bracket piece.
pub open spec fn is_paren_rune(c: char) -> bool {
    c == '(' || c == ')' || c == '[' || c == ']' || c == '{' || c == '}'
}

/// The pieces of `s[i..]`, in order.
pub open spec fn pieces_from(s: Seq<char>, i: int) -> Seq<TokenView>
    decreases s.len() - i,
{
    if i < 0 || i >= s.len() {
        seq![]
    } else {
        let c = s[i];
        if char_is_whitespace(c) {
            let j = whitespace_end(s, i + 1);
            if i < j <= s.len() {
                seq![piece(TokenKind::Whitespace, s.subrange(i, j))] + pieces_from(s, j)
            } else {
                seq![]
            }
        } else if spec_is_number_start(s, i) {
            let j = number_end(s, i, false);
            if i < j <= s.len() {
                seq![piece(TokenKind::Number, s.subrange(i, j))] + pieces_from(s, j)
            } else {
                seq![]
            }
        } else if char_is_alphabetic(c) || c == '_' {
            let j = identifier_end(s, i + 1);
            if i < j <= s.len() {
                seq![piece(spec_classify_identifier(s.subrange(i, j), s, j), s.subrange(i, j))]
                    + pieces_from(s, j)
            } else {
                seq![]
            }
        } else {
            let kind = if is_paren_rune(c) {
                TokenKind::Paren
            } else if c == ',' {
                TokenKind::Comma
            } else if spec_is_operator_rune(c) {
                TokenKind::Operator
            } else {
                TokenKind::Unknown
            };
            seq![piece(kind, seq![c])] + pieces_from(s, i + 1)
        }
    }
}

/// The pieces of an input line.
pub open spec fn spec_tokenize(s: Seq<char>) -> Seq<TokenView> {
    pieces_from(s, 0)
}

proof fn lemma_number_end_bounds(s: Seq<char>, i: int, seen_dot: bool)
    requires
        0 <= i <= s.len(),
    ensures
        i <= number_end(s, i, seen_dot) <= s.len(),
    decreases s.len() - i,
{
    if i < s.len() {
        if s[i] == '.' {
            if !seen_dot {
                lemma_number_end_bounds(s, i + 1, true);
            }
        } else if s[i] == 'e' || s[i] == 'E' {
            if i + 1 < s.len() && (s[i + 1] == '+' || s[i + 1] == '-') {
                lemma_number_end_bounds(s, i + 2, seen_dot);
            } else {
                lemma_number_end_bounds(s, i + 1, seen_dot);
            }
        } else if spec_is_ascii_digit(s[i]) {
            lemma_number_end_bounds(s, i + 1, seen_dot);
        }
    }
}

proof fn lemma_whitespace_end_bounds(s: Seq<char>, i: int)
    requires
        0 <= i <= s.len(),
    ensures
        i <= whitespace_end(s, i) <= s.len(),
    decreases s.len() - i,
{
    if i < s.len() && char_is_whitespace(s[i]) {
        lemma_whitespace_end_bounds(s, i + 1);
    }
}

proof fn lemma_identifier_end_bounds(s: Seq<char>, i: int)
    requires
        0 <= i <= s.len(),
    ensures
        i <= identifier_end(s, i) <= s.len(),
    decreases s.len() - i,
{
    if i < s.len() && (char_is_alphanumeric(s[i]) || s[i] == '_') {
        lemma_identifier_end_bounds(s, i + 1);
    }
}

/// Whether a number starts at `idx`.
fn is_number_start(runes: &[char], idx: usize) -> (r: bool)
    requires
        idx < runes@.len(),
    ensures
        r == spec_is_number_start(runes@, idx as int),
{
    let r = runes[idx];
    if is_ascii_digit(r) {
        return true;
    }
    r == '.' && idx + 1 < runes.len() && is_ascii_digit(runes[idx + 1])
}

/// The end of the number that starts at `idx`.
fn consume_number(runes: &[char], idx: usize) -> (r: usize)
    requires
        idx <= runes@.len(),
    ensures
        r == number_end(runes@, idx as int, false),
{
    let mut i = idx;
    let mut seen_dot = false;
    while i < runes.len()
        invariant_except_break
            number_end(runes@, idx as int, false) == number_end(runes@, i as int, seen_dot),
        invariant
            idx <= i <= runes@.len(),
        ensures
            number_end(runes@, idx as int, false) == i,
        decreases runes@.len() - i,
    {
        let r = runes[i];
        if r == '.' {
            if seen_dot {
                break;
            }
            seen_dot = true;
            i += 1;
            continue;
        }
        if r == 'e' || r == 'E' {
            i += 1;
            if i < runes.len() && (runes[i] == '+' || runes[i] == '-') {
                i += 1;
            }
            continue;
        }
        if !is_ascii_digit(r) {
            break;
        }
        i += 1;
    }
    i
}

/// Whether `r` may start an identifier.
fn is_identifier_start(r: char) -> (b: bool)
    ensures
        b == (char_is_alphabetic(r) || r == '_'),
{
    is_alphabetic(r) || r == '_'
}

/// Whether `r` may continue an identifier.
fn is_identifier_part(r: char) -> (b: bool)
    ensures
        b == (char_is_alphanumeric(r) || r == '_'),
{
    is_alphanumeric(r) || r == '_'
}

/// Whether `r` is shown as an operator.
fn is_operator_rune(r: char) -> (b: bool)
    ensures
        b == spec_is_operator_rune(r),
{
    r == '+' || r == '-' || r == '*' || r == '/' || r == '%' || r == '^' || r == '!' || r == '='
}

/// Whether a lowercased name is that of a constant.
fn is_constant_name(name: &str) -> (b: bool)
    ensures
        b == constant_named(name@) is Some,
{
    same_text(name, "ans") || same_text(name, "pi") || same_text(name, "e") || same_text(name, "nan")
        || same_text(name, "inf") || same_text(name, "infinity")
}

/// Whether a lowercased name is that of a function.
fn is_function_name(name: &str) -> (b: bool)
    ensures
        b == function_named(name@) is Some,
{
    same_text(name, "sin") || same_text(name, "cos") || same_text(name, "tan") || same_text(
        name,
        "sqrt",
    ) || same_text(name, "pow") || same_text(name, "log") || same_text(name, "ln") || same_text(
        name,
        "abs",
    ) || same_text(name, "ceil") || same_text(name, "floor")
}

/// Whether the first character at or after `idx` that is not whitespace is `target`.
fn next_non_space_is(runes: &[char], idx: usize, target: char) -> (b: bool)
    requires
        idx <= runes@.len(),
    ensures
        b == spec_next_non_space_is(runes@, idx as int, target),
{
    let mut i = idx;
    while i < runes.len()
        invariant
            idx <= i <= runes@.len(),
            spec_next_non_space_is(runes@, idx as int, target) == spec_next_non_space_is(
                runes@,
                i as int,
                target,
            ),
        decreases runes@.len() - i,
    {
        if is_whitespace(runes[i]) {
            i += 1;
            continue;
        }
        return runes[i] == target;
    }
    false
}

/// The class of the identifier `ident`, which ends at `idx` in `runes`.
fn classify_identifier(ident: &str, runes: &[char], idx: usize) -> (k: TokenKind)
    requires
        idx <= runes@.len(),
    ensures
        k == spec_classify_identifier(ident@, runes@, idx as int),
{
    let lower = to_lowercase(ident);
    if is_constant_name(lower.as_str()) {
        return TokenKind::Constant;
    }
    if is_function_name(lower.as_str()) {
        return TokenKind::Function;
    }
    if next_non_space_is(runes, idx, '(') {
        return TokenKind::Function;
    }
    TokenKind::Identifier
}

/// Splits an input line into classified pieces, in order; their texts put
/// together give the line back.
pub fn tokenize(input: &str) -> (r: Vec<Token>)
    ensures
        token_views(r@) == spec_tokenize(input@),
{
    if input.is_empty() {
        return Vec::new();
    }
    let runes = chars_of(input);
    let ghost s = runes@;
    let mut out: Vec<Token> = Vec::new();
    let mut i: usize = 0;
    while i < runes.len()
        invariant
            s == runes@,
            i <= s.len(),
            spec_tokenize(s) == token_views(out@) + pieces_from(s, i as int),
        decreases s.len() - i,
    {
        let r = runes[i];
        let ghost before = token_views(out@);
        let start = i;
        let kind;
        if is_whitespace(r) {
            i += 1;
            while i < runes.len() && is_whitespace(runes[i])
                invariant
                    s == runes@,
                    start < i <= s.len(),
                    whitespace_end(s, start + 1) == whitespace_end(s, i as int),
                decreases s.len() - i,
            {
                i += 1;
            }
            proof {
                lemma_whitespace_end_bounds(s, start + 1);
            }
            kind = TokenKind::Whitespace;
        } else if is_number_start(runes.as_slice(), i) {
            i = consume_number(runes.as_slice(), i);
            proof {
                lemma_number_end_bounds(s, start as int, false);
                if s[start as int] == '.' {
                    lemma_number_end_bounds(s, start + 1, true);
                } else {
                    lemma_number_end_bounds(s, start + 1, false);
                }
            }
            kind = TokenKind::Number;
        } else if is_identifier_start(r) {
            i += 1;
            while i < runes.len() && is_identifier_part(runes[i])
                invariant
                    s == runes@,
                    start < i <= s.len(),
                    identifier_end(s, start + 1) == identifier_end(s, i as int),
                decreases s.len() - i,
            {
                i += 1;
            }
            proof {
                lemma_identifier_end_bounds(s, start + 1);
            }
            let ident = text_of(runes.as_slice(), start, i);
            kind = classify_identifier(ident.as_str(), runes.as_slice(), i);
        } else {
            i += 1;
            kind = if r == '(' || r == ')' || r == '[' || r == ']' || r == '{' || r == '}' {
                TokenKind::Paren
            } else if r == ',' {
                TokenKind::Comma
            } else if is_operator_rune(r) {
                TokenKind::Operator
            } else {
                TokenKind::Unknown
            };
        }
        let text = text_of(runes.as_slice(), start, i);
        proof {
            if i == start + 1 {
                assert(text@ =~= seq![r]);
            }
        }
        out.push(Token { kind, text });
        assert(token_views(out@) =~= before + seq![piece(kind, s.subrange(start as int, i as int))]);
        assert(spec_tokenize(s) =~= token_views(out@) + pieces_from(s, i as int));
    }
    out
}


/// The texts of the pieces, put together.
pub open spec fn texts_of(ps: Seq<TokenView>) -> Seq<char>
    decreases ps.len(),
{
    if ps.len() == 0 {
        seq![]
    } else {
        texts_of(ps.drop_last()) + ps.last().text
    }
}

proof fn lemma_texts_of_cons(p: TokenView, rest: Seq<TokenView>)
    ensures
        texts_of(seq![p] + rest) == p.text + texts_of(rest),
    decreases rest.len(),
{
    if rest.len() == 0 {
        assert(seq![p] + rest =~= seq![p]);
        assert(seq![p].drop_last() =~= Seq::<TokenView>::empty());
        assert(texts_of(Seq::<TokenView>::empty()) == Seq::<char>::empty());
        assert(texts_of(seq![p]) == texts_of(seq![p].drop_last()) + p.text);
        assert(p.text + texts_of(rest) =~= p.text);
        assert(Seq::<char>::empty() + p.text =~= p.text);
    } else {
        lemma_texts_of_cons(p, rest.drop_last());
        assert((seq![p] + rest).drop_last() =~= seq![p] + rest.drop_last());
        assert((seq![p] + rest).last() == rest.last());
        assert(p.text + texts_of(rest.drop_last()) + rest.last().text =~= p.text + (texts_of(
            rest.drop_last(),
        ) + rest.last().text));
    }
}

proof fn lemma_pieces_texts(s: Seq<char>, i: int)
    requires
        0 <= i <= s.len(),
    ensures
        texts_of(pieces_from(s, i)) == s.subrange(i, s.len() as int),
    decreases s.len() - i,
{
    if i == s.len() {
        assert(s.subrange(i, s.len() as int) =~= seq![]);
    } else {
        let c = s[i];
        let j = if char_is_whitespace(c) {
            lemma_whitespace_end_bounds(s, i + 1);
            whitespace_end(s, i + 1)
        } else if spec_is_number_start(s, i) {
            if s[i] == '.' {
                lemma_number_end_bounds(s, i + 1, true);
            } else {
                lemma_number_end_bounds(s, i + 1, false);
            }
            number_end(s, i, false)
        } else if char_is_alphabetic(c) || c == '_' {
            lemma_identifier_end_bounds(s, i + 1);
            identifier_end(s, i + 1)
        } else {
            i + 1
        };
        lemma_pieces_texts(s, j);
        let p = pieces_from(s, i)[0];
        assert(pieces_from(s, i) == seq![p] + pieces_from(s, j));
        assert(p.text =~= s.subrange(i, j));
        lemma_texts_of_cons(p, pieces_from(s, j));
        assert(s.subrange(i, j) + s.subrange(j, s.len() as int) =~= s.subrange(i, s.len() as int));
    }
}

/// Highlighting loses nothing: the texts of the pieces of a line, put
/// together in order, give the line back.
pub proof fn law_pieces_cover_line(s: Seq<char>)
    ensures
        texts_of(spec_tokenize(s)) == s,
{
    lemma_pieces_texts(s, 0);
    assert(s.subrange(0, s.len() as int) =~= s);
}


/// Highlighting agrees with evaluation: a name shows as a constant exactly
/// when evaluation resolves it to a constant, and a name that evaluation
/// resolves to a function shows as a function.
pub proof fn law_highlight_agrees_with_resolution(ident: Seq<char>, s: Seq<char>, idx: int)
    ensures
        (spec_classify_identifier(ident, s, idx) == TokenKind::Constant) == (constant_named(
            text_to_lowercase(ident),
        ) is Some),
        function_named(text_to_lowercase(ident)) is Some ==> spec_classify_identifier(ident, s, idx)
            == TokenKind::Function,
{
    reveal_strlit("ans");
    assert("ans"@.len() == 3 && "ans"@[0] == 'a' && "ans"@[1] == 'n');
    reveal_strlit("pi");
    assert("pi"@.len() == 2 && "pi"@[0] == 'p');
    reveal_strlit("e");
    assert("e"@.len() == 1 && "e"@[0] == 'e');
    reveal_strlit("nan");
    assert("nan"@.len() == 3 && "nan"@[0] == 'n');
    reveal_strlit("inf");
    assert("inf"@.len() == 3 && "inf"@[0] == 'i');
    reveal_strlit("infinity");
    assert("infinity"@.len() == 8 && "infinity"@[0] == 'i');
    reveal_strlit("sin");
    assert("sin"@.len() == 3 && "sin"@[0] == 's');
    reveal_strlit("cos");
    assert("cos"@.len() == 3 && "cos"@[0] == 'c');
    reveal_strlit("tan");
    assert("tan"@.len() == 3 && "tan"@[0] == 't');
    reveal_strlit("sqrt");
    assert("sqrt"@.len() == 4 && "sqrt"@[0] == 's');
    reveal_strlit("pow");
    assert("pow"@.len() == 3 && "pow"@[0] == 'p');
    reveal_strlit("log");
    assert("log"@.len() == 3 && "log"@[0] == 'l');
    reveal_strlit("ln");
    assert("ln"@.len() == 2 && "ln"@[0] == 'l');
    reveal_strlit("abs");
    assert("abs"@.len() == 3 && "abs"@[0] == 'a' && "abs"@[1] == 'b');
    reveal_strlit("ceil");
    assert("ceil"@.len() == 4 && "ceil"@[0] == 'c');
    reveal_strlit("floor");
    assert("floor"@.len() == 5 && "floor"@[0] == 'f');
}


/// `c` is one of the characters `+ - * / % ^ ! =`.
pub open spec fn is_operator_symbol(c: char) -> bool {
    c == '+' || c == '-' || c == '*' || c == '/' || c == '%' || c == '^' || c == '!' || c == '='
}

/// A piece that is a single one of `+ - * / % ^ ! =`.
pub open spec fn is_operator_text(t: Seq<char>) -> bool {
    t.len() == 1 && is_operator_symbol(t[0])
}

proof fn lemma_operator_pieces(s: Seq<char>, i: int)
    requires
        0 <= i <= s.len(),
    ensures
        forall|k: int|
            0 <= k < pieces_from(s, i).len() && is_operator_text(#[trigger] pieces_from(s, i)[k].text)
                ==> pieces_from(s, i)[k].kind == TokenKind::Operator,
    decreases s.len() - i,
{
    if i < s.len() {
        let c = s[i];
        let j = if char_is_whitespace(c) {
            lemma_whitespace_end_bounds(s, i + 1);
            whitespace_end(s, i + 1)
        } else if spec_is_number_start(s, i) {
            if s[i] == '.' {
                lemma_number_end_bounds(s, i + 1, true);
            } else {
                lemma_number_end_bounds(s, i + 1, false);
            }
            number_end(s, i, false)
        } else if char_is_alphabetic(c) || c == '_' {
            lemma_identifier_end_bounds(s, i + 1);
            identifier_end(s, i + 1)
        } else {
            i + 1
        };
        lemma_operator_pieces(s, j);
        let ps = pieces_from(s, i);
        let rest = pieces_from(s, j);
        assert(ps == seq![ps[0]] + rest);
        assert(ps[0].text[0] == c);
        assert forall|k: int| 0 <= k < ps.len() && is_operator_text(#[trigger] ps[k].text) implies ps[k].kind
            == TokenKind::Operator by {
            if k > 0 {
                assert(ps[k] == rest[k - 1]);
            }
        }
    }
}

/// The characters `+ - * / % ^ !` and `=` are shown as operators: every piece
/// of a line that is one of them on its own is an operator piece.
pub proof fn law_operator_symbols_are_operators(s: Seq<char>)
    ensures
        forall|k: int|
            0 <= k < spec_tokenize(s).len() && is_operator_text(#[trigger] spec_tokenize(s)[k].text)
                ==> spec_tokenize(s)[k].kind == TokenKind::Operator,
{
    lemma_operator_pieces(s, 0);
}

/// A line made only of the characters `+ - * / % ^ ! =` is shown as one
/// operator piece per character.
pub proof fn law_operator_line(s: Seq<char>)
    requires
        forall|k: int| 0 <= k < s.len() ==> is_operator_symbol(#[trigger] s[k]),
    ensures
        spec_tokenize(s).len() == s.len(),
        forall|k: int|
            0 <= k < s.len() ==> #[trigger] spec_tokenize(s)[k] == piece(TokenKind::Operator, seq![s[k]]),
{
    lemma_operator_line(s, 0);
}

proof fn lemma_operator_line(s: Seq<char>, i: int)
    requires
        0 <= i <= s.len(),
        forall|k: int| 0 <= k < s.len() ==> is_operator_symbol(#[trigger] s[k]),
    ensures
        pieces_from(s, i).len() == s.len() - i,
        forall|k: int|
            0 <= k < s.len() - i ==> #[trigger] pieces_from(s, i)[k] == piece(TokenKind::Operator, seq![s[i + k]]),
    decreases s.len() - i,
{
    if i < s.len() {
        lemma_operator_line(s, i + 1);
        assert(is_operator_symbol(s[i]));
        let ps = pieces_from(s, i);
        let rest = pieces_from(s, i + 1);
        assert(ps == seq![piece(TokenKind::Operator, seq![s[i]])] + rest);
        assert forall|k: int| 0 <= k < s.len() - i implies #[trigger] ps[k] == piece(TokenKind::Operator, seq![s[i + k]]) by {
            if k > 0 {
                assert(ps[k] == rest[k - 1]);
            }
        }
    }
}

} // verus!
