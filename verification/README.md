# speedier

The text engine of a small desktop calculator, written in Verus.

`src/` is the verified library:

- `calc/expression.rs` — the tokenizer and the recursive-descent parser of
  expressions (`+ - * / %`, `^` grouping to the right, unary signs, postfix
  `!`, calls, parentheses), specified by a grammar over token sequences, with
  proofs that every number literal it reads is a well-formed decimal float.
- `calc/evaluator.rs` — the error type, and resolution of constant and
  function names (case-insensitive).
- `calc/history.rs` — the bounded history of evaluated lines.
- `syntax.rs` — the lossless tokenizer used for syntax highlighting.
- `grouping.rs` — digit grouping of numbers and the mapping between the shown
  input line (with thin spaces between digit groups) and the plain one.
- `chars.rs` — character classes and small text helpers.

`app/` is the desktop program around it: the window, preferences on disk, and
the floating-point evaluation of parsed trees.
