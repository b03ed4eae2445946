# calculator

A calculator for arithmetic expressions (`+ - * /`, parentheses, decimal
numbers, unary minus), written in Verus.

- `src/` is the verified library:
  - `validation` checks the raw input and yields a `Lexer`;
  - `lexer` splits the characters into tokens;
  - `parser` reads a number's characters into an exact decimal `Numeral`;
  - `ast` builds the syntax tree by recursive descent;
  - `errors` holds the error type and its messages.
- `app/` is the command-line program: it evaluates the tree in `f64` and
  prints the result.
- `tests/` runs the library on concrete inputs.
