# rustin

A small compiler toolkit, verified with Verus.

- `lex`: a lexer driven by a table of token kinds and regular expressions
  (through the `regex` crate), kept in the order of the kinds' names. Each kind is matched against what earlier
  kinds left; the tokens come sorted by position, each with its line and
  column; anything left that is not white space is reported.
- `parser`: a memoising recursive-descent parser driven by a table of rules.
  Alternatives are tried longest first; an alternative is a list of token
  kinds and `&rule` references, with `!Expect:` marking elements whose
  failure writes a syntax error message. The parser also keeps a trace of
  terminal lookups, `!Expect:` elements and matched alternatives.
- `compiler`: code generation from the parse tree, replacing the
  placeholders `$(0)`, `$(1)`, ... of each node's text by the generated
  text of its elements.
- `p_code`: a tree of operations and its evaluator.
- `text`, `pattern`: character and byte helpers, and the calls into `regex`.

Every public function carries a contract over a mathematical model of its
arguments and result (`Seq`, `Map`, `Set`, views of the library's types).

`app/` is the command-line driver: it reads the lexicon, grammar and source
files (HJSON, through `deser-hjson` and `serde`), runs the library and writes
the generated code.
