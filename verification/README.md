# simple_json_parser

A small JSON reader, verified with Verus.

- `src/json_parser/model.rs`: the parsed values (`Jobject`, `Jmap`, `Jvec`, `Jpair`, `Jval`,
  `Jnumber`), their mathematical view `Json`, and the errors a text can raise.
- `src/json_parser/grammar.rs`: spec functions that say what the reader makes of a text at a
  position: the value and where it stops, or the error.
- `src/json_parser/parser.rs`: the reader itself; each function is proved to agree with its
  spec function.
- `src/json_parser/laws.rs`: proved properties of the grammar: the reader never moves
  backwards and stays within the input, text after an object or array is never read, and text
  before the start only shifts positions (so leading blanks change nothing).
- `app/lib.rs`: the float value of a number and a reader that panics on malformed text.

Numbers are kept as their decimal digits; `Jnumber::to_decimal` gives the exact value as a
mantissa and a power of ten.
