# json_parser

A JSON parser in two stages, verified with Verus.

- `src/tokenize.rs`: the tokenizer. `lex_from` specifies it character by
  character (punctuation, Unicode whitespace, the keywords `true false null`,
  string literals with `\"` `\\` `\/` `\b` `\f` `\n` `\r` `\t` and `\uXXXX`
  escapes, numbers in the grammar of `f64`'s `FromStr`); `tokenize` is proved
  to compute it. Numbers are kept as their text.
- `src/parse.rs`: the recursive-descent parser, specified by
  `parse_value_at`, `parse_elements` and `parse_members`; `parse` is proved
  to compute `spec_parse`; tokens after a complete value are rejected with
  the first of them (`lemma_trailing_tokens_rejected`).
- `src/value.rs`: the value tree, its model `SpecValue`, objects as an
  `indexmap::IndexMap` behind a few trusted wrappers (its type invariant:
  no key twice), and the compact serializer `Value::to_string` with
  `escape_string`; the text `to_string` writes parses back to the same value
  wherever the numbers' texts are valid.
- `src/round_trip.rs`: the laws: the text of a well-formed value reads back
  as that value, every parsed value is well formed, no trailing commas,
  keys are strings.
- `src/whitespace.rs`: whitespace between tokens changes nothing.
- `src/lib.rs`: `from_str` (tokenize, then parse) and `JsonError`.
- `app/main.rs`: reads a file and prints the tree; holds the `f64` view of
  numbers and their formatting, which stay outside the verified library.
