# rust_json_parser

A hand-written JSON parser — a byte scanner followed by a recursive-descent
parser — and a serializer, verified with Verus.

## Layout

- `src/` — the verified library.
  - `tokenizer.rs`: the scanner (`Tokenizer`, `Token`) and `tokens_from`, the
    specification of what it reads from a UTF-8 text.
  - `number.rs`: number literals (with optional exponent) and their
    canonical decimal text.
  - `float_text.rs`: the `{:?}` text of the float a literal denotes, as shown
    in error messages.
  - `parser.rs`: the parser (`JsonParser`) and `parse_text`, the
    specification of the value (or the first error) a text denotes.
  - `value.rs`: `JsonValue`, `JsonNumber` (always a canonical number text,
    compared by the value it denotes),
    `JsonObject` (members kept in key order), the
    accessors, and the serializer (`to_string`, `pretty_print`) with `render`,
    its specification.
  - `error.rs`: `JsonError` and its messages.
  - `text.rs`: character and string building blocks; the few calls into the
    standard library that Verus takes on trust are all here.
  - `roundtrip.rs`, `positions.rs`, `locality.rs`: the proofs behind the laws.
  - `laws.rs`: properties of the library as a whole — text written from a
    value reads back as that value, parsed values are well-formed, errors
    point inside the input, whitespace only separates tokens, the last of
    duplicate keys wins, and the laws of object insertion.
- `tests/` — the test suite.
- `app/` — the command-line demo and the Python extension module (PyO3),
  which Verus does not see. Numbers become binary floats only there.
