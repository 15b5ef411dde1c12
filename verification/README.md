# nojson

A JSON library with no macros: parse JSON (or JSONC) text into a flat index of
values, navigate and convert those values, write JSON through a formatter, and
reformat JSONC text. The library in `src/` is written in Verus and verified.

## Layout

- `grammar`: the grammar as spec functions; `parse_text` says what a text is
  accepted as (its values and comments) or which error it gets.
- `parse`: the byte-level parser, proved to compute exactly `parse_text`.
- `parse_errors`: where an error points: an early end at the end of the text, any
  other error at a character boundary inside it.
- `structure`, `comments`, `spans`: what an accepted text records — every value
  well placed, comments in order, descendants inside their container's text.
- `raw`: `RawJson`, `RawJsonValue`, `RawJsonMember`, `RawJsonOwned`: navigation,
  member and path lookup, string unescaping, position lookup.
- `convert`: conversions from raw values (integers with std's error messages,
  booleans, strings, characters, options, sequences).
- `format`: `JsonFormatter`, `DisplayJson`, `Json`, `json`: writing JSON.
- `jsonc_layout`, `jsonc_format`: the layout of the JSONC formatter as spec
  functions, and `JsoncFormatter::format`, proved to produce that layout.
- `jsonc_line_ends`: the layout holds no carriage return when every one inside a
  comment of the input begins a CRLF.
- `jsonc_lexemes`: the layout keeps every scalar lexeme and member name, byte for
  byte and in order.
- `comment_spans`, `jsonc_comments`: no comment starts inside a scalar, and the layout
  keeps every comment, in order, with its first line as it stood, and ends the line
  of each line comment.
- `roundtrip`: strings, integers and booleans written by the formatter parse back
  to the same values.
- `error`: `JsonParseError`, its message, and its line and column.

`app/` holds what is not verified: floating-point numbers, `Display` and `Error`
for parse errors, and helpers that go through `FromStr` and `Display` impls.
