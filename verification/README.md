# blue_marshal

Reads and writes the `blue.Marshal` binary object format used by EVE Online
configuration files, and maps the decoded values to and from a JSON
form. The library is written in Verus: each public function states what it
returns in its contract, and the contracts are proved.

## Layout

- `src/` — the verified library.
  - `value.rs`, `long.rs`: the decoded object graph (`Value`, with `Long`
    integers held as their shortest two's-complement bytes and floats by their
    bits).
  - `format.rs`, `writer.rs`: the bytes that `encode` writes, as spec
    functions, and the writer proved against them.
  - `parse.rs`, `reader.rs`: the stream as `decode` reads it, as spec
    functions, and the reader proved against them.
  - `roundtrip.rs`: decoding what the writer wrote gives the value back
    (with `-0.0` read as `0.0`).
  - `json_model.rs`, `json_spec.rs`, `json.rs`: the JSON form (prefixed
    strings, one-member objects, prefixed dict keys) and its two directions.
  - `json_roundtrip.rs`: decoding the JSON form gives the value back (with
    every NaN as the canonical one); dict keys are unambiguous.
  - `adler32.rs`, `base64.rs`, `text.rs`, `tags.rs`, `strtable.rs`,
    `error.rs`: the checksum, base64 and text helpers, type tags, the string
    table and the errors.
- `tests/` — tests of the library.
- `app/` — the `marshal-tool` command line program, the conversion between
  `serde_json` values and the library's JSON model (which reads and writes
  `f64` text), and the wasm entry points.

## What comes back

- Binary: decoding what `encode` wrote gives the value back, with `-0.0`
  read as `0.0`, for any value with no length beyond `i32::MAX`, a `None`
  callable wherever a reduce is a `TY_NEWOBJ`, and a nesting depth that
  leaves one level for the checksum header when one is written.
- JSON: decoding the JSON form gives the value back, with every NaN read as
  the canonical NaN, for any value whose dicts hold no two keys that are
  equal up to NaN payloads. A `__reduce__` state is written as `null` when
  there is none and as `"none"` when it is `None`.

## The string table

`TY_STR_TABLE` indexes a built-in table of strings. The library knows one of
its entries, index 1 (`*corpid`); any other index is refused as an invalid
stream.
