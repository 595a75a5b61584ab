# jsone

Lossless JSON for values JavaScript cannot hold exactly. Inside a `BigInt`
wrapper every integer is written as `{"$$jsone$remap$$": "<decimal text>"}` and
NaN, +infinity and -infinity as `{"$$jsone$remap$$": 1}`, `2` and `3`; reading
undoes the wrapping.

Layout:

- `src/` is the verified library (Verus):
  - `decimal.rs`: decimal text of integers, written and parsed back, with the
    round-trip proof;
  - `value.rs`: the JSON value tree and its mathematical model;
  - `remap.rs`: the remap key, the non-finite float codes, unwrapping of a
    read value, and its laws;
  - `read.rs`: the choices made while a target type is filled in, and the
    cursor over an object's entries.
- `app/` holds the serde `Serialize`/`Deserialize` impls of `BigInt`, which
  stream through serde and call the library for every decision, and the
  conversion between `serde_json::Value` and the library's `JsonValue`.
- `tests/` runs the library on concrete values, and compares the integer text
  functions with the standard library's.
