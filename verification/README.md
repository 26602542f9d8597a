# rc9

Read and write flat rc-style dotfile config: `key=value` lines whose dotted
keys nest into objects and arrays, whose values coerce to native types on
read, and which serialize back to JSON-quoted text on write.

The library under `src/` is verified with Verus:

- `lib.rs`: options, `parse`, `serialize`, `update_config`, config paths.
- `value.rs`: the value tree and its mathematical view; objects as
  insertion-ordered maps.
- `destr.rs`: coercion of a raw value (quotes, keywords, JSON through
  serde_json, removal of `__proto__` keys).
- `flat.rs`: `flatten` and `unflatten` of dotted keys.
- `defu.rs`: the merge used by updates.
- `resolve.rs`: path joining and normalization.
- `json.rs`, `number.rs`, `text.rs`: JSON text, numbers, characters.
- `laws.rs`, `roundtrip.rs`: properties of the library as a whole, among
  them that a written plain config reads back as itself.

`app/` holds the file and environment access (`read`, `write`, `update` and
their user-directory forms) around the library.
