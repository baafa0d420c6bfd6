# tailcall_template

Verified value operations for a jq engine (`jaq_core`): indexing, slicing,
path updates and addition on JSON-like values.

- `src/bounds.rs`: negative indices and slice bounds.
- `src/value.rs`: the value model; objects keep insertion order and distinct keys.
- `src/error.rs`: errors, their messages, and their conversion into `jaq_core` errors.
- `src/helper.rs`: `JsonLikeHelper`, the operations the engine calls.
- `src/laws.rs`: properties relating the operations (read after write, merge, slices).
- `app/lib.rs`: the `jaq_core::ValT` implementation over the library, with
  floating-point arithmetic and JSON text through `serde_json`.
