# sutures

Sutures map between typed structures and JSON payloads through declarative
`.sutures.json` manifests. A manifest holds suture sets; each set compiles
into a trie of bindings (direct keys, pythonic slices, regex key patterns)
whose nodes carry the flat paths to write to.

- `src/` is the verified library (Verus): manifest validation and
  compilation (`validate`, `compile`, `manifest`), the JSON model
  (`json`), the forward and reverse walks (`stitch`), and laws relating
  them: on merging and compiled tries (`laws`, `shape`), on stitching
  and unstitching undoing each other (`laws`, `roundtrip`, `iterate`),
  and on the walks keeping every object's keys distinct (`wellformed`).
- `app/` is the ordinary Rust around it: serde decoding of manifests,
  conversions between `serde_json::Value` and the library's documents,
  the `Stitch` and `Knit` traits on user types, the `Seam` descriptors,
  and token generation for compile-time manifests.
- `tests/` runs the library on concrete manifests and documents.
