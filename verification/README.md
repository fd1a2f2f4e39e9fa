# reckon_nifs

Native helpers for an event store, written in Verus with their behaviour
stated as contracts and proved.

- `src/` is the verified library, one module per concern: `base58`
  (Bitcoin-alphabet Base58 and capability resource patterns, over the digit
  arithmetic in `radix`), `crypto` (Ed25519 verification, SHA-256, URL-safe
  Base64, constant-time comparison), `archive` (LZ4, Zstandard and zlib),
  `hash` (xxHash, FNV-1a, partition routing), `filter` (wildcards, regular
  expressions, prefixes and suffixes), `graph` (causation graphs: edges,
  roots and leaves, topological order, cycles, reachability, depth) with
  `dot` (Graphviz export), and `aggregate` (counting over event data).
  Calls into outside crates go through small trusted wrappers whose
  contracts name or state what the crate computes.
- `tests/` runs the library on concrete values.
- `app/` binds the library to Erlang as NIFs with `rustler`: it decodes
  terms into plain values, calls the library and encodes the replies. The
  tagged-value folds of event aggregation keep floating-point sums and
  live there.
