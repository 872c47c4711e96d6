# gix_index

The `FSMN`, `TREE` and `UNTR` extensions of a Git index file, written in Rust and verified with Verus.

- `src/extension/fs_monitor.rs`: which entries a filesystem monitor reported as changed (`FSMN`).
- `src/extension/untracked_cache/`: untracked files per directory (`UNTR`). `format` and `encoding` say what the bytes
  mean, `structure` how directories form a tree, `memory` what memory is asked for, `decode` and `write` hold the code,
  `round_trip`, `extent` and `laws` what holds of both together.
- `src/extension/tree.rs`: cached tree objects and their invalidation (`TREE`).
- `src/bitmap.rs`, `src/hash.rs`: what is known of the `gix-bitmap` and `gix-hash` crates, which are not verified.
- `src/util.rs`, `src/entry.rs`, `src/decode.rs`, `src/version.rs`: numbers, strings, stat information, entry flags and
  format versions.
- `app/`: adapters to `std::io` and to the types of `bstr` and `gix-hash`.
