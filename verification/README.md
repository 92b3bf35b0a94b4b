# fff_plus

A fast file finder and content searcher for code bases, with a search
daemon that serves many project roots from a small pool of worker
processes. The library under `src/` is written in Verus: every function
carries a contract and is proved against it.

## Layout

- `src/` — the verified library.
  - Ranking and matching: `fuzzy` (fuzzy path and line matching),
    `score` (scores, frecency ordering, paging), `sort`, `file_list`.
  - Content search: `grep` (plain-text matching, highlights, paging of
    files), `bigram`, `bitset` and `overlay` (candidate filtering),
    `options`, `fallback` (retry chain of a search with no match).
  - Result text: `output`, `listing`, `instructions`, `ffi_json`.
  - The daemon: `ring` (consistent hashing of roots to workers),
    `master`, `routing`, `cursor`, `wire` (message framing), `lockfile`,
    `paths`, `config`, `engine`, `watcher`, `ignore`, `git`.
- `tests/` — tests of the library on concrete values.
- `app/` — the executable around the library: sockets, files, processes,
  signals, and the serde and bincode encodings of the library's types.

The proofs of the laws that span several functions (round trips of the
wire frame, the lockfile and the routing snapshot; stickiness of root
assignment; a bigram filter whose columns mark a file never drops it for
a pattern the file holds in any ASCII case; the cursor store drops only
its oldest cursor once full) are public proof functions whose names
start with `lemma_`.
