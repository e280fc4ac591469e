# mimir_core

The core of a local memory for coding agents: typed memories with duplicate
detection, an index over documents and source files, ranked recall, session briefs,
a ledger of what was done to each memory, and replication between machines. The
library is written in Verus; its contracts and laws are checked by the verifier.

- `src/` holds the rules: what is stored, refused, shown, merged, archived and
  indexed, each as a function from plain data to a decision. Laws that relate several
  functions stand as public proof functions beside them.
- `tests/` runs the library on concrete values.
- `app/` is what surrounds the rules: SQLite, the file system, the models, and the
  arithmetic of scores, which is floating point.

What the library takes from other crates without proof: `serde_json` for metadata,
`blake3` for content hashes, `pulldown-cmark` for the structure of Markdown, `ulid`
for tokens, and a few functions of the standard library that classify and fold
characters or read the clock. Each such item says above it what it relies on.
