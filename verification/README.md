# acon

A parser and writer for ACON (Awk-Compatible Object Notation), with its
behaviour stated in contracts and proved by Verus.

- `src/text.rs`: whitespace, words, lines, dot-paths, decimal numbers.
- `src/tree.rs`: the tree (`Acon`, `Table`), the value it stands for
  (`Value`) and the key order of tables.
- `src/acon.rs`: accessors, `get`/`path` and their mutable forms, errors.
- `src/parse.rs`: the parser, stated as a step function over lines.
- `src/serialize.rs`: writing a table as text.
- `src/laws.rs`, `src/roundtrip.rs`: properties of the library as a whole.
