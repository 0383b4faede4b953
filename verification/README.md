# exkernel

Command-line tool for the Existential Kernel ontology framework: look up term
definitions, list the terms of each scoping ring, lint nodes, draw the term
graph, search, create nodes and fetch ontologies from GitHub.

Layout:

- `src/` — the library, written in Verus. Every function carries a contract
  that Verus proves:
  - `text` — characters, lines, trimming, decimal numerals, text order;
  - `sorting` — what a stable sort and a sorted, repeat-free list are;
  - `markdown` — titles, sections and `[term](./term.md)` links of a node;
  - `config` — `exkernel.toml` as plain values, ring lookup and ring order;
  - `commands` — the logic of each command (lint, graph, scope, search,
    new, fetch), with the laws that relate them as proof functions.
- `app/` — the executable: argument parsing, file and process I/O, TOML and
  JSON through serde; it hands plain values to the library.
- `tests/` — tests of the library on concrete values.
