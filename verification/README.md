# regexc

A regular-expression compiler whose logic is verified with Verus: it parses a
pattern into a syntax tree, simplifies the tree, reports patterns that invite
catastrophic backtracking, builds an NFA and a DFA, minimizes the DFA, and prints
the DFA as a DOT graph, as bytecode, or as matcher source code in Rust,
JavaScript or Python.

Layout:

- `src/` — the verified library. Each module states its behaviour over
  mathematical models (`Seq`, `Set`, spec functions) and proves it:
  - `ast` — the syntax tree, its value as a spec datatype, and the orders on it;
  - `text`, `regex_text` — building strings, and printing trees back as patterns;
  - `parser` — the grammar as spec functions and the recursive-descent parser;
  - `optimizer` — constant folding and deduplication of alternatives;
  - `analyzer` — the ReDoS findings and the report;
  - `dfa`, `nfa`, `subset`, `minimize`, `render` — automata: Thompson's
    construction, epsilon closures, the subset construction, partition-refinement
    minimization, and the DOT and bytecode forms;
  - `codegen` — matcher programs in the target languages.
- `tests/` — tests of the library on concrete patterns.
- `app/` — the command-line program (argument handling and printing).
