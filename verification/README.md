# ultra_uni

Line counts, complexity metrics, a linter and a whitespace formatter for source code in the
languages that tree-sitter grammars cover. Each function states what it returns in its contract,
and the contracts are proved.

- `src/` is the verified library.
  - `lib.rs`: the requests (`supported_languages`, `syntax_tree`, `measure`, `lint`, `format`)
    and their errors.
  - `language.rs`: the language identifiers, their grammars and the node kinds that drive the
    complexity metrics.
  - `sitter.rs`: the calls into tree-sitter and its grammars, each with the contract it is
    trusted to meet; what a parse holds is named as a function of the grammar and the text.
  - `syntax.rs`: a parse tree read into plain values (nodes in preorder) and the shape it is
    checked to have.
  - `tree.rs`: walks and sibling lookups over such a tree.
  - `metrics.rs`, `lint.rs`, `format.rs`: the three analyses.
  - `text.rs`: byte, character and line helpers.
  - `laws.rs`: properties that relate the functions above.
- `tests/` exercises the library.
- `app/` holds the WebAssembly bindings, which serialise the library's results for JavaScript.
