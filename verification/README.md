# astral

Semantic chunks, hybrid retrieval and code topology for Solidity codebases, with
the logic verified by Verus.

- `src/` is the library. Every function carries a contract, and the laws that
  relate several functions stand beside them as proof functions.
  - `text`, `ordered`, `float`: texts, ordered collections with a stable sort, and
    IEEE 754 numbers held as bit patterns.
  - `syntax`, `parser`: the `tree-sitter` tree as a list of nodes, and the
    function-like definitions in it.
  - `chunker`, `embedding`: identities and embedding texts, and what is made of the
    model's vectors.
  - `columns`, `storage`, `export`: Arrow batches, the table's schema, rows, filters
    and orders, and the dump for analysis.
  - `retrieval`: rank fusion, symbol expansion, locality and the Markdown document.
  - `visualizer`, `viewer`: the topology graph, risk scores, and the page that shows
    it.
  - `command`: the command line.
- `app/` is the program around it: the LanceDB table, the embedding model, files
  and arguments.
- `tests/` runs the library, with the outside crates linked.

The calls into outside crates that the library makes stand behind small wrappers in
`syntax`, `columns` and `embedding`, each with the claim that is made of it. Of the
standard library `text` and `visualizer` each state the claim of one function.
