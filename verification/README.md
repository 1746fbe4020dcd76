# forgeindex

AST-driven codebase intelligence for agentic workflows: source files are
parsed with tree-sitter, their symbols and imports are stored in a SQLite
index, and a tool server (MCP over stdio) answers questions about them —
overviews, symbol lookup and search, skeletons, dependency graphs, and
context compressed to a token budget.

## Layout

- `src/` — the library, verified with Verus. Every function states its
  result in `ensures` over mathematical models (`Seq`, `Set`, spec
  functions), and the laws the tools rely on are proof functions:
  - `text`, `pattern` — character-level text operations.
  - `syntax`, `parser` — syntax trees as plain nodes, and the extraction of
    symbols and imports for Python, TypeScript/JavaScript, Rust, Go, Java,
    C, C++ and Ruby.
  - `store`, `search` — scoped names, reference resolution, and the SQL of
    the index's searches.
  - `graph` — the dependency graph: neighbours, blast radius (proved equal
    to all transitive dependents), traces.
  - `compressor` — skeletons, budgeted context selection and repository
    packing (proved to stay within the token budget).
  - `overview`, `mcp`, `tools` — the tool server's decisions and answers.
  - `indexer`, `watcher`, `config`, `cli` — what gets indexed, git hooks
    and change debouncing, configuration, command line.
- `app/` — the program around the library: argument parsing, file and
  database I/O, the JSON-RPC loop, and the floating-point rankings
  (TF-IDF and PageRank).
- `tests/` — tests of the library on concrete values.
