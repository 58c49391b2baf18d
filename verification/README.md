# linkmap

A local code-map tool: it indexes the definitions, calls, renders, imports
and routes of a repository, resolves them into edges, and shows the impact
graph of a symbol, path queries between symbols, heuristic architecture
checks, git change summaries and snapshot diffs.

## Layout

- `src/` — the library, written in Verus and verified: every public function
  carries a contract over mathematical views, and the laws of the library
  are public proof functions next to the code they are about.
  - `text`, `order`, `select`, `paths` — strings, orders and sequences.
  - `grammar`, `parsing`, `extractor`, `laravel`, `indexing` — Tree-sitter parsing,
    from syntax-query captures and route files to index rows; what a scan
    or an update does.
  - `resolver` — conservative resolution of references into edges.
  - `intel` — classification, architecture rules, git status, change
    summaries and path finding.
  - `viewer` — the impact graph, its DOT text and its HTML page.
  - `snapshot`, `history`, `explain`, `report`, `error`, `ui`, `lang`,
    `hasher` — snapshots and their diffs, command history, report text.
- `tests/` — tests of the library.
- `app/` — the command-line program around the library: argument parsing,
  the SQLite index, the file system, git and the browser. Tree-sitter
  queries are read from `queries/` and the viewer's page resources from
  `assets/`, both beside the executable.
