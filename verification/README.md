# Code Path Lens

Code Path Lens traces a bounded path around one code symbol: its callers,
callees, the types it names, the data boundaries its calls cross, source
excerpts, and the calls that cannot be resolved. It parses Rust,
TypeScript/JavaScript, Python and Go with tree-sitter and writes a
self-contained HTML viewer, JSON, or Graphviz DOT.

The library in `src/` is verified with Verus; `app/` is the command line
around it.

## Layout

- `src/text.rs`: character-level text operations (replacement, trimming,
  lines, decimal numbers, ordering) stated over `Seq<char>`.
- `src/model.rs`: the graph and symbol types with their views.
- `src/sort.rs`: a stable insertion sort by a key order, with the facts that
  it keeps the elements and orders them.
- `src/syntax.rs`: a syntax tree as plain values, read from tree-sitter.
- `src/adapters.rs`: language adapters and the declarations, calls and type
  names a syntax tree holds.
- `src/scan.rs`: which files are read, generated-file detection, exclusion
  globs, and the scan state.
- `src/analyzer.rs`: the breadth-first graph under depth and node budget.
- `src/graph_laws.rs`: what every traced graph satisfies (budget, distinct
  ids and edges, attached edges, order, entry node, warnings, and that no
  evidence is hidden unless the budget truncated the graph).
- `src/render.rs`: DOT and HTML output.
- `src/cli.rs`, `src/license.rs`: option values, output names, exit codes, and
  the rules of the Pro license check.
- `app/`: argument parsing, the repository walk, file and network I/O, and
  JSON serialization.
