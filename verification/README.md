# fortitude

A Fortran linter and formatter whose core is written in Verus: the decisions of a check run,
the rules that read the syntax tree, allow comments, applying fixes round after round and
their diffs, symbol tables over a given scope, line breaking, and the output formats are
verified against their contracts. Parsing with tree-sitter, regular expressions and line
diffs are calls into those crates whose results the contracts name rather than describe.

- `src/` is the verified library. Each module states what its functions compute as spec
  functions over sequences of characters, and proves the code against them.
- `tests/` runs the library on concrete inputs.
- `app/` is the command line: it reads files and standard input, hands their text to the
  library, and writes what the library returns.

Modules of the library:

| module | what it holds |
| --- | --- |
| `text`, `write`, `order` | characters, UTF-8 lengths, decimal text, lexicographic order and stable sorts |
| `range`, `line_index`, `source` | byte ranges, line starts, source files and line/column locations |
| `rules`, `settings`, `cli` | rule sets and tables, options, and command-line decisions |
| `diagnostics`, `edits`, `decl_edits`, `diff` | diagnostics, fixes and edits, and the diff of a fix |
| `fix` | applying the fixes of a file, and the rounds of checking and fixing |
| `allow_comments`, `lints`, `ast`, `symbols` | allow comments, the syntax-tree rules, node facts and symbol tables |
| `syntax` | parsing with tree-sitter into a syntax tree of plain values |
| `lint_walk`, `check_path` | checking a file: the walk over its tree, and what is kept of its violations |
| `logical_lines`, `formatter`, `wrap` | logical lines, joining continued lines, and breaking long ones in passes |
| `check`, `printer` | results of a run, per-file statuses, sorting, summaries and statistics |
| `render`, `concise`, `grouped`, `json_messages`, `junit` | the output formats |
| `panic_error` | reporting a panic while checking |
