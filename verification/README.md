# lxp-scan

Cross-repo intelligence for a front-end workspace of sibling repositories:
where a symbol is imported and how it is used (`impact`), an LLM-ready
context pack for it (`context`), same-name components in several repos
(`dupes`), same-body functions under different names (`clones`), version
drift of the shared `lxp-common-*` packages (`drift`), an interactive
explorer (`tui`) and a stdio MCP server (`mcp`).

## Layout

- `src/` — the library, verified with Verus. It holds every decision the
  tool makes: import matching and usage counting, import resolution against
  tsconfig aliases (the JSONC tsconfig and the JSON manifests and MCP
  messages are parsed here, through `jsonc-parser` and `serde_json`), which
  files each scan keeps, which top-level statements are clone candidates,
  exported values or the declaration of a symbol, the context pack's
  totals and excerpts, body fingerprinting and clone
  clustering, duplicate grouping, drift levels, representative site selection, definition
  excerpts, fuzzy ranking and the explorer's state machine, the MCP request
  planning and replies, and the exact text of every report and message. Contracts are
  stated over `Seq`, `Set` and `Map` models; the `law_*` proof functions
  state properties that span several calls (ordering of results, the
  selection cap and round-robin, what drift ignores, and so on).
- `app/` — the command line around it: argument parsing, reading the
  workspace from disk, parsing TypeScript with oxc and turning the tree
  into the plain facts and statement shapes the library consumes, parallel scanning, tables, syntax
  colouring, the terminal UI and the MCP transport.
- `tests/` — behaviour tests against the compiled library.
