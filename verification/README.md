# overleaf_mcp

The logic of an MCP server for Overleaf, written and proved in Verus: the framing
of the realtime protocol, the operations by which documents are edited, the copy
of each open document that is kept in step with the server, the project's file
tree, and the rules and reports of the tools.

- `src/` is the library. Everything in it is verified. What it has from the
  `regex`, `serde_json` and `chrono` crates stands behind small functions whose
  doc comments say what is taken on trust.
- `tests/` runs the library on concrete values.
- `app/` is the program around it: command line, HTTP, polling, local files, and
  the registration of the tools.

The library does no I/O. A connection, a client and a workspace are plain states;
`app/` performs the requests, hands in what came back, and does what the states
ask for next.

Where to start reading:

| Subject | Modules |
|---|---|
| Edits as operations on UTF-16 positions | `units`, `ot`, `edits` |
| The copy of a document | `shadow`, `connection`, `session` |
| Frames on the wire | `frame`, `json` |
| The file tree | `project`, `tree`, `folders` |
| Logging in and addressing the server | `config`, `client` |
| The tools | `workspace`, `tools`, `search`, `history`, `compile`, `log`, `stamps` |
| Text, numbers and tables | `text`, `pieces`, `number`, `order`, `table`, `render` |
