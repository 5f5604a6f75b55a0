# atomcode_core

The core of a coding agent: what is decided and computed, stated in contracts and
proved by Verus.

- `ctx`: what a model is sent. Rendering a conversation into a window, pairing tool
  calls with their results, compressing and compacting history, truncating outputs,
  keeping snapshots of files.
- `graph`: symbols and calls of a code base, reading them out of sources, updates of
  the graph, walks through it.
- `hook`: commands, scripts and web services that are called at events, and what
  their answers come to.
- `lsp`: talking to language servers: framing, documents, diagnostics, which server
  serves which file.
- `mcp`: servers of tools: their configuration, and talking to them over HTTP.
- `notify`, `locale`: notifications and languages of the interface.
- `text`, `paths`, `json`, `text_map`, `text_order`, `seqs`, `hashing`: what the rest is
  stated over.

`app/` carries decisions out: processes, files, the network, the terminal, and the
serialised forms of the library's types. `tests/` runs the library.

Calls into `serde_json`, `url`, `tree-sitter` and the parts of the standard library that have no
specification stand behind small wrappers; each says what it claims of the call.
