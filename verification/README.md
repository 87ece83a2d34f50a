# rapina-mcp

An MCP server for the Rapina web framework, with its decisions verified by Verus.

- `src/` is the verified library: which `rapina` command each tool runs
  (`tools/cli.rs`), how a finished command is reported (`outcome.rs`), the
  `rapina_explain` report (`tools/explain.rs`) with the source tree listing and
  module detection (`tree.rs`), routes and auth settings read from the sources
  and `.env` (`sources.rs`), the `Cargo.toml` summary (`cargo.rs`, parsing
  by the `toml` crate), ordering by byte keys (`order.rs`) and string helpers (`text.rs`).
- `app/` is the server around it: tool registration with `rmcp`, spawning the
  `rapina` process, and reading the project directory into a `ProjectListing`.
- `tests/` runs the library on concrete inputs.
