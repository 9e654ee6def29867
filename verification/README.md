# docent

`docent` indexes documents and code history and serves them to MCP clients.
This crate is its core, written in Verus: the functions in `src/` carry
contracts that Verus proves. The few that call the `toml`, `sha2` and
standard-library functions they stand for (`toml_doc.rs`, `hashing.rs`,
`text.rs`, `paths.rs`) are marked `external_body`: their contracts are
assumed, and their doc comments say what they claim.

## Layout

- `src/cli.rs`: the command line (`index-file`, `index-git`, `serve`,
  `list-models`) as a grammar on argument strings, with a parser proved
  against it. `src/cli_laws.rs`: `--config` is the default unless given.
- `src/init.rs`: the config merge. The values of an existing config are
  carried into the default template line by line, keeping the template's
  layout and comments. `src/merge_laws.rs` and `src/merge_values.rs`: what a
  replacement and a whole merge guarantee (one line rewritten, values read
  back, merging again changes nothing).
- `src/toml_doc.rs`: what the merge reads from an existing config through
  the `toml` crate, as plain text.
- `src/hashing.rs`: SHA-256 digests (`sha2`) in lower-case hexadecimal.
- `src/chunking.rs`: the `TokenCounter` abstraction and a whitespace counter
  whose tokens are proved to be the words of the text.
- `src/models.rs`, `src/index.rs`, `src/paths.rs`, `src/outcome.rs`: the
  model listing, the kinds of sources and the order an index run takes, the
  roots that indexing starts from, and the level of reported messages.
- `src/serve_prep.rs`: the steps that prepare the server (size warnings,
  the question whether to go on, loading the index, its notices).
- `src/text.rs`: characters, whitespace, trimming and UTF-8 lengths.
- `app/`: the program around the library: `clap`'s derive, the console, file
  system access and the HTTP server.
- `tests/`: tests of the library.
