# forge

Forge is a command-line compute broker for coding agents. This crate holds
its SSH provider: node records and their checks, the node store, the command
lines that reach a node through the system `ssh` client, host inspection, and
the tables the command line prints. Every function of the library carries a
contract; Verus proves all of them but one, `text::push_char`, a wrapper of
`String::push` (which the standard library specifications leave out) whose
contract is taken as given.

## Layout

- `src/` — the library (Verus)
  - `text.rs` — whitespace, trimming, the order of names, decimal numbers
  - `paths.rs` — Unix path joining, file names and extensions, `PATH` lists
  - `error.rs` — the errors and the text of each
  - `config.rs` — node records, node files, their checks
  - `store.rs` — add, remove, look up and import nodes; the store's laws
  - `client.rs` — `ssh`/`sshpass` command lines, shell quoting, and the
    reading of shell words that the quoting is proved against
  - `inspect.rs` — the inspection script and the reading of its output
  - `node.rs`, `provider.rs` — node summaries and the SSH provider
  - `table.rs` — listings and inspection tables
  - `cli.rs` — what the command line builds from its options
- `app/` — the `forge` program: argument parsing (clap), YAML/JSON (serde),
  files, the environment and processes
- `tests/` — tests of the library

The library reads and writes nothing itself: store operations take what the
node file holds and give back what is to be written, and a client gives the
program and arguments to run and judges what the command printed.
