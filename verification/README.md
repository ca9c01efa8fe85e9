# terax

The verified core of Terax's remote workspaces and of its `terax` command.

A remote workspace is a directory on a host that is reached over SSH. The
library decides what is asked of the host and what an operation returns; it
does no input or output of its own. Each operation is a small state machine:
starting it gives the first request and a state, and `resume` takes the reply
and gives the next request or the result. The contract of every step says which
transition it makes, and the laws speak of whole runs.

## Layout

- `src/remote.rs`: requests, replies, and runs of them
- `src/files.rs`, `src/folders.rs`, `src/listing.rs`: single files, making and
  removing directories, showing one; `src/removal.rs` holds the laws of removal
- `src/walk.rs`, `src/search.rs`, `src/pattern.rs`: walking a tree to list,
  search or match; `src/survey.rs` says what a walk finds in a whole tree
- `src/grep.rs`, `src/shell.rs`: searching contents with the host's `grep`, and
  how a shell reads the command
- `src/connect.rs`, `src/pins.rs`, `src/manager.rs`: opening connections, pinned
  host keys, the connections that are open
- `src/terminal.rs`: the command that opens a remote terminal
- `src/cli.rs`, `src/server.rs`, `src/json.rs`: the `terax` command and the
  requests that wait for an answer
- `src/inputsource.rs`: the language of the keyboard
- `src/paths.rs`, `src/text.rs`, `src/numbers.rs`, `src/sort.rs`,
  `src/table.rs`: what the rest is written with
- `app/`: sockets, files, threads and the SSH sessions themselves
- `tests/`: examples of all of the above

What is not proved is what other crates do. Each such call stands behind a
function marked `external_body`, whose comment says what is taken for granted.
