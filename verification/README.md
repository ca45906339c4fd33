# herdr-services

A herdr plugin that finds the services listening in each workspace, shows them in
the sidebar and in a popup picker, and ends them on request.

- `src/` is the verified core: reading what `lsof`, `ps`, `/proc`, `docker ps` and
  herdr say, attributing listeners to workspaces, keeping the registry of
  services, filling the sidebar, drawing the picker, answering requests, and
  deciding when to scan. Every function states what it returns or changes, and
  public proof functions state what holds across functions.
- `app/` runs it: command line, files, sockets, threads, terminal.
- `tests/` runs the core on concrete values.

What is believed rather than proved is little: `String::push`,
`str::to_lowercase`, `String::from_utf8` and `String::from_utf8_lossy` of the
standard library (`src/text.rs`, `src/process.rs`), reading and quoting JSON by
`serde_json` (`src/json.rs`), and regular expressions by `regex`
(`src/pattern.rs`).
