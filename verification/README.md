# kanban

The core of a Kanban registry, verified with Verus: projects and their roots, the
rulebook and how it travels between registries, access policy with its journals, hybrid
search, the projections that a board is shown through, and the client that delivers
messages to a local endpoint.

- `src/` is the library. What needs ids or the time comes in two forms: one that is given
  them and whose contract is exact, and one that draws them. Relations between
  operations are public proof functions whose names begin with `law_`. What is trusted of
  other crates and of the standard library stands in `src/outside.rs` and, for
  `String::push`, in `src/text.rs`.
- `tests/` runs the library.
- `app/` is the ordinary Rust around it: SQLite, files, processes, sockets and floating
  point.
