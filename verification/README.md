# kitaebot

The decision logic of an agent daemon, with its behaviour stated in contracts
and proved by Verus, and the shell that runs it.

- `src/` is the library: configuration rules, the flat and the lossless context
  engine, retrieval tools, duty scheduling, self-analysis, conventions,
  distillation and the bounded error log. It computes on plain values.
- `tests/` runs the library on concrete values.
- `app/` is ordinary Rust around the library: files, SQLite, processes, timers,
  and the traits through which models, git and GitHub are reached.

Calls into `regex`, `serde_json`, `sha2` and a few functions of std stand behind
small wrappers in `src/patterns.rs`, `src/json.rs`, `src/digest.rs` and
`src/text/mod.rs`. What their results are is stated in their contracts, or named
by the specification functions without a body beside them. Everything else is
proved.

What holds of the library as a whole is stated in public proof functions, next
to the functions they speak of: that messages collapsed into a summary stay
reachable and nothing else leaves the context, that an expansion keeps to its
token cap, that sessions do not affect each other, that a stored message reads
back as it was, that a duty overdue by many periods runs once, and others.
