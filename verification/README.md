# twrap

Wraps a terminal program and adds to it: what matches given patterns is
highlighted, output is replaced or masked before it is shown, keys are exchanged,
and the screen is saved as SVG, by key or when a pattern matches.

- `src/` is the library. Its functions state what they do in `requires` and
  `ensures`, and Verus proves it. `src/boundary.rs` holds the calls into other
  crates (`regex`, `unicode-width`, `shell-words`, `serde_json`, `vt100`); what is
  stated there is believed. What holds of the library as a whole stands in the
  functions whose names start with `law_`.
- `tests/` runs the library.
- `app/` is the program: the command line, the pseudo terminal, threads, files and
  processes. It asks the library what to do and does it.
