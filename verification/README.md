# vault

The logic of a note vault inside an editor, and of the reports that the editor
sends when something goes wrong, written in Rust and verified with Verus.

- `src/` is the verified library. Each public function states in its contract
  what it returns or changes; the promises that span functions stand as public
  proof functions at the end of each module.
- `tests/` runs the library on concrete values, with the outside crates linked.
- `app/` is ordinary Rust around the library: the panels on screen, files,
  network, telemetry and threads. Besides the crates in `Cargo.toml` it uses
  those of the editor.

What the library takes on trust from the standard library and from `heapless`,
`itertools`, `reqwest` and `chrono` is marked `external_body`,
`external_type_specification` or `assume_specification`; the doc comment above
each such item says what it claims.
