# tailor

The plain-data core of Tailor, a visual interface builder for gpui, written
in Verus: every function in `src/` carries a contract, and the properties the
builder relies on are proved as lemmas beside the code.

- `text`, `rust`: the Rust source writer behind code generation — indentation,
  blank lines, string literals, wrapped comments.
- `expr`, `node`: colours hoisted into `let`s, builder-chain calls, the
  tags that tie generated lines back to components; `style`: what a node
  needs from its parent to place itself.
- `json`, `message`: cargo's `--message-format=json` output, read into
  diagnostics, binaries and build results.
- `session`, `run`, `toolchain`, `workspace`: what a build session decides at
  each line, exit and Stop; the console and problem list it feeds; where cargo
  is and where a project builds; mapping a compiler error back to a component
  through a line map. `path`: paths compared by component, as `Path` does.
- `find`, `quickly`, `action`, `order`, `workbench`: find-in-code, Open
  Quickly's fuzzy ranking, handler completions, and the workbench's names.

`app/` is the thin program around it: finding cargo on disk, spawning the
build and the program it linked, and printing what comes back.

The tests under `tests/` run the library on concrete cases, one for each
proved property among them.
