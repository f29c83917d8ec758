# anydoc

The part of a document converter that decides what is shown: (X)HTML bodies
and Word packages become a small model of blocks and inlines, with
author-hidden content dropped on the way.

The code is Rust, verified with Verus. Each function states in its contract
what it returns for every input; `src/laws/` states what holds of the library
as a whole, such as that what a hidden element holds leaves no trace.

- `src/html.rs` converts a body; `src/walk.rs` is the description it is held
  to.
- `src/css.rs` and `src/cascade.rs` read the supported subset of CSS and
  resolve it for an element.
- `src/docx.rs` and `src/notes.rs` assemble a Word document and prune its
  notes.
- `src/hooks.rs` and `src/package.rs` are what a frontend implements. The
  contracts hold for any answers it gives: for some list of questions, each
  with an answer that the frontend can give to it, the result is exactly what
  the description makes of that list. Whatever an answer of a package depends
  on is handed in with the question.
- `tests/` runs the library on concrete documents.

The library trusts two functions of the standard library: `String::push`, and
`HashSet::contains` on strings.
