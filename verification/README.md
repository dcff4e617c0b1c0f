# expat_rs

An XML 1.0 parser in Rust whose behaviour is stated in Verus contracts and
proved: a tokeniser, a well-formedness checker, and entity expansion that is
measured under a nesting-depth cap and a byte budget before any text is built.

## Layout

- `src/grammar.rs` states the tokeniser as functions on bytes: which token,
  error or end the input holds at a position, and where scanning stops.
- `src/lexer.rs` is the tokeniser; each scanner is proved to compute what the
  grammar function of the same name says.
- `src/boundary.rs` proves that the tokeniser only ever rests at character
  boundaries, so every text a token carries is an exact slice of the input.
- `src/parser.rs` is the well-formedness checker, stated as a function from a
  document state and a token to an event and a new state.
- `src/entities.rs` holds the entity table, the measured expansion and the
  reader of the DOCTYPE internal subset.
- `src/laws.rs` proves what holds of every event and every token: elements
  nest, there is one root, the XML declaration comes first, attribute names
  are unique, the expansion budget holds and only grows more permissive as
  the limits are raised, a built replacement text is no longer than its
  measure, reference cycles are refused, comments hold no `--`.
- `src/stream.rs` speaks of the whole event stream a caller drains: it is
  well formed from the first event to the end (one root, proper nesting, the
  XML declaration first, character data inside the root), and a document
  without references drains the same under any limits.
- `src/text.rs` holds byte and text helpers and the few calls into `std`
  whose contracts are trusted.
- `tests/` runs the library on concrete documents.
- `app/` is the `xmlwf` command: it reads files and reports whether each is
  well formed.
