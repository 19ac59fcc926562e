# talk_protocol

A Claim/When database and protocol, verified with Verus.

- `src/template.rs`: mixed templates such as `/page/ points ("up") at /target/`,
  parsed into a relation template and its placeholders.
- `src/query.rs`: `when` queries: the input `( statements ) body` read from its
  token texts (group, statements, pinned expressions, body), captured names
  numbered by first appearance, and the block a query expands to, or the
  compile error that says why the input holds no query.
- `src/lexicon.rs`: how token texts are told apart (words, keywords, literals,
  group delimiters).
- `src/macros.rs`: the other macro expansions, over token texts.
- `src/value.rs`: claim values, a JSON value with the hash of its JSON text.
- `src/rtvm.rs`: the runtime database of relations, statements and queries.
- `src/handle.rs`: entities and query matches as a client sees them.
- `src/database.rs`: tables of integer claims.
- `src/json.rs`, `src/strings.rs`: the calls into `serde_json` and `std` that the
  library trusts, and verified text building.
- `app/`: the JSON-RPC server over stdin/stdout, the shared (locked) runtime,
  and the serde forms of the library's types.
