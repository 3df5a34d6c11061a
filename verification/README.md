# perry_fastify

Route matching and request/reply state for a Fastify-style HTTP framework,
verified with Verus, plus the decisions behind forking worker processes.

- `src/router.rs` — route patterns (`/users/:id`, `/static/*`): parsing and
  matching, specified over character sequences.
- `src/fastify.rs` — the application: route table with its index of fully
  static routes, hooks, error handler, garbage-collector roots; dispatch laws.
- `src/context.rs` — a request's context: URL/query splitting, header,
  parameter and query lookups, percent-decoding, reply state.
- `src/string_map.rs` — the string-keyed map used for parameters, headers and
  the route index.
- `src/text.rs` — the character-level model of `split`, `split_once`,
  `trim_start_matches`, `join`, and string helpers proved against it.
- `src/json.rs` — JSON text of strings and string maps, and parsing of request
  bodies, through `serde_json`.
- `src/builtins.rs` — the name tables of the global constructors (call arity,
  typed-array element size).
- `src/worker.rs`, `src/nanbox.rs` — fork/cluster decisions, the id counter
  for workers and contexts, and NaN-boxed words.
- `app/` — environment, sockets, process spawning, the shared storage of the
  id counters, and float conversions around the library.
