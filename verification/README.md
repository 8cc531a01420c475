# my-lisp core and language server, verified

A Verus library holding the verified core of the my-lisp tooling:

- `reader`, `numeral`, `syntax`, `lambda_list`: the reader of my-lisp source
  into expressions with byte spans, exact numeric literals, and lambda lists.
- `bignum`, `rational`: unbounded naturals and integers, and exact fractions
  in lowest terms built on them.
- `json`, `jsonout`, `value`: the JSON decoder into plain data values and the
  string escaping of the encoder.
- `canon`, `necessary_forms`, `status_registry`, `surface_registry`, `atoms`,
  `language_items`, `ir`: semantic identities, the surface registries that
  give them spellings, tooling metadata and the provenance-bearing IR.
- `analysis`, `workspace`, `protocol`, `transport`, `server`, `guard_knowledge`:
  the language server: document analysis, the cross-file index, JSON-RPC
  messages and framing, and request handling.
- `error`, `presentation`: diagnostics and their Ukrainian presentation.
- `capabilities`, `layout`, `digest`, `text`, `textops`, `lexical`: host
  capability registration, the NaN-boxed layout, SHA-256 and text utilities.
- `ntp`: the request and reply decision of `internet-time-sync`.
- `limits`: the host-access limits (programs, TCP connect and listen
  endpoints) that an evaluation environment may carry.

`app/main.rs` is the stdio language server: it reads framed messages, hands
them to `lib::server::Server`, writes the replies and scans the workspace
root that an `initialize` request names.

`app/main.rs` also carries `internet_time_sync`, the UDP exchange around
`lib::ntp`.

Not carried here: the evaluator and its built-in functions (they compute
over floating-point values), the FASL image format, the WebAssembly
bindings and the command-line host. They are parts of the my-lisp runtime
that neither this library nor `app/` holds.
