# ferrite_kv

A Redis-compatible (RESP2) in-memory key-value store whose core is proved
with Verus.

`src/` is the verified library:

- `resp` — frames, the completeness check, the parser and the serializer,
  with the wire format modelled as spec functions over bytes;
  `resp_laws` proves that an encoded frame parses back to itself, that the
  check and the parser agree in both directions (where the check passes the
  parser fails only on text that is not UTF-8), and that a checked frame is
  exactly as long as the check says: every shorter prefix is incomplete and
  trailing bytes change nothing.
- `decimal`, `text` — decimal numbers and the text helpers the protocol
  needs.
- `storage` — the sharded key space with lazy and active expiry, modelled as
  a map from keys to entries; `storage_laws` states what reads give back
  after writes, deletions, increments and expirations. Each shard is a
  `Vec` of key and entry pairs with no key twice, rather than a `HashMap`:
  vstd's `HashMap` specification proves nothing useful for `String` keys,
  while the vector's contents can be stated and proved exactly.
- `command` — decoding requests, executing them, and the log frame of each
  state-changing command; `command_laws` proves that a log frame decodes to
  the command that wrote it, that log frames are bulk strings headed by the
  command's name, that MGET answers like one GET per key, and that read-only
  commands keep the live keys, values and deadlines.
- `aof` — replaying the append-only log; `aof_laws` proves that replaying
  the log of a sequence of commands runs those commands in order.
- `connection`, `server` — cutting frames off a client's input and the
  per-request decision of what to reply and what to log.

Operations that read the clock come in two forms: `*_at` takes the time
explicitly and has an exact contract; the plain form reads the store's clock
and promises the same for some moment.

`app/` is the server binary: sockets, the log file, the background expiry
task and command-line handling, built on tokio. The store is one verified
value, so the server guards it with a single lock in place of one lock per
shard; a place in the log queue is reserved before that lock is taken.
