# secret_chat

A small chat server: users register with a password (stored as an argon2
hash), sign in for a random token, publish a public key, and send each other
messages that the receiver reads by index.

The library under `src/` is verified with Verus:

- `utility/` — byte order, big- and little-endian integers, decimal text and
  its parsing, UTF-8 text from bytes, random tokens, password hashing, errors.
- `service/message.rs` — messages and their stored byte layout (three
  length-prefixed UTF-8 fields), with a proof that decoding gives a stored
  message back.
- `database/key_value/` — the ordered key-value table contract, the tables of
  users, tokens, keys and messages, and the proofs about the mailboxes: a read
  from an index gives the user's messages from that index on, a message
  that is sent is what its sender and its receiver read next, and over a
  whole history of sends each user reads the messages that name them, in
  order (`history.rs`).
- `database/engine/` — storage engines: the in-memory one, and the engine
  over a storage backend, which takes only plain table names and hands out
  each table once (names compared without regard to case), so that every
  table has a single handle.
- `service/message_state.rs` — who waits for their next message, and the
  delivery of a message: stored, then handed to its waiting receiver with
  the receiver's count.
- `api/` — the request handlers, as functions from token, body and database
  to response or error.

`app/` is the HTTP server around it: configuration, the SQLite store (one
exclusive connection per file, each file opened once), the waiting reads and
the routes.
