# protohackers

Servers for five Protohackers problems (smoke test, prime time, budget chat, insecure
sockets layer, job centre) and the small JSON library they share. The logic is a Verus
library, proved against contracts; the network plumbing is ordinary Rust on tokio.

## Layout

- `src/` — the verified library.
  - `json.rs`, `parse.rs`, `text.rs` — JSON values (numbers held as exact decimals), the
    parser and the printer, each specified over a mathematical model (`JsonSpec`).
  - `roundtrip.rs` — the proof that printing a value and parsing the text gives it back.
  - `spacing.rs` — the proof that whitespace around a text that parses changes nothing.
  - `prime.rs` — primality requests and responses.
  - `chat.rs` — the chat room: names, joins, leaves, and who gets which message.
  - `cipher.rs`, `toys.rs` — the cipher layer (parsing, encoding, decoding, the no-op test)
    and the toy-order replies.
  - `jobs.rs`, `request.rs`, `centre.rs` — the job centre: queues, priorities, claims,
    waiting workers, request parsing and request handling.
- `tests/` — tests of the library.
- `app/` — the servers: sockets, tasks, channels, and the float arithmetic of the number
  handling. Run one with `protohackers <smoke-test | prime-time | budget-chat |
  insecure-sockets | job-centre>`.
