# protohackers

Four small TCP services whose protocol logic is written and proved in Verus.

- `src/` — the verified library:
  - `lines` — finding, taking and splitting newline-terminated lines;
  - `smoke_test` — the echo service's session;
  - `mean_end` — big-endian `i32` codec, 9-byte frame decoding, the price
    history (a `HashMap`) with its exactly specified windowed mean, and the
    session that applies frames as they complete; the proof that cutting the
    byte stream differently changes neither the answers nor the state;
  - `prime_time` — the decision for each JSON request line (answer, refuse,
    or fail), with primality delegated to the `is_prime` crate;
  - `budget_chat` — the name slot, the line buffer, the relay rules and the
    handling of each client line of the chat room.
- `app/` — sockets, tokio tasks, locks, JSON (serde) and command-line handling
  around the library; one subcommand per service.
- `tests/` — tests of the library on concrete values.
