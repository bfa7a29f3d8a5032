# peta

The core of a small HTTP/1.1 server, verified with Verus.

- `src/` — the library: chunked-body framing (`chunk`), the `date` header
  and its one-second cache (`date`, `calendar`), decimal numerals
  (`decimal`), request heads and the connection reader's decisions
  (`head`, `reader`, `request`), path routing (`router`), and response
  serialisation and writing progress (`response`, `writer`). The byte
  buffers, hash maps and head parser of the `bytes`, `hashbrown` and
  `httparse` crates are used through specified wrappers (`buffer`, `maps`,
  `head`).
- `app/` — the program around it: the tokio event loop, sockets, the clock,
  and the futures that run handlers.
- `tests/` — tests of the library on concrete inputs.
