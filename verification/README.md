# protohackers

Servers for a series of small network protocols. The library (`src/`) holds
their parsing, encoding and decision logic with Verus contracts; `app/` holds
the network side (sockets, tasks, channels, JSON) and calls the library.

- `protocol`: the speed camera binary protocol: message types, parsing,
  framing of a byte stream, encoding of tickets, errors and heartbeats.
- `utils`: a parser for every message type, reporting failure as `None`.
- `client`, `db`: client state and observation records.
- `server`: the speed camera server state: identification, heartbeats,
  observations kept in (plate, timestamp) order, speeding detection, ticket
  issue at most once per plate, road and day, and ticket queues per road.
- `kv`: the UDP key-value store.
- `prime`: primality and the prime-time request decision.
- `proxy`: Boguscoin address rewriting with the `regex` crate.
- `chat`: username checks, room announcements and what each member sees.
- `order`, `text`: byte order and string helpers.
