# resp_store

A RESP (REdis Serialization Protocol) codec, an in-memory key/value store
with string and list values, lazy expiry and blocking pops, and the request
handlers that connect the two, verified with Verus.

- `src/resp/`: the wire format. `wire.rs` states the grammar as functions on
  byte sequences (`parse_frame`, `serialize`); `decode.rs` and `encode.rs`
  implement them; `roundtrip.rs` proves that decoding an encoding gives the
  value back; `double.rs` gives double texts their numeric equality.
- `src/store/`: the store, modelled as a map from keys to entries and a map
  from keys to queues of blocked requests; `laws.rs` holds properties that
  span its operations.
- `src/commands/`: the handlers of `ECHO`, `PING`, `GET`, `SET`, `LPUSH`,
  `LPOP`, `LRANGE` and the decision steps of `BLPOP`.
- `src/server.rs`: reading a request out of a connection's bytes, choosing
  its handler, reading the timeout setting.
- `app/`: the TCP server and the waiting of `BLPOP`, on tokio.
