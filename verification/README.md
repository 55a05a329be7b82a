# ic_websocket_cdk

The core of IC WebSocket for Internet Computer canisters, written in Verus: the
state that registers clients and gateways, the sequencing and certification of the
messages that the canister sends, the checks on the messages and keep-alives that
clients send back, and the polling of the gateways. Each operation has a contract
over a mathematical model of the state, and the laws that hold across operations
are proved.

## Layout

- `src/model.rs`: the model of the state (`WsModel`) and what each operation
  makes of it.
- `src/state.rs`: the state (`WsState`), whose view is the model, and its
  operations; `src/lib.rs`: the operations that a canister exposes (`ws_open`,
  `ws_close`, `ws_message`, `ws_get_messages`, `send`, `close`, `wipe`).
- `src/laws.rs`: what holds across operations: connections stay consistent,
  gateway queues hold consecutive nonces, queued messages stay certified, every
  client's gateway stays registered and counts exactly its clients, polls return
  the messages from the requested nonce, clients that miss their keep alive are
  closed.
- `src/gateway.rs`, `src/types.rs`, `src/principal.rs`, `src/vec_map.rs`: the
  data types; `src/text.rs` and `src/encoding.rs`: the keys, the CBOR of the
  messages and the Candid of the service messages; `src/errors.rs`: the errors.
- `src/external.rs`: the contracts of the outside functions the library calls
  (the certified map of `ic_certified_map`, `sha2`, `candid`'s principal text,
  `serde_cbor`).
- `app/`: the canister side: the state in thread-local storage, the caller, the
  time, the certified data, the timers, the handlers and the Candid types.
- `tests/`: the library driven through whole connections, and its encodings
  checked against `serde_cbor` and `candid`.

The library takes the caller and the time as arguments and queues the handler
calls that an operation asks for; `app/` supplies the former and makes the latter.
