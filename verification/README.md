# Hot Potato — verified core

An event message bus for AI agents: a mailbox with a state machine. Letters
move `queued → delivered → read → acked`; pushes go through `pushing`, and a
poison letter ends `dead`. Every change of status goes through one truth
table.

The library under `src/` is written in Verus; every function carries a
contract that Verus proves:

- `state` — the truth table and `apply`, the bookkeeping of a transition.
- `message` — the letter, fresh ids, thread roots.
- `store` — the in-memory mailboxes (`memory`), FIFO order, grouping, and the
  laws that span calls (`laws`).
- `bus` — `EventBus`: roles, send rules, broadcast fan-out, the lifecycle.
- `deliver` — the push registry and where a push goes.
- `federation`, `handshake` — peer pools, forwarding, invite codes,
  base64url (`base64`).
- `sweeper` — retry backoff, stale-claim recovery, the auth watch.
- `server`, `ws` — the decisions of the JSON-RPC endpoint, the lifecycle log,
  the agent card, the live feed's snapshots.
- `text` — string helpers stated over character views.

`app/` is the program around it: HTTP (axum), the websocket feed, pushes and
peer calls (reqwest), persistence (sled and JSON files), and the JSON shapes
(serde). `tests/` exercises the library on concrete values.
