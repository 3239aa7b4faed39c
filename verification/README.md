# vela_federation

The federation side of a Matrix homeserver: what it accepts from other servers,
what it sends them, whom it trusts, and where it connects to.

The library under `src/` holds the protocol's decisions, with their contracts
proved by Verus. Where the server has to ask the store, the network or the
clock, a function of the library looks at what is known so far and names the
next step; its caller takes the step, notes the answer, and asks again. `app/`
is such a caller: HTTP handlers, outgoing requests, background tasks. What it
decides itself is what to do when a step fails that nothing depends on: it logs
the failure and goes on. The rules of rooms, the signing of documents and the
store are traits that the host of the service implements.

| Module | What it is about |
| --- | --- |
| `receive`, `intake`, `gaps`, `backfill`, `persist` | events that arrive or are fetched |
| `transaction` | transactions: grouping, outcomes, replies |
| `room_state`, `auth_chain` | the state before an event, walks over auth events |
| `join`, `invite` | joins and invites of other servers |
| `fetch`, `visibility`, `directory` | what other servers may read |
| `edu`, `typing`, `receipts`, `observers` | ephemeral units |
| `keys`, `key_cache`, `server_keys`, `xmatrix` | keys, signatures, signed requests |
| `resolver`, `ip`, `server_acl` | where servers are, and which are kept out |
| `client`, `media` | requests to other servers and their replies |
| `sender`, `filler` | sending, and completing rooms joined with partial state |
| `json`, `table`, `server_map`, `text`, `pdu`, `api` | the vocabulary of the above |

Laws that span functions stand as `law_*` proof functions next to the functions
that they are about.
