# ce-meet

Real-time WebRTC signaling over a mesh. A room is a pubsub topic; participants exchange SDP offers and
answers and ICE candidates over it, so that their browsers can set up direct media. Rooms are open or
gated by capabilities. There is no server.

The library in `src/` holds what the program decides, with contracts that Verus proves:

| Module | What it holds |
|---|---|
| `proto` | signals, envelopes, admission messages; every string a peer controls is bounded |
| `room` | the roster: one last-writer-wins register per member, and one per media attribute |
| `convergence` | what replicas of a roster agree on, whatever the order and number of deliveries |
| `reconcile` | what snapshots preserve, and what merging them leads to |
| `order` | per-peer reorder buffers: directed signals in order, and once |
| `caps`, `admission`, `limiter` | capability checks, admission with resume tokens, rate limit |
| `turn` | ICE servers, TURN credentials, ranking of relays |
| `client`, `cli` | a participant's state; what the command line decides and says |
| `text`, `assoc`, `crypto`, `clock` | strings, association lists, digests and hexadecimal text, the clock |

Proof functions named `law_...` state what holds across functions.

Verus believes the following without proof, each as its doc comment says: `Sha256::digest`, HMAC-SHA256,
`hex::encode` and `hex::decode` (`crypto`), `str::trim` (`text`), and the system clock (`clock`).

`app/` is the program around the library: the command line, the mesh node, the JSON encoding, the
capability verifier, files, and the floating-point score of a relay. `tests/` runs the library.
