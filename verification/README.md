# supplychain

A supply-chain ledger: each block records one event in an item's life
(manufacture, shipping, change of owner), names the hash of the block before
it, and is sealed by a proof-of-work nonce. Nodes exchange new blocks and
whole chains over gossipsub and keep their chains in Redis.

The library under `src/` is verified with Verus:

- `encoding` — decimal digits, JSON string literals, SHA-256 and lowercase
  hex, the pieces a block's hash is built from;
- `block` — blocks, their hash, mining and the check that a block may follow
  another;
- `blockchain` — a node's chain: loading (stable sort by index), the genesis
  block, pending events, mining, chain validity, item traces;
- `net_message` — the messages between nodes;
- `p2p` — what a node does with a peer's message.

`app/` is the program around it: the command line, Redis storage, the
libp2p network loop, and the serde forms of the library's types.
