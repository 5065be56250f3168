# gateway_dot

A gateway to a Polkadot network. It listens for peers, answers on the substreams that they
open, hands the block announcements that it receives to a bridge, and requests the announced
blocks.

- `src/` is the library. Every function carries a contract that Verus proves.
  - `wire`, `schema`: the protobuf messages of block sync, and their encoding.
  - `scale`, `block`: the SCALE encoding of hashes, numbers and byte strings; block headers and
    announcements.
  - `protocol`: what is requested, what is answered, and the names of the protocols
    (`net_protocol`); the SCALE encodings of requests and blocks (`coding`).
  - `behaviour`: block sync (`polkadot`), discovery (`kadelmia`, on the tables of `dht`), and
    what is known of the peers (`reconnect`).
  - `gateway`: the substreams of a peer, the connection to the bridge, and the requests for
    announced blocks, each as a machine from states and events to actions.
  - `node_keys`: the key of the node and its file.
  - `peer`, `time`, `octets`: identities and addresses, points in time, byte strings.
- `app/` is the program around it: sockets, files, timers and the traits of `libp2p`.
- `tests/` runs the library on concrete values, with the outside crates linked.

Functions marked `external_body` call an outside crate. Their contracts are taken from that
crate's source and are not proved; the comment above each says what is taken for granted.
