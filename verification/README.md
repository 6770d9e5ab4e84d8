# p2p_node

A peer-to-peer node that keeps a table of known peers and exchanges
protobuf-encoded messages with them, written in Verus.

- `src/` is the verified library:
  - `varint.rs`: the base-128 varints of the protobuf wire format, with the
    proof that reading back a written varint gives the value back;
  - `wire.rs`: protobuf fields, and the calls into `prost` that write and read
    them (trusted, with their contracts stated over the specs of this crate);
  - `protocols.rs`: the messages (`Base`, `Handshake`, `PeerInfo`), their
    encoding and decoding, and the proofs that decoding an encoding gives the
    message back;
  - `peer.rs`: a known peer and the messages a node sends it;
  - `node.rs`: the peer table and the rules by which a node handles messages,
    connections and its periodic tasks. The table is keyed by the peers' ip
    texts; Verus proves little of a `HashMap` with `String` keys, so it is
    held as two vectors (the ips and the peers) with a ghost map as its view
    and the invariant that no ip occurs twice;
  - `utils.rs`: text helpers, `key=value` arguments, decimal parsing, and
    the clock.
- `app/` is the program around it: sockets, tasks and timers with `tokio`,
  the command line, and printing.
- `tests/` runs the library on concrete values.
