# rmw

The core of a peer-to-peer node, written in Verus. The functions under `src/` are
verified by Verus against their `requires` / `ensures` contracts, except a few small
trusted wrappers (marked `#[verifier::external_body]`) that make the calls into std
and the outside crates; their contracts say what those calls are taken to do. The
clock readings (`time::now`, `time::sec`) have no contract on their value.

- `addr` — IPv4 and IPv6 socket addresses and their byte encodings, with the
  laws that decoding an encoding gives the address back.
- `kad` — a Kademlia routing table: buckets by depth, splitting of the last
  bucket, compaction, the cache of encoded addresses, and the key ranges of the
  buckets (`kad::laws` holds what adding and compacting keep).
- `leading_zero` — proof-of-work tokens: the first token, in counting order,
  whose hash starts with enough zero bits.
- `ping` — the handshake: how each datagram is answered.
- `id`, `time` — identifiers that grow with the millisecond clock.
- `key`, `crypt`, `doh` — hashing, signing, sealing and Z85 text, each a call into
  an outside crate behind a small trusted wrapper whose contract names the result.
- `kv`, `expire`, `kad_net` — the decisions of the peer store, of the sweep of
  expiring entries and of the routing-table upkeep loop; the store itself, the
  timers and the loop are driven by the program in `app/`.

`app/` is the program around the library: sockets, DNS over HTTPS, the database,
logging and the thread pool.
