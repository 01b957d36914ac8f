# quorvec

A distributed vector database: HNSW shards, a Raft metadata plane, and tunable-quorum
replication for the data plane. The library under `src/` holds the logic and is verified
with Verus; `app/` is the node around it (files, network, consensus, floating point).

- Vectors and indexes: `distance`, `hits`, `index`, `beam`, `graph`, `hnsw`, `builds`, with
  `queue` and `sort`.
- Storage: `codec`, `frame`, `hlc`, `wal`, `hints`, `snapshot`, `shard`.
- Cluster: `names`, `meta`, `placement`, `manager`, `raft`, `rebalance`.
- Data plane: `shards`, `transfer`, `router`, `guarantees`.
- Node: `config`, `args`, `service`, `store`, `text`.

A vector is held as the bit patterns of its `f32` components; distances come from a
kernel that the caller supplies and are compared by their rank (`distance::rank`); one that
is not a number is neither less nor more than any other.
Writes are staged, appended to the log by the caller, and then committed, so that the
library decides and the node performs the I/O.
