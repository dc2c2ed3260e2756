# raft

The decision logic of a Raft peer, verified with Verus.

- `src/` is the verified library: the messages peers exchange
  (`messages`), the model of a peer and of each decision (`spec`), the peer
  itself (`peer`: answering RequestVote and AppendEntries, starting agreement,
  standing for and counting elections, reacting to heartbeat outcomes,
  building replication requests), the node that adds the election timer's
  state (`node`), the byte format of the persisted term and log (`persist`),
  the randomized election timeout (`timing`), and the properties proved of
  these decisions (`laws`): terms never decrease, a peer records one vote
  per term, leadership is only taken in the term stood for, replication
  installs the leader's entries, persisted state is restored. Election
  safety is proved over the vote records of a cluster's peers; that the
  votes a candidate counts came from those records is the network's part.
- `app/` runs a peer: timer threads, RPC threads and handlers. It asks the
  library what to do at each step and hands back what came of it.
- `tests/` exercises the library on concrete values.
