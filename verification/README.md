# raft_rs

A small Raft node written in Verus.

- `src/raft/storage.rs`: the `Storage` trait and `MemStorage`; a log is a
  sequence whose entry at each position carries that position as its index.
- `src/raft/logs.rs`: `Logs`, the replicated log (append, the follower side of
  `append_entries`, conflict search, batches, recency of logs, commit index).
- `src/rafts/state_machine.rs`: the `StateMachine` trait and the in-memory
  key-value machine.
- `src/rafts/raft.rs`: the election state of a node (rounds, heartbeat
  timeouts, elections, vote counting) and the majority match index.
- `src/rafts/args.rs`, `src/raft/rpc.rs`: RPC messages and HTTP peers.
- `src/cluster.rs`: ordering the cluster's addresses and numbering its nodes.
- `app/`: the server (command line, HTTP, timers, channels, MessagePack).
