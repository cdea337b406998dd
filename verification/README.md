# easy_map

A hash map with chaining: a fixed number of buckets, each the head of a singly
linked list of nodes. The library is written in Verus.

- `src/chain.rs`: the model of one bucket (a sequence of entries, head first) and its laws.
- `src/lib.rs`: `Node`, `EasyMap` and its iterator `Iter`, with their contracts.
- `src/node_wrapper.rs`: `NodeWrapper`, the node that `insert` and `remove` hand back.
- `src/hashing.rs`: the `ahash` hasher that picks a key's bucket.
- `src/laws.rs`: what the bucket operations amount to for the map as a whole.
- `app/lib.rs`: `print_state`, which prints the buckets and their chains.
