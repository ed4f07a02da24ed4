# ruchei

Utilities for working with many streams, with the logic behind them proved by Verus.

- `src/` is the verified library: the collections (a slab with intrusive lists, a radix tree
  over byte strings), the state machines that decide what the sorted-merge, grouping, echo,
  batching and extending adapters do next, the round-robin order of a dealer, the sent-count
  order of a buffered multicast, and the bookkeeping of event-driven tests. Each public function
  states its result in its `ensures`; the laws that tie several calls together are public proof
  functions next to the code they speak of.
- `app/` holds the asynchronous side: the `Stream`, `Sink` and `Future` impls that poll, pin and
  wake, and hand what they read to the library's state machines.
- `tests/` runs the library on concrete values.

## Design choices and limits

- `LinkedSlab` and the radix tree's node arena keep their own slots and free list instead of
  wrapping `slab::Slab`: they hold values of any type, and a contract over `Slab`'s contents can
  only be stated for a concrete value type. The event bookkeeping, whose entries have one
  concrete type, does use `slab::Slab` (and `multimap::MultiMap`) through specified wrappers.
- The radix tree keeps each node's edges in a `Vec` with distinct first bytes rather than in a
  `BTreeMap`; lookups and updates go by the first byte exactly as a map would.
- Sort and group keys are integers (`SortKey`, `KeyEq`), ranked into `int` so that every merge
  contract is stated over one total order; `ZipGroupSorted` gathers groups into a `Vec`.
- An insert into the radix tree that leaves an edge in the middle where the key and the edge
  agree again after a mismatch splits the edge at the wrong byte, which moves old values to
  other keys (`Trie::inserted` says where; `Trie::regular_insert` tells such an insert ahead);
  every other insert sets the key and leaves the rest as it was.
- Of an AVL tree only the balance bookkeeping of a rotation is here (`trie::avl`), proved
  against the heights of the moved subtrees; the node arena with parent links is not.
- The insertion-ordered key set in `app/` stays there: its keys are of any `Hash + Eq` type,
  and a contract over the contents of the outside `LinkedHashMap` can only be named for one
  concrete key type.
- Out of scope: collections of byte-string keys grouped by name (the traits
  in `trie::multi_trie` have no implementation here: they call for node handles that this
  `Trie` does not hand out), a lock-free wake list (raw pointers and atomics), and the stream
  adapters built on support code that is not part of this project (slab- and trie-based
  multicasts, keyed routing, liveness, read/write isolation, replies, latest-value).
