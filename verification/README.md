# zoop_skiplist

A lazy concurrent skiplist in the style of Heller, Herlihy, Luchangco and Moir:
fine-grained locks, optimistic traversal, validation after the locks have been
taken, and marking of removed nodes. What the operations do is stated in contracts
and proved by Verus.

- `src/skiplist.rs`: the list and its operations.
- `src/search.rs`: the search for a position, one pointer at a time.
- `src/concurrent.rs`: insertions and removals that overlap in time, one lock, one
  pointer or one mark at a time; `src/flights.rs`: what they promise each other;
  `src/history.rs`: what has been decided, in order.
- `src/operation.rs`: the search, the change, and both again while the position is
  stale or the wait for a lock too long.
- `src/walk.rs`: walks over a list that is changed between their steps;
  `src/presence.rs`: searches there find what stays.
- `src/shape.rs`, `src/towers.rs`: the invariant of the list and its proofs.
- `src/order.rs`: total orders, keys, and ascending sequences.
- `src/laws.rs`: what holds across operations.
- `src/spinlock.rs`: the word of a lock and the rules of waiting for it.
- `src/rng.rs`: random words and the tower heights that they give.
- `src/comparison.rs`: equality, order and hashing that may vary at runtime.
- `app/`: the list shared between threads, with an atomic spinlock and a
  thread-local generator. It is not verified.

The model of a list is the ascending sequence of its elements (`list@`). Every
operation requires that the order of the elements is total (`total_order`), and
that keys order as their elements do (`key_order`). An insertion or removal that
overlaps with others takes effect at one of its steps, the one that decides: there
the model changes as it would by the whole operation.
