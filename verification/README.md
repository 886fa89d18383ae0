# jostletree

Two balanced trees, verified with Verus.

* `JostleTree<N, T>` models a sequence of items of varying widths ("spans")
  packed end to end. Items can be inserted at an offset, at the front or at
  the back, resized (every later item moves), removed, and looked up by the
  offset that they cover, all in logarithmic time. A `SlotHandle` gives access
  to one slot; `JostleTreeIter` walks the slots in order.
* `AVLTree<T>` is an ordered set with insertion, removal, membership and
  in-order iteration.

Layout of `src/`:

* `numeric.rs` – the `Numeric` trait of span types (the integer types; spans
  are never negative, offsets may be).
* `spans.rs` – the mathematical model of a slot sequence (span sums, where an
  offset falls, where a slot starts) and its laws.
* `branch.rs` – the nodes of a jostle tree: rotations, rebalancing, and the
  recursive insert, remove, lookup and resize operations.
* `jostletree.rs` – `JostleTree`, `SlotHandle`, `JostleTreeIter`.
* `hashing.rs` – the one call into `Hash::hash`, used by both trees' `Hash`.
* `order.rs` – what a lawful `Ord` gives, and sorted sequences.
* `avltree.rs` – `AVLTree` and `AVLTreeIter`.

`app/` renders both trees as text.
