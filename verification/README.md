# refer

Building blocks for graphs made out of structs: keys that identify items,
containers that store them, collections that keep the references between
items consistent, and the orders in which a graph of items can be visited.
The library under `src/` is written in Verus: its functions carry contracts
wherever there is something to state (marker types, traits for users to
implement and type identifiers carry none), and the properties the library is
built on are stated and proved as lemmas next to the code they are about.

## Layout

- `src/key.rs`: indices, keys with prefixes, and their arithmetic.
- `src/collection.rs`: a collection of items whose shells record, for each
  item, which items reference it; adding, replacing and removing items keep
  those records exact, and removal cascades to the items that cannot outlive
  what they reference.
- `src/container.rs`, `src/table.rs`, `src/bits.rs`: containers of slots,
  among them tables with a bitmap of taken slots kept in a `bitvec` vector.
- `src/mini_alloc.rs`: the block bookkeeping of a small allocator: free lists
  per block size, slicing, coalescing, the count of bytes taken, and a ghost
  record of the blocks lent out, over which no two blocks, free or lent, share
  a byte.
- `src/error.rs`: errors of collections and their messages.
- `src/order.rs`, `src/radix.rs`, `src/visit.rs`, `src/process.rs`,
  `src/isolate.rs`: visit orders (depth, breadth, forward, topological on a
  `radix-heap` queue) and the engine of a visit over groups of nodes.
- `src/permit.rs`, `src/edge.rs`, `src/entity.rs`, `src/any_ref.rs`,
  `src/inline_shell.rs`, `src/graph_item.rs`: access permits, edges,
  references and shells.
- `tests/`: tests of the library, run against the compiled crate.
- `app/`: the allocator as a running allocator over the system allocator,
  behind a lock, and a copy of the error type that displays its message.
