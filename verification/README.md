# arctic

Ordered maps in adaptive radix trees. Keys are walked byte by byte; a node has
three, fifteen, forty-seven or 256 slots, depending on how many children it
has, and bytes without a choice are kept on edges. An edge holds a few bytes
itself or, where keys are borrowed, refers to the key that it came from.

- `SequentialMap` is owned by one thread. It offers point operations, entries,
  and scans by prefix and by range, in both directions.
- `ConcurrentMap` keeps the same contents, and hands removed values to a backend
  for safe memory reclamation.
- `concurrent::operation` and `concurrent::scan` hold the operations on shared
  memory. Each is a state machine that makes one atomic access per step, so that
  the steps of any number of operations can be interleaved. A lookup and a scan
  end whatever others do, and any other operation ends once it runs alone; two
  insertions that reserve slots of one node in turn can hinder each other for as
  long as they are scheduled so. A node that an operation reports for retirement
  has left the tree for good.
- `concurrent::run` holds operations that run from their start to their end. A
  removal leaves no node without a child behind.
- `concurrent::protect` states which retired nodes and values a registered
  operation keeps from being freed, and `concurrent::events` which events an
  operation reports to the statistics of `stat`.
- `topology` describes a tree without pointers, so that it can be stored and
  restored exactly.

Verus proves the contracts of the functions in `src/`. A few calls into other
crates have contracts that are taken on trust; each says so where it stands. The
contents of a map are a mathematical map from byte sequences to values, and of a
tree in shared memory the sequence of all the maps that it has been.

`app/` holds what needs threads, iterators or raw pointers.
