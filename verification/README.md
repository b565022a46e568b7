# os_exercises

A verified file descriptor table and the per-thread steps of a few
shared-state and channel exercises.

- `src/min_heap.rs`: array-backed binary min-heap of `usize` (push, pop,
  peek, bottom-up heapify); contracts over the multiset of held values and
  the exact storage order each operation leaves, plus laws over whole runs
  of pushes and pops.
- `src/fd_table.rs`: `FdTable`, which hands out the lowest unused descriptor
  number, reusing closed slots through the heap; contracts over the map from
  open descriptors to files, and laws relating `alloc_fd`, `get`, `close`
  and `count`, including `get` after any history of calls. `FdTable::new`
  builds a table of `dyn File`; `FdTable::empty` one of any file type.
- `src/counter.rs`: a thread's turn at a shared counter or collector, and an
  insertion sort.
- `src/messages.rs`: ticket numbers, decimal message text, the receiving
  step of a channel consumer, and lexicographic sorting of texts.
- `app/lib.rs`: the thread, mutex and channel plumbing that drives them.
