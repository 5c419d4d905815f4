# bqueue

A first-in, first-out queue with single and batch operations, kept as a linked list that threads
share without locks. A batch is added by way of an announcement: its marked address takes the place
of the node in the head of the queue, and whoever comes across it helps to carry it out.

* `src/` is the verified library. Each operation is a sequence of accesses to shared memory; the
  library decides, from what an access observed, which one comes next
  (`enqueue.rs`, `dequeue.rs`, `enqueue_batch.rs`, `dequeue_batch.rs`, and beneath them
  `help_head.rs` and `execute_ann.rs`).
  * `state.rs` says what the memory is and what each access does to it; `moves.rs` shows, change by
    change, that it stays in order.
  * `interleaving.rs` lets the accesses of any number of operations interleave. As long as none of
    them comes late to an announcement that others have carried out already, the memory stays in
    order, the queue is first in, first out, and every operation hands out what it removed.
    No access comes late as long as no thread helps with the announcement of another.
  * `lists.rs` shows that what enters the queue then are whole lists, single nodes and announced
    batches, each as it was built and each once.
  * `threads.rs` shows that threads which each add a list of items leave an interleaving of the
    lists in the queue.
  * `helping.rs` shows that one thread on its own carries out an announcement that was left in the
    head, in a bounded number of accesses, and `outcomes.rs` what each operation comes to on its
    own, also where others have stopped half way: with the tail behind the end of the list, or with
    an announcement in the head. Left out is a tail that has got past the node before a batch that
    is linked and not recorded as linked.
  * `memory.rs` is the memory as a value, and `queue.rs` runs the operations on it one after the
    other: `BQueue`, whose view is the sequence of its items. `laws.rs` says what follows for
    several operations in a row.
* `app/` is the queue for threads: it makes the accesses that the library calls for, on nodes that
  are shared between threads, with atomic instructions and the hazard pointers of the `haphazard`
  crate.
* `tests/` runs the queue, and runs operations against each other access by access.

Items that are left in a queue when it is dropped are not dropped, in `src/` as in `app/`: an item
is either taken out or stays undropped.

Accesses are taken to happen one at a time, each at a single moment. When a node that was handed
over to be freed is in fact freed is up to `haphazard`.
