//! The queue: the operations run to their end, one after the other, on a memory of their own.
use crate::dequeue::Dequeue;
use crate::dequeue_batch::{filled_up, DequeueBatch, DequeueBatchStage};
use crate::enqueue::Enqueue;
use crate::enqueue_batch::EnqueueBatch;
use crate::laws::{batch_len, dequeued, dequeued_batch};
use crate::memory::Memory;
use crate::moves::Stake;
use crate::node::{InternalBatchRequest, Node};
use crate::solo::{
    alone_collect, alone_dequeue, alone_dequeue_batch, alone_enqueue, alone_enqueue_batch,
    batch_start, collect_ahead, collect_goes_on, dequeue_ahead, dequeue_batch_ahead, enqueue_ahead,
    enqueue_batch_ahead, enqueue_batch_goes_on, loaded, settled,
};
use crate::state::{succ, Access, State};
use crate::tag::marked;
use vstd::prelude::*;

verus! {

/// The number of items that a queue has addresses for.
pub const MAX_LEN: usize = usize::MAX / 2 - 1;

/// A queue of items, first in, first out. Its view is the sequence of the items in it, the oldest
/// one first. Items that are left in a queue when it is dropped are not dropped with it.
pub struct BQueue<T> {
    memory: Memory<T>,
}

/// There are only so many even addresses.
proof fn distinct_addresses(s: Seq<usize>)
    requires
        s.no_duplicates(),
        forall|i: int| 0 <= i < s.len() ==> (#[trigger] s[i]) != 0 && s[i] % 2 == 0,
    ensures
        s.len() <= MAX_LEN + 1,
{
    let places = s.map_values(|a: usize| a as int / 2);
    let range = vstd::set_lib::set_int_range(1, MAX_LEN + 2);
    assert forall|i: int, j: int|
        0 <= i < places.len() && 0 <= j < places.len() && i != j implies places[i] != places[j] by {
        assert(s[i] != s[j]);
    }
    places.unique_seq_to_set();
    vstd::set_lib::lemma_int_range(1, MAX_LEN + 2);
    assert forall|a: int| #[trigger] places.to_set().contains(a) implies range.contains(a) by {
        let i = places.index_of(a);
        assert(places[i] == a);
        assert(s[i] != 0);
    }
    vstd::set_lib::lemma_len_subset(places.to_set(), range);
}

impl<T> View for BQueue<T> {
    type V = Seq<T>;

    closed spec fn view(&self) -> Seq<T> {
        self.memory@.items()
    }
}

impl<T> BQueue<T> where T: Send + Sync {
    /// What holds of a queue between any two operations.
    pub closed spec fn wf(&self) -> bool {
        settled(self.memory@)
    }

    /// The memory that the queue is laid out in.
    pub closed spec fn shared(&self) -> State<T> {
        self.memory@
    }

    /// How a queue is laid out between any two operations. A node stands in the head, and no
    /// announcement. The list starts with that node, follows the links without coming back to a
    /// node, and ends at the tail, which nothing follows. The items are those of the nodes behind
    /// the head, and there are at most as many as there are addresses for.
    pub proof fn layout(&self)
        requires
            self.wf(),
        ensures
            self@.len() <= MAX_LEN,
            self.shared().wf(),
            self.shared().head != 0,
            !marked(self.shared().head),
            self.shared().chain.len() == self@.len() + 1,
            self.shared().chain.no_duplicates(),
            self.shared().chain[0] == self.shared().head,
            self.shared().chain.last() == self.shared().tail,
            self.shared().node(self.shared().tail).next == 0,
            forall|i: int|
                0 <= i < self@.len() ==> (#[trigger] self.shared().node(
                    self.shared().chain[i],
                )).next == self.shared().chain[i + 1],
            forall|i: int|
                0 < i <= self@.len() ==> (#[trigger] self.shared().node(
                    self.shared().chain[i],
                )).item == Some(self@[i - 1]),
            self.shared().drafts.is_empty(),
            self.shared().anns.len() == 0,
            self.shared().retired.len() == 0,
            self.shared().retired_anns.len() == 0,
    {
        let s = self.memory@;
        s.places();
        s.follows(s.tail);
        assert forall|i: int| 0 < i <= self@.len() implies (#[trigger] s.node(s.chain[i])).item
            == Some(self@[i - 1]) by {
            assert(s.chain.skip(1)[i - 1] == s.chain[i]);
            assert(s.node(s.chain[i]).item is Some);
        }
        assert forall|i: int| 0 <= i < self@.len() implies (#[trigger] s.node(s.chain[i])).next
            == s.chain[i + 1] by {
            assert(s.node(s.chain[i]).next == succ(s.chain, i));
        }
        distinct_addresses(s.chain);
    }

    /// An empty queue.
    pub fn new() -> (q: Self)
        ensures
            q.wf(),
            q@ == Seq::<T>::empty(),
            q.shared() == State::<T>::initial(),
    {
        proof {
            State::<T>::initial_in_order();
        }
        BQueue { memory: Memory::new() }
    }

    /// Builds a node with `item` and adds it to the list. The tail moves to that node; the head
    /// stays.
    fn enqueue_to_shared(&mut self, item: T)
        requires
            old(self).wf(),
            old(self)@.len() < MAX_LEN,
        ensures
            final(self).wf(),
            final(self)@ == old(self)@.push(item),
            ({
                let s0 = old(self).memory@;
                let s = final(self).memory@;
                let node = s0.fresh();
                &&& s.head == s0.head
                &&& s.tail == node
                &&& s.chain == s0.chain.push(node)
                &&& s == s0.built(item).after(
                    Access::CasNext { node: s0.tail, new: node },
                ).after(Access::CasTail { current: s0.tail, new: node })
            }),
    {
        let ghost before = self.memory@;
        proof {
            before.places();
            before.node_appears(item, Stake::none());
        }
        let node = self.memory.build(item);
        let ghost start = self.memory@;
        let mut op = Enqueue::new(node);
        while !op.is_done()
            invariant
                settled(before),
                start == before.built(item),
                start.wf(),
                node == before.fresh(),
                start.items() == before.items(),
                start.node(node).item == Some(item),
                op.node == node,
                op.inv(self.memory@),
                self.memory@.wf(),
                alone_enqueue(start, self.memory@, op),
                self.memory@.items() == if op.linked() {
                    before.items().push(item)
                } else {
                    before.items()
                },
            decreases enqueue_ahead(op),
        {
            proof {
                let s = self.memory@;
                op.step(s);
                s.places();
                s.follows(s.tail);
            }
            let seen = self.memory.perform(op.access());
            op = op.next(seen);
        }
        proof {
            let s = self.memory@;
            start.places();
            start.follows(start.tail);
            start.places_stay(s);
            assert(s.chain == before.chain + seq![node]);
            assert(s.drafts =~= Map::empty());
        }
    }

    /// Moves the head over the first node behind it, and takes the item out of that node. The node
    /// that the head leaves behind is freed, and no other; the tail stays. Nothing changes if there
    /// is no node behind the head.
    fn dequeue_from_shared(&mut self) -> (item: Option<T>)
        requires
            old(self).wf(),
        ensures
            final(self).wf(),
            dequeued(old(self)@, item, final(self)@),
            final(self).memory@.tail == old(self).memory@.tail,
            item is Some ==> {
                let s0 = old(self).memory@;
                let s = final(self).memory@;
                &&& s.head == s0.chain[1]
                &&& s.head == s0.node(s0.head).next
                &&& s.chain == s0.chain.skip(1)
                &&& s.free == s0.free.push(s0.head)
                &&& s == s0.after(Access::CasHead { current: s0.head, new: s.head }).after(
                    Access::Retire { node: s0.head },
                ).after(Access::TakeItem { node: s.head }).reclaimed()
            },
            item is None ==> final(self).memory@ == old(self).memory@,
    {
        let ghost start = self.memory@;
        let mut op = Dequeue::new();
        while !op.is_over()
            invariant
                settled(start),
                self.memory@.wf(),
                op.inv(self.memory@),
                !(op is Taken),
                alone_dequeue(start, self.memory@, op),
                op is Empty ==> start.items().len() == 0,
                op is Retire || op is Take ==> {
                    &&& start.items().len() > 0
                    &&& op.due(self.memory@) == start.items().take(1)
                    &&& self.memory@.items() == start.items().skip(1)
                },
            decreases dequeue_ahead(op),
        {
            proof {
                let s = self.memory@;
                op.step(s);
                s.places();
                s.follows(start.head);
            }
            let seen = self.memory.perform(op.access());
            op = op.next(seen);
        }
        match op {
            Dequeue::Take { node } => {
                proof {
                    let s = self.memory@;
                    op.step(s);
                    start.places();
                    start.follows(start.head);
                    s.places();
                    assert(op.due(s)[0] == s.node(node).item->0);
                    crate::moves::put_facts(s.nodes, node, Node { item: None, ..s.node(node) });
                }
                let item = self.memory.take_item(node);
                proof {
                    let s = self.memory@;
                    s.places();
                    s.memory_reclaimed();
                }
                self.memory.reclaim();
                proof {
                    let s = self.memory@;
                    assert(s.chain == start.chain.skip(1));
                    assert(s.free =~= start.free.push(start.head));
                }
                item
            },
            _ => None,
        }
    }

    /// Announces the list that `batch_req` describes and carries the announcement out. Hands back
    /// the node that stood in the head, which stands there again afterwards; the tail moves to the
    /// end of the list.
    fn execute_enqs_batch(&mut self, batch_req: InternalBatchRequest) -> (original_head: usize)
        requires
            old(self).memory@.drafts.contains_key(batch_req.first_enq),
            ({
                let s = old(self).memory@;
                let d = s.drafts[batch_req.first_enq];
                &&& d.last() == batch_req.last_enq
                &&& d.len() == batch_req.enqs_num
                &&& exists|s0: State<T>| settled(s0) && loaded(s0, s, d)
            }),
        ensures
            final(self).wf(),
            final(self)@ == old(self)@ + old(self).memory@.items_of(
                old(self).memory@.drafts[batch_req.first_enq],
            ),
            original_head == old(self).memory@.head,
            final(self).memory@.head == old(self).memory@.head,
            final(self).memory@.tail == batch_req.last_enq,
            final(self).memory@.chain == old(self).memory@.chain
                + old(self).memory@.drafts[batch_req.first_enq],
            final(self).memory@.free == old(self).memory@.free,
            ({
                let s0 = old(self).memory@;
                let s = final(self).memory@;
                &&& s.node(s.tail).count == s0.node(s0.tail).count.wrapping_add(batch_req.enqs_num)
                &&& forall|i: int|
                    0 <= i < s0.chain.len() ==> (#[trigger] s.node(s0.chain[i])).count == s0.node(
                        s0.chain[i],
                    ).count
            }),
    {
        let ghost before = self.memory@;
        let ghost d = before.drafts[batch_req.first_enq];
        let ghost mine = Stake { drafts: set![batch_req.first_enq], ..Stake::none() };
        proof {
            assert(before.draft_ok(batch_req.first_enq));
            before.ann_appears(batch_req, mine);
        }
        let ann = self.memory.announce(batch_req);
        let ghost start = self.memory@;
        assert(start.items_of(d) =~= before.items_of(d));
        let mut op = EnqueueBatch::new(ann);
        while !op.is_done()
            invariant
                batch_start(start, ann, d),
                op.ann == ann,
                self.memory@.wf(),
                op.inv(self.memory@),
                alone_enqueue_batch(start, self.memory@, op, d),
            decreases enqueue_batch_ahead(op),
        {
            proof {
                enqueue_batch_goes_on(start, self.memory@, op, d);
                op.step(self.memory@);
            }
            let seen = self.memory.perform(op.access());
            op = op.next(seen);
        }
        proof {
            let s = self.memory@;
            start.places();
            s.places();
            assert(s.chain[0] == start.chain[0]);
            assert(s.chain.last() == d.last());
            assert(s.pos(s.chain[s.chain.len() - 1]) == s.chain.len() - 1);
            s.memory_reclaimed();
        }
        let original_head = op.old_head();
        self.memory.reclaim();
        proof {
            assert(self.memory@.free =~= before.free);
        }
        original_head
    }

    /// Moves the head over as many nodes as there are, but at most `num_deqs_requested`. Hands back
    /// the node that stood in the head and the number of nodes. The list stays as it is, with the
    /// items in it, so that they can be collected from the nodes behind the one handed back; nothing
    /// is retired, and the tail stays.
    fn execute_deqs_batch(&mut self, num_deqs_requested: usize) -> (moved: (usize, usize))
        requires
            old(self).wf(),
        ensures
            final(self).memory@.wf(),
            moved.1 == batch_len(old(self)@.len(), num_deqs_requested as nat),
            moved.0 == old(self).memory@.head,
            final(self)@ == old(self)@.skip(moved.1 as int),
            ({
                let s0 = old(self).memory@;
                let s = final(self).memory@;
                let op = DequeueBatch {
                    max: num_deqs_requested,
                    at: DequeueBatchStage::Next { node: moved.0, left: moved.1 },
                };
                &&& s.head == s0.chain[moved.1 as int]
                &&& s.tail == s0.tail
                &&& s.chain == s0.chain
                &&& s.retired == s0.retired
                &&& s.free == s0.free
                &&& forall|i: int|
                    1 <= i <= moved.1 ==> (#[trigger] s.node(s.chain[i])).item == Some(
                        s0.items()[i - 1],
                    )
                &&& moved.1 > 0 ==> s.node(s.head).count == s0.node(s0.head).count.wrapping_add(
                    moved.1,
                )
                &&& moved.1 > 0 ==> op.inv(s) && alone_dequeue_batch(s0, s, op)
                &&& moved.1 == 0 ==> s == s0
            }),
    {
        let ghost start = self.memory@;
        let mut op = DequeueBatch::new(num_deqs_requested);
        while !op.has_moved()
            invariant
                settled(start),
                op.max == num_deqs_requested,
                self.memory@.wf(),
                op.inv(self.memory@),
                alone_dequeue_batch(start, self.memory@, op),
            decreases dequeue_batch_ahead(op),
        {
            proof {
                let s = self.memory@;
                op.step(s);
                start.places();
                s.places();
                match op.at {
                    DequeueBatchStage::Walk { start: from, count, node, num } => {
                        s.follows(node);
                    },
                    DequeueBatchStage::SetCount { start: from, count, node, num } => {
                        crate::moves::put_facts(
                            s.nodes,
                            node,
                            Node { count, ..s.node(node) },
                        );
                    },
                    _ => {},
                }
            }
            let seen = self.memory.perform(op.access());
            op = op.next(seen);
        }
        match op.at {
            DequeueBatchStage::Next { node, left } => {
                proof {
                    let s = self.memory@;
                    start.places();
                    s.places();
                    assert forall|i: int| 1 <= i <= left implies (#[trigger] s.node(
                        s.chain[i],
                    )).item == Some(start.items()[i - 1]) by {
                        assert(op.due(s)[i - 1] == s.node(s.chain[i]).item->0);
                        assert(s.node(s.chain[i]).item is Some);
                    }
                }
                (node, left)
            },
            _ => {
                let head = self.memory.perform(Access::LoadHead);
                (head, 0)
            },
        }
    }

    /// Adds `item` to the end of the queue: a node with it is built and linked behind the last one,
    /// and the tail moves to it. Nothing else changes.
    pub fn enqueue(&mut self, item: T)
        requires
            old(self).wf(),
            old(self)@.len() < MAX_LEN,
        ensures
            final(self).wf(),
            final(self)@ == old(self)@.push(item),
            ({
                let s0 = old(self).shared();
                let s = final(self).shared();
                let node = s0.fresh();
                &&& s.head == s0.head
                &&& s.tail == node
                &&& s.chain == s0.chain.push(node)
                &&& s == s0.built(item).after(
                    Access::CasNext { node: s0.tail, new: node },
                ).after(Access::CasTail { current: s0.tail, new: node })
            }),
    {
        self.enqueue_to_shared(item);
    }

    /// Takes the oldest item out of the queue, if there is one. The node that the head leaves behind
    /// is freed, and no other; the tail stays. Nothing changes if the queue is empty.
    pub fn dequeue(&mut self) -> (item: Option<T>)
        requires
            old(self).wf(),
        ensures
            final(self).wf(),
            dequeued(old(self)@, item, final(self)@),
            final(self).shared().tail == old(self).shared().tail,
            item is Some ==> {
                let s0 = old(self).shared();
                let s = final(self).shared();
                &&& s.head == s0.chain[1]
                &&& s.head == s0.node(s0.head).next
                &&& s.chain == s0.chain.skip(1)
                &&& s.free == s0.free.push(s0.head)
                &&& s == s0.after(Access::CasHead { current: s0.head, new: s.head }).after(
                    Access::Retire { node: s0.head },
                ).after(Access::TakeItem { node: s.head }).reclaimed()
            },
            item is None ==> final(self).shared() == old(self).shared(),
    {
        self.dequeue_from_shared()
    }

    /// Adds `items` to the end of the queue, in their order. The head stays, and the tail moves to
    /// the last of the new nodes, whose count is that of the node that was at the tail and the
    /// number of items on top. Nothing changes if there are no items.
    #[verifier::rlimit(30)]
    pub fn enqueue_batch(&mut self, items: Vec<T>)
        requires
            old(self).wf(),
            old(self)@.len() + items@.len() <= MAX_LEN,
        ensures
            final(self).wf(),
            final(self)@ == old(self)@ + items@,
            items@.len() == 0 ==> final(self).shared() == old(self).shared(),
            ({
                let s0 = old(self).shared();
                let s = final(self).shared();
                &&& s.head == s0.head
                &&& s0.chain.is_prefix_of(s.chain)
                &&& s.tail == s.chain.last()
                &&& s.free == s0.free.take(
                    if items@.len() < s0.free.len() {
                        s0.free.len() - items@.len()
                    } else {
                        0
                    },
                )
                &&& items@.len() > 0 ==> s.node(s.tail).count == s0.node(
                    s0.tail,
                ).count.wrapping_add(items@.len() as usize)
                &&& forall|i: int|
                    0 <= i < s0.chain.len() ==> (#[trigger] s.node(s0.chain[i])).count == s0.node(
                        s0.chain[i],
                    ).count
            }),
    {
        let ghost before = self.memory@;
        let ghost all = items@;
        let mut batch_req = InternalBatchRequest::empty();
        let ghost mut d: Seq<usize> = Seq::empty();
        assert(before.free.take(before.free.len() as int) =~= before.free);
        for item in it: items
            invariant
                settled(before),
                it.seq() == all,
                before.items().len() + all.len() <= MAX_LEN,
                batch_req.enqs_num == it.index(),
                d.len() == batch_req.enqs_num,
                loaded(before, self.memory@, d),
                self.memory@.items_of(d) == all.take(it.index() as int),
                d.len() == 0 ==> self.memory@ == before,
                d.len() == 0 <==> batch_req.first_enq == 0,
                d.len() > 0 ==> batch_req.first_enq == d[0] && batch_req.last_enq == d.last(),
        {
            proof {
                let s = self.memory@;
                before.places();
                s.places();
                s.node_appears(item, Stake::none());
            }
            let ghost loose = self.memory@;
            let new_node = self.memory.build(item);
            let ghost built = self.memory@;
            let ghost e = d;
            let behind = batch_req.append(new_node);
            proof {
                d = d.push(new_node);
            }
            if behind != 0 {
                proof {
                    let mine = Stake {
                        drafts: set![batch_req.first_enq, new_node],
                        ..Stake::none()
                    };
                    assert(built.drafts.contains_key(batch_req.first_enq));
                    assert(built.draft_ok(batch_req.first_enq));
                    built.lists_join(batch_req.first_enq, behind, new_node, mine);
                }
                self.memory.join(batch_req.first_enq, behind, new_node);
            }
            proof {
                let s = self.memory@;
                assert(built.items_of(seq![new_node]) =~= seq![item]);
                if d.len() > 1 {
                    assert(loose.drafts.contains_key(e[0]) && loose.drafts[e[0]] == e);
                    assert(loose.draft_ok(e[0]));
                    assert forall|i: int| 0 <= i < e.len() implies built.node(#[trigger] e[i])
                        == loose.node(e[i]) by {
                        assert(loose.is_node(e[i]));
                        if loose.free.len() > 0 {
                            assert(e[i] != loose.free[loose.free.len() - 1]);
                        }
                    }
                    assert(built.items_of(e) =~= loose.items_of(e));
                    assert(d =~= built.drafts[batch_req.first_enq] + built.drafts[new_node]);
                } else {
                    assert(d =~= seq![new_node]);
                }
                assert(s.drafts =~= Map::<usize, Seq<usize>>::empty().insert(d[0], d));
                assert(s.items_of(d) =~= all.take(batch_req.enqs_num as int));
                assert(s.free =~= before.free.take(
                    if d.len() < before.free.len() {
                        before.free.len() - d.len()
                    } else {
                        0
                    },
                ));
                assert forall|i: int| 0 <= i < before.chain.len() implies (#[trigger] s.node(
                    before.chain[i],
                )).count == before.node(before.chain[i]).count by {
                    let a = before.chain[i];
                    assert(loose.is_node(loose.chain[i]));
                    assert(loose.chain[i] != new_node);
                    assert(built.node(a) == loose.node(a));
                }
            }
        }
        if batch_req.enqs_num == 0 {
            proof {
                assert(self.memory@.items() + all =~= self.memory@.items());
            }
            return;
        }
        let _ = self.execute_enqs_batch(batch_req);
    }

    /// Takes the oldest items out of the queue, at most `max_count` of them. What is handed back has
    /// `max_count` entries: first the items, in their order, then `None` for each one that was not
    /// there. The nodes that the head leaves behind are freed, each once, and no others; the count
    /// of the node that is then in the head is that of the one before and the number of items on
    /// top.
    pub fn dequeue_batch(&mut self, max_count: usize) -> (results: Vec<Option<T>>)
        requires
            old(self).wf(),
        ensures
            final(self).wf(),
            dequeued_batch(old(self)@, max_count as nat, results@, final(self)@),
            ({
                let s0 = old(self).shared();
                let s = final(self).shared();
                let num = batch_len(old(self)@.len(), max_count as nat) as int;
                &&& s.head == s0.chain[num]
                &&& s.tail == s0.tail
                &&& s.chain == s0.chain.skip(num)
                &&& s.free == s0.free + s0.chain.subrange(0, num)
                &&& num > 0 ==> s.node(s.head).count == s0.node(s0.head).count.wrapping_add(
                    num as usize,
                )
                &&& forall|i: int|
                    num < i < s0.chain.len() ==> (#[trigger] s.node(s0.chain[i])).count == s0.node(
                        s0.chain[i],
                    ).count
                &&& num == 0 ==> s == s0
            }),
    {
        let mut results: Vec<Option<T>> = Vec::new();
        if max_count == 0 {
            assert(self@.skip(0) =~= self@);
            return results;
        }
        let ghost start = self.memory@;
        let (original_head, success_count) = self.execute_deqs_batch(max_count);
        if success_count == 0 {
            assert(self@.skip(0) =~= self@);
        } else {
            let mut op = DequeueBatch::collecting(max_count, original_head, success_count);
            proof {
                start.places();
                assert(start.retired =~= start.chain.subrange(0, 0));
                assert(start.items().take(success_count as int) =~= start.items().subrange(
                    0,
                    success_count as int,
                ));
            }
            while !op.is_done()
                invariant
                    settled(start),
                    self.memory@.wf(),
                    op.inv(self.memory@),
                    alone_collect(
                        start,
                        self.memory@,
                        op,
                        success_count as int,
                        results@.len() as int,
                    ),
                    forall|i: int|
                        0 <= i < results@.len() ==> #[trigger] results@[i] == Some(
                            start.items()[i],
                        ),
                decreases collect_ahead(op),
            {
                proof {
                    let s = self.memory@;
                    op.step(s);
                    collect_goes_on(start, s, op, success_count as int, results@.len() as int);
                    s.places();
                }
                match op.at {
                    DequeueBatchStage::Take { next, .. } => {
                        let item = self.memory.take_item(next);
                        results.push(item);
                        op = op.next(0);
                    },
                    _ => {
                        let seen = self.memory.perform(op.access());
                        op = op.next(seen);
                    },
                }
            }
            proof {
                let s = self.memory@;
                start.places();
                s.places();
                assert(s.pos(s.chain[s.chain.len() - 1]) == s.chain.len() - 1);
                s.memory_reclaimed();
            }
            self.memory.reclaim();
        }
        filled_up(results, max_count)
    }
}

} // verus!
