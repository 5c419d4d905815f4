//! Operations that have the memory to themselves: how far each has come, by what has become of the
//! memory, and how far it has still to go.
use crate::dequeue::Dequeue;
use crate::dequeue_batch::{DequeueBatch, DequeueBatchStage};
use crate::enqueue::{Enqueue, EnqueueStage};
use crate::enqueue_batch::{EnqueueBatch, EnqueueBatchStage};
use crate::execute_ann::{AnnStage, ExecuteAnn};
use crate::help_head::HelpHead;
use crate::laws::batch_len;
use crate::moves::{put_facts, Stake};
use crate::node::{Ann, Node};
use crate::state::{Access, State};
use crate::tag::{mark, marked};
use vstd::prelude::*;

verus! {

/// No operation is under way on `s`, and nothing is left over from earlier ones.
pub open spec fn settled<T>(s: State<T>) -> bool {
    &&& s.wf()
    &&& !marked(s.head)
    &&& s.hpos() == 0
    &&& s.tail == s.chain.last()
    &&& s.drafts == Map::<usize, Seq<usize>>::empty()
    &&& s.anns.len() == 0
    &&& s.retired.len() == 0
    &&& s.retired_anns.len() == 0
    &&& s.nodes.len() == s.chain.len() + s.free.len()
}

/// The single thread that adds a node has come this far since the memory was `s0`.
pub open spec fn alone_enqueue<T>(s0: State<T>, s: State<T>, op: Enqueue) -> bool {
    let linked = s0.after(Access::CasNext { node: s0.tail, new: op.node });
    match op.at {
        EnqueueStage::Tail => s == s0,
        EnqueueStage::Link { tail } => s == s0 && tail == s0.tail,
        EnqueueStage::SwingTail { tail } => s == linked && tail == s0.tail,
        EnqueueStage::Done => s == linked.after(
            Access::CasTail { current: s0.tail, new: op.node },
        ),
        _ => false,
    }
}

/// How many accesses the single thread that adds a node has still to make.
pub open spec fn enqueue_ahead(op: Enqueue) -> int {
    match op.at {
        EnqueueStage::Tail => 3,
        EnqueueStage::Link { tail } => 2,
        EnqueueStage::SwingTail { tail } => 1,
        _ => 0,
    }
}

/// The single thread that looks for the node in the head has come this far.
pub open spec fn alone_help<T>(s: State<T>, help: HelpHead) -> bool {
    match help {
        HelpHead::Load => true,
        HelpHead::Confirm { word } => word == s.head,
        HelpHead::Help { run } => false,
        HelpHead::Done { node } => node == s.head,
    }
}

/// How many accesses the single thread that looks for the node in the head has still to make.
pub open spec fn help_ahead(help: HelpHead) -> int {
    match help {
        HelpHead::Load => 2,
        HelpHead::Confirm { word } => 1,
        _ => 0,
    }
}

/// The single thread that takes an item has come this far since the memory was `s0`.
pub open spec fn alone_dequeue<T>(s0: State<T>, s: State<T>, op: Dequeue) -> bool {
    let advanced = s0.after(Access::CasHead { current: s0.head, new: s0.node(s0.head).next });
    match op {
        Dequeue::Help { help } => s == s0 && alone_help(s, help),
        Dequeue::Next { head } => s == s0 && head == s0.head,
        Dequeue::Again { head, next } => s == s0 && head == s0.head,
        Dequeue::Advance { head, next, node } => s == s0 && head == s0.head,
        Dequeue::Retire { head, node } => s == advanced && head == s0.head && node == s.head,
        Dequeue::Take { node } => s == advanced.after(Access::Retire { node: s0.head }) && node
            == s.head,
        Dequeue::Taken => false,
        Dequeue::Empty => s == s0,
    }
}

/// How many accesses the single thread that takes an item has still to make.
pub open spec fn dequeue_ahead(op: Dequeue) -> int {
    match op {
        Dequeue::Help { help } => 6 + help_ahead(help),
        Dequeue::Next { head } => 5,
        Dequeue::Again { head, next } => 4,
        Dequeue::Advance { head, next, node } => 3,
        Dequeue::Retire { head, node } => 2,
        Dequeue::Take { node } => 1,
        _ => 0,
    }
}

/// The list `d` has been built since the memory was `s0`, and nothing else has changed.
pub open spec fn loaded<T>(s0: State<T>, s: State<T>, d: Seq<usize>) -> bool {
    &&& s.wf()
    &&& s.head == s0.head
    &&& s.tail == s0.tail
    &&& s.chain == s0.chain
    &&& s.anns == s0.anns
    &&& s.retired == s0.retired
    &&& s.retired_anns == s0.retired_anns
    &&& s.published == s0.published
    &&& s.drafts == if d.len() == 0 {
        Map::<usize, Seq<usize>>::empty()
    } else {
        Map::<usize, Seq<usize>>::empty().insert(d[0], d)
    }
    &&& s.nodes.len() == s.chain.len() + d.len() + s.free.len()
    &&& s.items() == s0.items()
    &&& s.free == s0.free.take(
        if d.len() < s0.free.len() {
            s0.free.len() - d.len()
        } else {
            0
        },
    )
    &&& forall|i: int|
        0 <= i < s0.chain.len() ==> (#[trigger] s.node(s0.chain[i])).count == s0.node(
            s0.chain[i],
        ).count
}

/// The batch is not linked yet and the list is as it was when the memory was `s0`.
pub open spec fn batch_waits<T>(s0: State<T>, s: State<T>) -> bool {
    &&& s.nodes == s0.nodes
    &&& s.chain == s0.chain
    &&& s.tail == s0.tail
    &&& s.drafts == s0.drafts
    &&& s.items() == s0.items()
}

/// The batch `d` has been linked since the memory was `s0`.
pub open spec fn batch_linked<T>(s0: State<T>, s: State<T>, d: Seq<usize>) -> bool {
    &&& s.nodes.len() == s0.nodes.len()
    &&& s.chain == s0.chain + d
    &&& s.drafts == Map::<usize, Seq<usize>>::empty()
    &&& s.items() == s0.items() + s0.items_of(d)
    &&& forall|i: int|
        0 <= i < s0.chain.len() ==> (#[trigger] s.node(s0.chain[i])).count == s0.node(
            s0.chain[i],
        ).count
}

/// The tail is at the end of the batch `d`, and the count there is that of the node that was at the
/// tail when the memory was `s0`, with the length of the batch on top.
pub open spec fn batch_counted<T>(s0: State<T>, s: State<T>, ann: usize, d: Seq<usize>) -> bool {
    &&& s.tail == d.last()
    &&& s.node(d.last()).count == s0.node(s0.tail).count.wrapping_add(
        s.ann(ann).batch_req.enqs_num,
    )
}

/// The single thread that carries out the announcement of `d` has come this far since the memory
/// was `s0`.
pub open spec fn alone_execute<T>(
    s0: State<T>,
    s: State<T>,
    run: ExecuteAnn,
    d: Seq<usize>,
) -> bool {
    let n = s.ann(run.ann);
    let before = s0.node(s0.tail).count;
    let sum = before.wrapping_add(n.batch_req.enqs_num);
    let waits = batch_waits(s0, s) && n.old_tail_node == 0 && n.old_tail_count == 0;
    let linked = batch_linked(s0, s, d) && s.tail == s0.tail && n.old_tail_node == s0.tail;
    let counted = linked && n.old_tail_count == before;
    let swung = batch_linked(s0, s, d) && s.tail == d.last() && s.node(d.last()).count == sum;
    &&& s.head == mark(run.ann)
    &&& n.old_head_node == s0.head
    &&& match run.at {
        AnnStage::Recorded => waits,
        AnnStage::Tail => waits,
        AnnStage::TailCount { tail } => waits && tail == s0.tail,
        AnnStage::First { tail, count } => waits && tail == s0.tail && count == before,
        AnnStage::Link { tail, count, first } => waits && tail == s0.tail && count == before,
        AnnStage::RecordTail { tail, count } => batch_linked(s0, s, d) && s.tail == s0.tail
            && n.old_tail_node == 0 && n.old_tail_count == 0 && tail == s0.tail && count == before,
        AnnStage::RecordCount { count } => linked && n.old_tail_count == 0 && count == before,
        AnnStage::AdvanceTail { tail, next } => false,
        AnnStage::OldTail => counted,
        AnnStage::OldTailCount { old_tail } => counted,
        AnnStage::Last { old_tail, count } => counted && count == before,
        AnnStage::Num { old_tail, count, last } => counted && count == before,
        AnnStage::SetCount { old_tail, last, count } => counted && count == sum,
        AnnStage::SwingTail { old_tail, last } => counted && s.node(d.last()).count == sum,
        AnnStage::OldHead => swung,
        AnnStage::Head { old_head } => swung,
        AnnStage::Restore { current, old_head } => swung && current == mark(run.ann),
        AnnStage::Done => false,
    }
}

/// How many accesses the single thread that carries out an announcement has still to make.
pub open spec fn execute_ahead(run: ExecuteAnn) -> int {
    match run.at {
        AnnStage::Recorded => 16,
        AnnStage::Tail => 15,
        AnnStage::TailCount { tail } => 14,
        AnnStage::First { tail, count } => 13,
        AnnStage::Link { tail, count, first } => 12,
        AnnStage::RecordTail { tail, count } => 11,
        AnnStage::RecordCount { count } => 10,
        AnnStage::OldTail => 9,
        AnnStage::OldTailCount { old_tail } => 8,
        AnnStage::Last { old_tail, count } => 7,
        AnnStage::Num { old_tail, count, last } => 6,
        AnnStage::SetCount { old_tail, last, count } => 5,
        AnnStage::SwingTail { old_tail, last } => 4,
        AnnStage::OldHead => 3,
        AnnStage::Head { old_head } => 2,
        AnnStage::Restore { current, old_head } => 1,
        _ => 0,
    }
}

/// The single thread that adds the batch `d` has come this far since the memory was `s0`.
pub open spec fn alone_enqueue_batch<T>(
    s0: State<T>,
    s: State<T>,
    op: EnqueueBatch,
    d: Seq<usize>,
) -> bool {
    &&& s.anns.len() == s0.anns.len()
    &&& s.free == s0.free
    &&& s.retired == s0.retired
    &&& s.ann(op.ann).batch_req == s0.ann(op.ann).batch_req
    &&& op.entered() || s.ann(op.ann).old_tail_count == 0
    &&& match op.at {
        EnqueueBatchStage::Help { help } => batch_waits(s0, s) && s.head == s0.head && alone_help(
            s,
            help,
        ),
        EnqueueBatchStage::Count { head } => batch_waits(s0, s) && s.head == s0.head && head
            == s0.head,
        EnqueueBatchStage::SetHead { head, count } => batch_waits(s0, s) && s.head == s0.head
            && head == s0.head,
        EnqueueBatchStage::Enter { head } => batch_waits(s0, s) && s.head == s0.head && head
            == s0.head,
        EnqueueBatchStage::Execute { head, run } => head == s0.head && alone_execute(s0, s, run, d),
        EnqueueBatchStage::Retire { head } => batch_linked(s0, s, d) && s.head == s0.head && head
            == s0.head && batch_counted(s0, s, op.ann, d),
        EnqueueBatchStage::Done { head } => batch_linked(s0, s, d) && s.head == s0.head && head
            == s0.head && batch_counted(s0, s, op.ann, d),
    }
}

/// How many accesses the single thread that adds a batch has still to make.
pub open spec fn enqueue_batch_ahead(op: EnqueueBatch) -> int {
    match op.at {
        EnqueueBatchStage::Help { help } => 21 + help_ahead(help),
        EnqueueBatchStage::Count { head } => 20,
        EnqueueBatchStage::SetHead { head, count } => 19,
        EnqueueBatchStage::Enter { head } => 18,
        EnqueueBatchStage::Execute { head, run } => 1 + execute_ahead(run),
        EnqueueBatchStage::Retire { head } => 1,
        EnqueueBatchStage::Done { head } => 0,
    }
}

/// The count of the node that is `num` nodes behind the head has become that of the node in the head
/// and `num` on top, and the others have stayed, since the memory was `s0`.
pub open spec fn counts_moved<T>(s0: State<T>, s: State<T>, num: int) -> bool {
    forall|i: int|
        0 <= i < s0.chain.len() ==> (#[trigger] s.node(s0.chain[i])).count == if i == num {
            s0.node(s0.head).count.wrapping_add(num as usize)
        } else {
            s0.node(s0.chain[i]).count
        }
}

/// The single thread that takes a batch has come this far, up to moving the head, since the memory
/// was `s0`.
pub open spec fn alone_dequeue_batch<T>(s0: State<T>, s: State<T>, op: DequeueBatch) -> bool {
    &&& s.nodes.len() == s0.nodes.len()
    &&& s.tail == s0.tail
    &&& s.anns == s0.anns
    &&& s.retired == s0.retired
    &&& s.retired_anns == s0.retired_anns
    &&& s.free == s0.free
    &&& s.chain == s0.chain
    &&& s.drafts == s0.drafts
    &&& match op.at {
        DequeueBatchStage::Next { node, left } => {
            &&& node == s0.head
            &&& left == batch_len(s0.items().len(), op.max as nat)
            &&& s.head == s0.chain[left as int]
            &&& s.items() == s0.items().skip(left as int)
            &&& op.due(s) == s0.items().take(left as int)
            &&& counts_moved(s0, s, left as int)
        },
        _ => {
            &&& s.head == s0.head
            &&& s.items() == s0.items()
            &&& op.at is Advance || s == s0
            &&& match op.at {
                DequeueBatchStage::Help { help } => alone_help(s, help),
                DequeueBatchStage::Count { start } => start == s0.head,
                DequeueBatchStage::Walk { start, count, node, num } => start == s0.head && count
                    == s0.node(s0.head).count,
                DequeueBatchStage::SetCount { start, count, node, num } => start == s0.head && num
                    == batch_len(s0.items().len(), op.max as nat) && count == s0.node(
                    s0.head,
                ).count.wrapping_add(num),
                DequeueBatchStage::Advance { start, node, num } => start == s0.head && num
                    == batch_len(s0.items().len(), op.max as nat) && counts_moved(
                    s0,
                    s,
                    num as int,
                ),
                DequeueBatchStage::Done => op.max == 0 || s0.items().len() == 0,
                _ => false,
            }
        },
    }
}

/// How far the single thread that takes a batch is from having moved the head.
pub open spec fn dequeue_batch_ahead(op: DequeueBatch) -> int {
    match op.at {
        DequeueBatchStage::Help { help } => op.max + 4 + help_ahead(help),
        DequeueBatchStage::Count { start } => op.max + 3,
        DequeueBatchStage::Walk { start, count, node, num } => op.max - num + 2,
        DequeueBatchStage::SetCount { start, count, node, num } => 2,
        DequeueBatchStage::Advance { start, node, num } => 1,
        _ => 0,
    }
}

/// The memory that a batch `d` is to be added to by a single thread.
pub open spec fn batch_start<T>(s0: State<T>, ann: usize, d: Seq<usize>) -> bool {
    &&& s0.wf()
    &&& s0.hpos() == 0
    &&& !marked(s0.head)
    &&& s0.tail == s0.chain.last()
    &&& s0.drafts == Map::<usize, Seq<usize>>::empty().insert(d[0], d)
    &&& s0.is_ann(ann)
    &&& s0.ann(ann).batch_req.first_enq == d[0]
    &&& s0.ann(ann).batch_req.last_enq == d.last()
    &&& s0.ann(ann).old_tail_count == 0
}

/// A single thread is never late to carry out an announcement, and comes one access further.
#[verifier::rlimit(30)]
pub proof fn execute_goes_on<T>(s0: State<T>, s: State<T>, run: ExecuteAnn, d: Seq<usize>)
    requires
        batch_start(s0, run.ann, d),
        s.wf(),
        run.inv(s),
        alone_execute(s0, s, run, d),
        s.ann(run.ann).batch_req == s0.ann(run.ann).batch_req,
    ensures
        !run.late(s),
        ({
            let s1 = s.after(run.access());
            let run1 = run.next(s.seen(run.access()));
            &&& execute_ahead(run1) < execute_ahead(run)
            &&& run1.ann == run.ann
            &&& s1.anns.len() == s.anns.len()
            &&& s1.free == s.free
            &&& s1.retired == s.retired
            &&& s1.ann(run.ann).batch_req == s.ann(run.ann).batch_req
            &&& if run1.at is Done {
                batch_linked(s0, s1, d) && s1.head == s0.head && batch_counted(s0, s1, run.ann, d)
            } else {
                alone_execute(s0, s1, run1, d)
            }
        }),
{
    let s1 = s.after(run.access());
    let n = s.ann(run.ann);
    assert(s.is_ann(run.ann));
    assert forall|i: int| 0 <= i < s0.chain.len() implies s.is_node(#[trigger] s0.chain[i]) by {
        assert(s.chain[i] == s0.chain[i]);
    }
    match run.at {
        AnnStage::Tail => {
            assert(s.tail != 0) by {
                s.places();
            }
        },
        AnnStage::Link { tail, count, first } => {
            assert(s.node(tail).next == 0) by {
                s.follows(tail);
            }
            assert(!s.chain.contains(d[0])) by {
                assert(s.drafts.contains_key(d[0]));
                assert(s.draft_ok(d[0]));
                s.places();
            }
            assert(s1.items() == s.items() + s.items_of(d)) by {
                run.step(s, Stake::none());
            }
            assert(tail == s.chain.last());
            put_facts(s.nodes, tail, Node { next: first, ..s.node(tail) });
            assert(s0.items_of(d) =~= s.items_of(d));
            assert(s1.drafts =~= Map::empty());
        },
        AnnStage::RecordTail { tail, count } => {
            put_facts(s.anns, run.ann, Ann { old_tail_node: tail, ..n });
            assert(s1.items() == s.items()) by {
                run.step(s, Stake::none());
            }
        },
        AnnStage::RecordCount { count } => {
            put_facts(s.anns, run.ann, Ann { old_tail_count: count, ..n });
            assert(s1.items() == s.items()) by {
                run.step(s, Stake::none());
            }
        },
        AnnStage::SetCount { old_tail, last, count } => {
            assert(s.ann_ok(n));
            assert(s.chain[s.chain.len() - 1] == last);
            put_facts(s.nodes, last, Node { count, ..s.node(last) });
            assert forall|i: int| 0 <= i < s0.chain.len() implies #[trigger] s0.chain[i]
                != last by {
                assert(s.chain[i] == s0.chain[i]);
            }
            assert(s1.items() == s.items()) by {
                run.step(s, Stake::none());
            }
        },
        AnnStage::Restore { current, old_head } => {
            assert(s.head_node() == old_head);
            assert(s1.items() == s.items()) by {
                run.step(s, Stake::none());
            }
        },
        _ => {},
    }
}

/// A single thread that adds a batch is never late, and comes one access further.
pub proof fn enqueue_batch_goes_on<T>(s0: State<T>, s: State<T>, op: EnqueueBatch, d: Seq<usize>)
    requires
        batch_start(s0, op.ann, d),
        s.wf(),
        op.inv(s),
        alone_enqueue_batch(s0, s, op, d),
        !(op.at is Done),
    ensures
        !op.late(s),
        alone_enqueue_batch(s0, s.after(op.access()), op.next(s.seen(op.access())), d),
        enqueue_batch_ahead(op.next(s.seen(op.access()))) < enqueue_batch_ahead(op),
{
    s0.places();
    s.places();
    match op.at {
        EnqueueBatchStage::Execute { head, run } => {
            execute_goes_on(s0, s, run, d);
        },
        EnqueueBatchStage::SetHead { head, count } => {
            let n = s.ann(op.ann);
            put_facts(
                s.anns,
                op.ann,
                Ann { old_head_node: head, old_head_count: count, ..n },
            );
            op.step(s);
        },
        _ => {
            op.step(s);
        },
    }
}

/// The single thread that collects the `num` items that the head has passed has come this far since
/// the memory was `s0`, and has collected `done` items.
pub open spec fn alone_collect<T>(
    s0: State<T>,
    s: State<T>,
    op: DequeueBatch,
    num: int,
    done: int,
) -> bool {
    &&& 0 < num <= s0.items().len()
    &&& s.nodes.len() == s0.nodes.len()
    &&& s.tail == s0.tail
    &&& s.anns == s0.anns
    &&& s.retired_anns == s0.retired_anns
    &&& s.free == s0.free
    &&& s.chain == s0.chain
    &&& s.drafts == s0.drafts
    &&& s.head == s0.chain[num]
    &&& s.items() == s0.items().skip(num)
    &&& 0 <= done <= num
    &&& op.due(s) == s0.items().subrange(done, num)
    &&& counts_moved(s0, s, num)
    &&& match op.at {
        DequeueBatchStage::Next { node, left } => {
            &&& left == num - done
            &&& s.pos(node) == done
            &&& s.retired == s0.chain.subrange(0, done)
        },
        DequeueBatchStage::Take { node, next, left } => {
            &&& left == num - done
            &&& s.pos(node) == done
            &&& s.retired == s0.chain.subrange(0, done)
        },
        DequeueBatchStage::Retire { node, next, left } => {
            &&& left == num - done + 1
            &&& s.pos(node) == done - 1
            &&& s.retired == s0.chain.subrange(0, done - 1)
        },
        DequeueBatchStage::Done => done == num && s.retired == s0.chain.subrange(0, num),
        _ => false,
    }
}

/// How many accesses the single thread that collects items has still to make.
pub open spec fn collect_ahead(op: DequeueBatch) -> int {
    match op.at {
        DequeueBatchStage::Next { node, left } => 3 * left,
        DequeueBatchStage::Take { node, next, left } => 3 * left - 1,
        DequeueBatchStage::Retire { node, next, left } => 3 * left - 2,
        _ => 0,
    }
}

/// The single thread that collects items comes one access further.
#[verifier::rlimit(30)]
pub proof fn collect_goes_on<T>(s0: State<T>, s: State<T>, op: DequeueBatch, num: int, done: int)
    requires
        settled(s0),
        s.wf(),
        op.inv(s),
        alone_collect(s0, s, op, num, done),
        !(op.at is Done),
    ensures
        alone_collect(
            s0,
            s.after(op.access()),
            op.next(s.seen(op.access())),
            num,
            if op.at is Take {
                done + 1
            } else {
                done
            },
        ),
        collect_ahead(op.next(s.seen(op.access()))) < collect_ahead(op),
{
    let s1 = s.after(op.access());
    s.places();
    op.step(s);
    match op.at {
        DequeueBatchStage::Next { node, left } => {
            s.follows(node);
        },
        DequeueBatchStage::Take { node, next, left } => {
            put_facts(s.nodes, next, Node { item: None, ..s.node(next) });
            assert(s0.items().subrange(done, num).skip(1) =~= s0.items().subrange(done + 1, num));
        },
        DequeueBatchStage::Retire { node, next, left } => {
            assert(s0.chain.subrange(0, done - 1).push(node) =~= s0.chain.subrange(0, done));
        },
        _ => {},
    }
}

} // verus!
