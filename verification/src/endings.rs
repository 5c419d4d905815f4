//! How operations come to their end when those of many threads are under way at once: what an
//! operation has to have done, or to have seen, before it is over.
use crate::dequeue::Dequeue;
use crate::dequeue_batch::{DequeueBatch, DequeueBatchStage};
use crate::enqueue_batch::EnqueueBatch;
use crate::execute_ann::ExecuteAnn;
use crate::interleaving::{
    any_schedule, batch_is_in, each_gets_its_own, given_by_one, in_order, memory_at, on_time, one_access,
    ops_at, removed_by_one, Op,
};
use crate::state::{Access, State};
use crate::tag::mark;
use vstd::prelude::*;

verus! {

/// The queue held at most `num` items at the moment of one of the accesses that the operation `i`
/// makes in the course of `schedule`.
pub open spec fn met_at_most<T>(
    s: State<T>,
    ops: Seq<Op>,
    schedule: Seq<int>,
    i: int,
    num: int,
) -> bool
    decreases schedule.len(),
{
    schedule.len() > 0 && {
        let before = schedule.drop_last();
        ||| schedule.last() == i && memory_at(s, ops, before).items().len() <= num
        ||| met_at_most(s, ops, before, i, num)
    }
}

/// Until an operation that takes an item has moved the head, it has removed nothing; from then on it
/// has removed one item; and it gives up only after it has met an empty queue.
proof fn taker_so_far<T>(s: State<T>, ops: Seq<Op>, schedule: Seq<int>, i: int)
    requires
        in_order(s, ops),
        on_time(s, ops, schedule),
        0 <= i < ops.len(),
        ops[i] == Op::Dequeue(Dequeue::start()),
    ensures
        ops_at(s, ops, schedule)[i] is Dequeue,
        ({
            let op = ops_at(s, ops, schedule)[i]->Dequeue_0;
            let removed = removed_by_one(s, ops, schedule, i);
            match op {
                Dequeue::Retire { head, node } => removed.len() == 1,
                Dequeue::Take { node } => removed.len() == 1,
                Dequeue::Taken => removed.len() == 1,
                Dequeue::Empty => removed.len() == 0 && met_at_most(s, ops, schedule, i, 0),
                _ => removed.len() == 0,
            }
        }),
    decreases schedule.len(),
{
    if schedule.len() > 0 {
        let before = schedule.drop_last();
        taker_so_far(s, ops, before, i);
        any_schedule(s, ops, before);
        let s1 = memory_at(s, ops, before);
        let ops1 = ops_at(s, ops, before);
        if schedule.last() == i {
            assert(ops1[i].inv(s1));
            ops1[i]->Dequeue_0.step(s1);
        }
    }
}

/// In whatever order the operations make their accesses, as long as none comes late, an operation
/// that takes an item removes one item at most. When it is over, it has removed one, or the queue
/// was empty at the moment of one of its accesses. When it has taken the item, that is the one that
/// it has removed.
pub proof fn taker_ends<T>(s: State<T>, ops: Seq<Op>, schedule: Seq<int>, i: int)
    requires
        in_order(s, ops),
        on_time(s, ops, schedule),
        0 <= i < ops.len(),
        ops[i] == Op::Dequeue(Dequeue::start()),
    ensures
        ops_at(s, ops, schedule)[i] is Dequeue,
        ({
            let op = ops_at(s, ops, schedule)[i]->Dequeue_0;
            let removed = removed_by_one(s, ops, schedule, i);
            let given = given_by_one(s, ops, schedule, i);
            &&& removed.len() <= 1
            &&& op.is_over() ==> removed.len() == 1 || met_at_most(s, ops, schedule, i, 0)
            &&& op.is_over() ==> given + op.due(memory_at(s, ops, schedule)) == removed
            &&& op is Taken ==> given == removed && removed.len() == 1
            &&& op is Empty ==> removed.len() == 0 && given.len() == 0
        }),
{
    let s1 = memory_at(s, ops, schedule);
    let op = ops_at(s, ops, schedule)[i]->Dequeue_0;
    let removed = removed_by_one(s, ops, schedule, i);
    let given = given_by_one(s, ops, schedule, i);
    taker_so_far(s, ops, schedule, i);
    each_gets_its_own(s, ops, schedule, i);
    assert(ops[i].due(s) + removed =~= removed);
    if op is Taken || op is Empty {
        assert(given + op.due(s1) =~= given);
    }
}

/// What an operation that takes a batch has removed so far, and what it has met.
proof fn batch_taker_so_far<T>(s: State<T>, ops: Seq<Op>, schedule: Seq<int>, i: int, max: usize)
    requires
        in_order(s, ops),
        on_time(s, ops, schedule),
        0 <= i < ops.len(),
        ops[i] == Op::DequeueBatch(DequeueBatch::start(max)),
    ensures
        ops_at(s, ops, schedule)[i] is DequeueBatch,
        ({
            let op = ops_at(s, ops, schedule)[i]->DequeueBatch_0;
            let num = removed_by_one(s, ops, schedule, i).len() as int;
            &&& op.max == max
            &&& num <= max
            &&& match op.at {
                DequeueBatchStage::Next { node, left } => num == max || met_at_most(
                    s,
                    ops,
                    schedule,
                    i,
                    num,
                ),
                DequeueBatchStage::Take { node, next, left } => num == max || met_at_most(
                    s,
                    ops,
                    schedule,
                    i,
                    num,
                ),
                DequeueBatchStage::Retire { node, next, left } => num == max || met_at_most(
                    s,
                    ops,
                    schedule,
                    i,
                    num,
                ),
                DequeueBatchStage::Done => num == max || met_at_most(s, ops, schedule, i, num),
                DequeueBatchStage::SetCount { start, count, node, num: k } => num == 0 && (k == max
                    || met_at_most(s, ops, schedule, i, k as int)),
                DequeueBatchStage::Advance { start, node, num: k } => num == 0 && (k == max
                    || met_at_most(s, ops, schedule, i, k as int)),
                _ => num == 0,
            }
        }),
    decreases schedule.len(),
{
    if schedule.len() > 0 {
        let before = schedule.drop_last();
        batch_taker_so_far(s, ops, before, i, max);
        any_schedule(s, ops, before);
        let s1 = memory_at(s, ops, before);
        let ops1 = ops_at(s, ops, before);
        if schedule.last() == i {
            assert(ops1[i].inv(s1));
            ops1[i]->DequeueBatch_0.step(s1);
        }
    }
}

/// In whatever order the operations make their accesses, as long as none comes late, an operation
/// that takes a batch removes `max` items at most. When it is done, it has removed `max` of them, or
/// the queue held no more than it has removed at the moment of one of its accesses; and what it has
/// removed it has handed out, in that order.
pub proof fn batch_taker_ends<T>(
    s: State<T>,
    ops: Seq<Op>,
    schedule: Seq<int>,
    i: int,
    max: usize,
)
    requires
        in_order(s, ops),
        on_time(s, ops, schedule),
        0 <= i < ops.len(),
        ops[i] == Op::DequeueBatch(DequeueBatch::start(max)),
    ensures
        ops_at(s, ops, schedule)[i] is DequeueBatch,
        ({
            let op = ops_at(s, ops, schedule)[i]->DequeueBatch_0;
            let removed = removed_by_one(s, ops, schedule, i);
            &&& removed.len() <= max
            &&& op.is_done() ==> removed.len() == max || met_at_most(
                s,
                ops,
                schedule,
                i,
                removed.len() as int,
            )
            &&& op.is_done() ==> given_by_one(s, ops, schedule, i) == removed
        }),
{
    let s1 = memory_at(s, ops, schedule);
    let op = ops_at(s, ops, schedule)[i]->DequeueBatch_0;
    let removed = removed_by_one(s, ops, schedule, i);
    let given = given_by_one(s, ops, schedule, i);
    batch_taker_so_far(s, ops, schedule, i, max);
    each_gets_its_own(s, ops, schedule, i);
    assert(ops[i].due(s) + removed =~= removed);
    if op.at is Done {
        assert(given + op.due(s1) =~= given);
    }
}

/// What has been retired stays retired.
proof fn retired_stays<T>(s: State<T>, access: Access, ann: usize)
    requires
        s.retired_anns.contains(ann),
    ensures
        s.after(access).retired_anns.contains(ann),
{
    let i = s.retired_anns.index_of(ann);
    assert(s.retired_anns[i] == ann);
    assert(s.after(access).retired_anns[i] == ann);
}

/// In whatever order the operations make their accesses, as long as none comes late, an operation
/// that adds a batch is done only when the whole batch is part of the list and the announcement has
/// left the head and is retired. What it hands back is the node that the announcement took the place
/// of.
pub proof fn announcer_ends<T>(s: State<T>, ops: Seq<Op>, schedule: Seq<int>, i: int, ann: usize)
    requires
        in_order(s, ops),
        on_time(s, ops, schedule),
        0 <= i < ops.len(),
        ops[i] == Op::EnqueueBatch(EnqueueBatch::start(ann)),
    ensures
        ops_at(s, ops, schedule)[i] is EnqueueBatch,
        ops_at(s, ops, schedule)[i]->EnqueueBatch_0.ann == ann,
        ops_at(s, ops, schedule)[i]->EnqueueBatch_0.is_done() ==> {
            let s1 = memory_at(s, ops, schedule);
            &&& s1.chain.contains(s1.ann(ann).batch_req.first_enq)
            &&& s1.head != mark(ann)
            &&& s1.retired_anns.contains(ann)
        },
        ops_at(s, ops, schedule)[i]->EnqueueBatch_0.entered()
            ==> ops_at(s, ops, schedule)[i]->EnqueueBatch_0.old_head() == memory_at(
            s,
            ops,
            schedule,
        ).ann(ann).old_head_node,
    decreases schedule.len(),
{
    any_schedule(s, ops, schedule);
    assert(ops_at(s, ops, schedule)[i].inv(memory_at(s, ops, schedule)));
    if schedule.len() > 0 {
        let before = schedule.drop_last();
        announcer_ends(s, ops, before, i, ann);
        any_schedule(s, ops, before);
        let s1 = memory_at(s, ops, before);
        let ops1 = ops_at(s, ops, before);
        let s2 = memory_at(s, ops, schedule);
        let op = ops1[schedule.last()];
        one_access(s1, ops1, schedule.last());
        assert(ops1[i].inv(s1));
        if s1.retired_anns.contains(ann) {
            retired_stays(s1, op.access(), ann);
        }
        if schedule.last() == i && ops1[i]->EnqueueBatch_0.at is Retire {
            assert(s2.retired_anns[s1.retired_anns.len() as int] == ann);
        }
        if ops_at(s, ops, schedule)[i]->EnqueueBatch_0.is_done() {
            batch_is_in(s2, ops_at(s, ops, schedule)[i]->EnqueueBatch_0);
            let k = s2.retired_anns.index_of(ann);
            assert(s2.retired_anns[k] == ann);
        }
    }
}

/// In whatever order the operations make their accesses, as long as none comes late, an operation
/// that adds a node is done only when the node is part of the list.
pub proof fn adder_ends<T>(s: State<T>, ops: Seq<Op>, schedule: Seq<int>, i: int)
    requires
        in_order(s, ops),
        on_time(s, ops, schedule),
        0 <= i < ops.len(),
        ops[i] is Enqueue,
    ensures
        ops_at(s, ops, schedule)[i] is Enqueue,
        ops_at(s, ops, schedule)[i]->Enqueue_0.node == ops[i]->Enqueue_0.node,
        ops_at(s, ops, schedule)[i]->Enqueue_0.is_done() ==> memory_at(
            s,
            ops,
            schedule,
        ).chain.contains(ops[i]->Enqueue_0.node),
    decreases schedule.len(),
{
    any_schedule(s, ops, schedule);
    assert(ops_at(s, ops, schedule)[i].inv(memory_at(s, ops, schedule)));
    if schedule.len() > 0 {
        let before = schedule.drop_last();
        adder_ends(s, ops, before, i);
        any_schedule(s, ops, before);
    }
}

/// The thread `run` after it made one access to each of the memories, in their order, with whatever
/// others did in between.
pub open spec fn run_through<T>(memories: Seq<State<T>>, run: ExecuteAnn) -> ExecuteAnn
    decreases memories.len(),
{
    if memories.len() == 0 {
        run
    } else {
        let before = run_through(memories.drop_last(), run);
        before.next(memories.last().seen(before.access()))
    }
}

/// Once a node is recorded before the batch, a thread that is not just about to link the batch never
/// links it, whatever it meets and whenever it comes: neither one that sets out, nor one that has
/// found another node behind the tail and has to look again.
pub proof fn no_second_link<T>(memories: Seq<State<T>>, run: ExecuteAnn)
    requires
        memories.len() > 0,
        !run.may_link(),
        forall|k: int|
            0 <= k < memories.len() ==> (#[trigger] memories[k]).ann(run.ann).old_tail_node != 0,
    ensures
        !run_through(memories, run).may_link(),
        !run_through(memories.drop_last(), run).links(memories.last()),
        run_through(memories, run).ann == run.ann,
    decreases memories.len(),
{
    let before = memories.drop_last();
    let n = memories.len() - 1;
    if before.len() > 0 {
        assert forall|k: int| 0 <= k < before.len() implies (#[trigger] before[k]).ann(
            run.ann,
        ).old_tail_node != 0 by {
            assert(before[k] == memories[k]);
        }
        no_second_link(before, run);
    }
    assert(memories[n] == memories.last());
}

/// Whatever it meets and whenever it comes, a thread that carries out an announcement tries to
/// change the head once at most: after that it touches nothing any more.
pub proof fn head_is_tried_once<T>(memories: Seq<State<T>>, run: ExecuteAnn, j: int)
    requires
        0 <= j < memories.len(),
        run_through(memories.take(j), run).access() is CasHead,
    ensures
        j + 1 < memories.len() ==> run_through(memories.drop_last(), run).access() is Rest,
        run_through(memories, run).at is Done,
    decreases memories.len(),
{
    let before = memories.drop_last();
    let n = memories.len() - 1;
    if j < n {
        assert(before.take(j) =~= memories.take(j));
        head_is_tried_once(before, run, j);
    } else {
        assert(before =~= memories.take(j));
    }
}

} // verus!
