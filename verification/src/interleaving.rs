//! Operations of any number of threads on one shared memory, their accesses interleaved in any way.
use crate::dequeue::Dequeue;
use crate::dequeue_batch::DequeueBatch;
use crate::enqueue::Enqueue;
use crate::enqueue_batch::{EnqueueBatch, EnqueueBatchStage};
use crate::execute_ann::ExecuteAnn;
use crate::moves::Stake;
use crate::node::InternalBatchRequest;
use crate::state::{Access, State};
use crate::tag::{mark, marked};
use vstd::prelude::*;

verus! {

/// An operation that a thread has under way.
pub enum Op {
    Enqueue(Enqueue),
    Dequeue(Dequeue),
    EnqueueBatch(EnqueueBatch),
    DequeueBatch(DequeueBatch),
}

impl Op {
    /// The access that the operation makes next.
    pub open spec fn access(self) -> Access {
        match self {
            Op::Enqueue(op) => op.access(),
            Op::Dequeue(op) => op.access(),
            Op::EnqueueBatch(op) => op.access(),
            Op::DequeueBatch(op) => op.access(),
        }
    }

    /// The operation once the access has observed `seen`.
    pub open spec fn next(self, seen: usize) -> Self {
        match self {
            Op::Enqueue(op) => Op::Enqueue(op.next(seen)),
            Op::Dequeue(op) => Op::Dequeue(op.next(seen)),
            Op::EnqueueBatch(op) => Op::EnqueueBatch(op.next(seen)),
            Op::DequeueBatch(op) => Op::DequeueBatch(op.next(seen)),
        }
    }

    /// What the operation knows of the memory `s`.
    pub open spec fn inv<T>(self, s: State<T>) -> bool {
        match self {
            Op::Enqueue(op) => op.inv(s),
            Op::Dequeue(op) => op.inv(s),
            Op::EnqueueBatch(op) => op.inv(s),
            Op::DequeueBatch(op) => op.inv(s),
        }
    }

    /// What belongs to the operation.
    pub open spec fn stake<T>(self, s: State<T>) -> Stake {
        match self {
            Op::Enqueue(op) => op.stake(),
            Op::Dequeue(op) => op.stake(),
            Op::EnqueueBatch(op) => op.stake(s),
            Op::DequeueBatch(op) => op.stake(s),
        }
    }

    /// The next access comes too late to carry out the announcement that it is part of carrying out.
    pub open spec fn late<T>(self, s: State<T>) -> bool {
        match self {
            Op::Enqueue(op) => op.late(s),
            Op::Dequeue(op) => op.late(s),
            Op::EnqueueBatch(op) => op.late(s),
            Op::DequeueBatch(op) => op.late(s),
        }
    }

    /// The operation is carrying out an announcement that it came across.
    pub open spec fn helps(self) -> bool {
        match self {
            Op::Enqueue(op) => op.at is Help,
            Op::Dequeue(op) => op is Help && op->help is Help,
            Op::EnqueueBatch(op) => op.at is Help && op.at->help is Help,
            Op::DequeueBatch(op) => op.at is Help && op.at->help is Help,
        }
    }

    /// The operation has nothing to do with an announcement: it is not adding a batch, has not come
    /// across an announcement in the head, and is not carrying one out.
    pub open spec fn plain(self) -> bool {
        match self {
            Op::Enqueue(op) => !(op.at is ConfirmAnn) && !(op.at is Help),
            Op::Dequeue(op) => op is Help ==> op->help.plain(),
            Op::EnqueueBatch(op) => op.at is Retire || op.at is Done,
            Op::DequeueBatch(op) => op.at is Help ==> op.at->help.plain(),
        }
    }

    /// If the operation is carrying out its own announcement, nobody else has done any of it: the
    /// announcement stands in the head, and the batch is not linked before the operation links it.
    pub open spec fn unaided<T>(self, s: State<T>) -> bool {
        match self {
            Op::EnqueueBatch(op) => match op.at {
                EnqueueBatchStage::Execute { head, run } => {
                    &&& s.head == mark(op.ann)
                    &&& run.before_link() ==> !s.chain.contains(s.ann(op.ann).batch_req.first_enq)
                    &&& run.at is Restore ==> run.at->current == mark(op.ann)
                },
                _ => true,
            },
            _ => true,
        }
    }

    /// The items that the next access adds to the end of the queue.
    pub open spec fn added<T>(self, s: State<T>) -> Seq<T> {
        match self {
            Op::Enqueue(op) => if op.adds(s) {
                s.items_of(seq![op.node])
            } else if op.links(s) {
                s.items_of(op.batch(s))
            } else {
                Seq::empty()
            },
            Op::Dequeue(op) => if op.links(s) {
                s.items_of(op.batch(s))
            } else {
                Seq::empty()
            },
            Op::EnqueueBatch(op) => if op.links(s) {
                s.items_of(op.batch(s))
            } else {
                Seq::empty()
            },
            Op::DequeueBatch(op) => if op.links(s) {
                s.items_of(op.batch(s))
            } else {
                Seq::empty()
            },
        }
    }

    /// The items that the next access removes from the front of the queue.
    pub open spec fn removed<T>(self, s: State<T>) -> Seq<T> {
        match self {
            Op::Dequeue(op) => if op.removes(s) {
                s.items().take(1)
            } else {
                Seq::empty()
            },
            Op::DequeueBatch(op) => if op.removes(s) {
                s.items().take(op.at->Advance_num as int)
            } else {
                Seq::empty()
            },
            _ => Seq::empty(),
        }
    }

    /// The items that the next access hands to the caller.
    pub open spec fn given<T>(self, s: State<T>) -> Seq<T> {
        match self {
            Op::Dequeue(Dequeue::Take { node }) => s.items_of(seq![node]),
            Op::DequeueBatch(op) => if op.at is Take {
                s.items_of(seq![op.at->Take_next])
            } else {
                Seq::empty()
            },
            _ => Seq::empty(),
        }
    }

    /// The items that the operation has removed from the queue and not yet handed to the caller.
    pub open spec fn due<T>(self, s: State<T>) -> Seq<T> {
        match self {
            Op::Dequeue(op) => op.due(s),
            Op::DequeueBatch(op) => op.due(s),
            _ => Seq::empty(),
        }
    }

    /// An access that does not come late leaves the memory in order and spares what belongs to
    /// other operations. It adds at the end of the queue, removes at its front, or leaves it as it
    /// is, and the caller is handed what was removed.
    pub proof fn step<T>(self, s: State<T>)
        requires
            s.wf(),
            self.inv(s),
            !self.late(s),
        ensures
            s.allows(self.access()),
            s.after(self.access()).wf(),
            self.next(s.seen(self.access())).inv(s.after(self.access())),
            s.moves_to(s.after(self.access()), self.stake(s)),
            self.next(s.seen(self.access())).stake(s.after(self.access())).from(
                self.stake(s),
                s,
                s.after(self.access()),
            ),
            s.items() + self.added(s) == self.removed(s) + s.after(self.access()).items(),
            self.due(s) + self.removed(s) == self.given(s) + self.next(
                s.seen(self.access()),
            ).due(s.after(self.access())),
    {
        let s1 = s.after(self.access());
        let op1 = self.next(s.seen(self.access()));
        match self {
            Op::Enqueue(op) => {
                op.step(s);
                if op.adds(s) {
                    assert(s.items() + s.items_of(seq![op.node]) =~= s.items().push(
                        s.node(op.node).item->0,
                    ));
                }
            },
            Op::Dequeue(op) => {
                op.step(s);
                if op.removes(s) {
                    assert(s.items() =~= s.items().take(1) + s.items().skip(1));
                }
            },
            Op::EnqueueBatch(op) => {
                op.step(s);
            },
            Op::DequeueBatch(op) => {
                op.step(s);
                if op.removes(s) {
                    let k = op.at->Advance_num as int;
                    assert(s.items() =~= s.items().take(k) + s.items().skip(k));
                }
                if op.at is Take {
                    assert(s.items_of(seq![op.at->Take_next]) =~= seq![op.due(s)[0]]);
                    assert(op.due(s) =~= seq![op.due(s)[0]] + op.due(s).skip(1));
                }
            },
        }
        assert(s.items() + self.added(s) =~= self.removed(s) + s1.items());
        assert(self.due(s) + self.removed(s) =~= self.given(s) + op1.due(s1));
    }

    /// What an operation knows, owns and is yet to hand out stays the same whatever another
    /// operation does.
    pub proof fn undisturbed<T>(self, s: State<T>, s1: State<T>, theirs: Stake)
        requires
            s.wf(),
            s1.wf(),
            self.inv(s),
            s.moves_to(s1, theirs),
            theirs.apart(self.stake(s)),
        ensures
            self.inv(s1),
            self.stake(s1) == self.stake(s),
            self.due(s1) == self.due(s),
    {
        match self {
            Op::Enqueue(op) => op.undisturbed(s, s1, theirs),
            Op::Dequeue(op) => op.undisturbed(s, s1, theirs),
            Op::EnqueueBatch(op) => op.undisturbed(s, s1, theirs),
            Op::DequeueBatch(op) => op.undisturbed(s, s1, theirs),
        }
    }

    /// What an operation takes and retires, the head has passed.
    pub proof fn stake_within<T>(self, s: State<T>)
        requires
            s.wf(),
            self.inv(s),
        ensures
            self.stake(s).within(s),
    {
        match self {
            Op::Dequeue(op) => op.stake_within(s),
            Op::DequeueBatch(op) => op.stake_within(s),
            _ => {},
        }
    }
}

/// The memory is in order, every operation under way is right about it, and nothing belongs to two
/// of them.
pub open spec fn in_order<T>(s: State<T>, ops: Seq<Op>) -> bool {
    &&& s.wf()
    &&& forall|i: int| 0 <= i < ops.len() ==> (#[trigger] ops[i]).inv(s)
    &&& forall|i: int, j: int|
        0 <= i < ops.len() && 0 <= j < ops.len() && i != j ==> (#[trigger] ops[i]).stake(s).apart(
            (#[trigger] ops[j]).stake(s),
        )
}

/// The memory after the operation `i` made its next access.
pub open spec fn memory_after<T>(s: State<T>, ops: Seq<Op>, i: int) -> State<T> {
    s.after(ops[i].access())
}

/// The operations after the operation `i` made its next access.
pub open spec fn ops_after<T>(s: State<T>, ops: Seq<Op>, i: int) -> Seq<Op> {
    ops.update(i, ops[i].next(s.seen(ops[i].access())))
}

/// The memory after the operations made their accesses in the order `schedule`.
pub open spec fn memory_at<T>(s: State<T>, ops: Seq<Op>, schedule: Seq<int>) -> State<T>
    decreases schedule.len(),
{
    if schedule.len() == 0 {
        s
    } else {
        memory_after(
            memory_at(s, ops, schedule.drop_last()),
            ops_at(s, ops, schedule.drop_last()),
            schedule.last(),
        )
    }
}

/// The operations after they made their accesses in the order `schedule`.
pub open spec fn ops_at<T>(s: State<T>, ops: Seq<Op>, schedule: Seq<int>) -> Seq<Op>
    decreases schedule.len(),
{
    if schedule.len() == 0 {
        ops
    } else {
        ops_after(
            memory_at(s, ops, schedule.drop_last()),
            ops_at(s, ops, schedule.drop_last()),
            schedule.last(),
        )
    }
}

/// Every entry of `schedule` is the number of an operation, and no access in it comes late.
pub open spec fn on_time<T>(s: State<T>, ops: Seq<Op>, schedule: Seq<int>) -> bool
    decreases schedule.len(),
{
    schedule.len() > 0 ==> {
        let before = schedule.drop_last();
        &&& on_time(s, ops, before)
        &&& 0 <= schedule.last() < ops.len()
        &&& !ops_at(s, ops, before)[schedule.last()].late(memory_at(s, ops, before))
    }
}

/// The items that the accesses in `schedule` add to the queue, in their order.
pub open spec fn added_by<T>(s: State<T>, ops: Seq<Op>, schedule: Seq<int>) -> Seq<T>
    decreases schedule.len(),
{
    if schedule.len() == 0 {
        Seq::empty()
    } else {
        let before = schedule.drop_last();
        added_by(s, ops, before) + ops_at(s, ops, before)[schedule.last()].added(
            memory_at(s, ops, before),
        )
    }
}

/// The items that the accesses in `schedule` remove from the queue, in their order.
pub open spec fn removed_by<T>(s: State<T>, ops: Seq<Op>, schedule: Seq<int>) -> Seq<T>
    decreases schedule.len(),
{
    if schedule.len() == 0 {
        Seq::empty()
    } else {
        let before = schedule.drop_last();
        removed_by(s, ops, before) + ops_at(s, ops, before)[schedule.last()].removed(
            memory_at(s, ops, before),
        )
    }
}

/// The items that the operation `i` removes from the queue in the course of `schedule`.
pub open spec fn removed_by_one<T>(s: State<T>, ops: Seq<Op>, schedule: Seq<int>, i: int) -> Seq<T>
    decreases schedule.len(),
{
    if schedule.len() == 0 {
        Seq::empty()
    } else {
        let before = schedule.drop_last();
        if schedule.last() == i {
            removed_by_one(s, ops, before, i) + ops_at(s, ops, before)[i].removed(
                memory_at(s, ops, before),
            )
        } else {
            removed_by_one(s, ops, before, i)
        }
    }
}

/// The items that the operation `i` hands to its caller in the course of `schedule`.
pub open spec fn given_by_one<T>(s: State<T>, ops: Seq<Op>, schedule: Seq<int>, i: int) -> Seq<T>
    decreases schedule.len(),
{
    if schedule.len() == 0 {
        Seq::empty()
    } else {
        let before = schedule.drop_last();
        if schedule.last() == i {
            given_by_one(s, ops, before, i) + ops_at(s, ops, before)[i].given(
                memory_at(s, ops, before),
            )
        } else {
            given_by_one(s, ops, before, i)
        }
    }
}

/// Everything is in order on the memory of an empty queue that no operation has touched.
pub proof fn nothing_under_way<T>()
    ensures
        in_order(State::<T>::initial(), Seq::empty()),
        all_unaided(State::<T>::initial(), Seq::empty()),
        State::<T>::initial().items() == Seq::<T>::empty(),
        State::<T>::initial().published == Set::<usize>::empty(),
{
    State::<T>::initial_in_order();
}

/// Whatever one operation does next, as long as it does not come late, everything stays in order,
/// and what the other operations are yet to hand out stays the same.
pub proof fn one_access<T>(s: State<T>, ops: Seq<Op>, i: int)
    requires
        in_order(s, ops),
        0 <= i < ops.len(),
        !ops[i].late(s),
    ensures
        s.allows(ops[i].access()),
        in_order(memory_after(s, ops, i), ops_after(s, ops, i)),
        s.grows_to(memory_after(s, ops, i)),
        forall|j: int|
            0 <= j < ops.len() && j != i ==> (#[trigger] ops[j]).due(memory_after(s, ops, i))
                == ops[j].due(s),
{
    let op = ops[i];
    let s1 = memory_after(s, ops, i);
    let ops1 = ops_after(s, ops, i);
    op.step(s);
    assert forall|j: int| 0 <= j < ops.len() && j != i implies {
        &&& (#[trigger] ops[j]).inv(s1)
        &&& ops[j].stake(s1) == ops[j].stake(s)
        &&& ops[j].due(s1) == ops[j].due(s)
        &&& ops1[i].stake(s1).apart(ops[j].stake(s1))
    } by {
        assert(ops[i].stake(s).apart(ops[j].stake(s)));
        ops[j].undisturbed(s, s1, op.stake(s));
        ops[j].stake_within(s);
        s.places();
        s.places_stay(s1);
    }
    assert forall|j: int| 0 <= j < ops1.len() implies (#[trigger] ops1[j]).inv(s1) by {
        if j != i {
            assert(ops1[j] == ops[j]);
        }
    }
    assert forall|j: int, k: int|
        0 <= j < ops1.len() && 0 <= k < ops1.len() && j != k implies (#[trigger] ops1[j]).stake(
        s1,
    ).apart((#[trigger] ops1[k]).stake(s1)) by {
        if j == i {
            assert(ops1[k] == ops[k]);
        } else if k == i {
            assert(ops1[j] == ops[j]);
            assert(ops1[i].stake(s1).apart(ops[j].stake(s1)));
        } else {
            assert(ops1[j] == ops[j] && ops1[k] == ops[k]);
            assert(ops[j].stake(s).apart(ops[k].stake(s)));
        }
    }
}

/// Whatever happens that spares the operations under way leaves everything in order.
pub proof fn sparing_change<T>(s: State<T>, s1: State<T>, ops: Seq<Op>, mine: Stake)
    requires
        in_order(s, ops),
        s1.wf(),
        s.moves_to(s1, mine),
        forall|i: int| 0 <= i < ops.len() ==> mine.apart((#[trigger] ops[i]).stake(s)),
    ensures
        in_order(s1, ops),
        forall|i: int| 0 <= i < ops.len() ==> (#[trigger] ops[i]).stake(s1) == ops[i].stake(s),
{
    assert forall|i: int| 0 <= i < ops.len() implies {
        &&& (#[trigger] ops[i]).inv(s1)
        &&& ops[i].stake(s1) == ops[i].stake(s)
    } by {
        ops[i].undisturbed(s, s1, mine);
    }
    assert forall|i: int, j: int|
        0 <= i < ops.len() && 0 <= j < ops.len() && i != j implies (#[trigger] ops[i]).stake(
        s1,
    ).apart((#[trigger] ops[j]).stake(s1)) by {
        assert(ops[i].stake(s).apart(ops[j].stake(s)));
    }
}

/// A thread may set out to take items at any time.
pub proof fn taker_arrives<T>(s: State<T>, ops: Seq<Op>, op: Op)
    requires
        in_order(s, ops),
        op == Op::Dequeue(Dequeue::start()) || op is DequeueBatch && op->DequeueBatch_0
            == DequeueBatch::start(op->DequeueBatch_0.max),
    ensures
        in_order(s, ops.push(op)),
{
    let ops1 = ops.push(op);
    assert(op.inv(s));
    assert forall|i: int, j: int|
        0 <= i < ops1.len() && 0 <= j < ops1.len() && i != j implies (#[trigger] ops1[i]).stake(
        s,
    ).apart((#[trigger] ops1[j]).stake(s)) by {
        if i < ops.len() && j < ops.len() {
            assert(ops[i].stake(s).apart(ops[j].stake(s)));
        }
    }
}

/// A thread may build a node and set out to add it at any time.
pub proof fn adder_arrives<T>(s: State<T>, ops: Seq<Op>, item: T)
    requires
        in_order(s, ops),
        s.has_room(),
    ensures
        in_order(
            s.built(item),
            ops.push(
                Op::Enqueue(
                    Enqueue { node: s.fresh(), at: crate::enqueue::EnqueueStage::Tail },
                ),
            ),
        ),
{
    let op = Op::Enqueue(Enqueue { node: s.fresh(), at: crate::enqueue::EnqueueStage::Tail });
    let s1 = s.built(item);
    let ops1 = ops.push(op);
    s.node_appears(item, Stake::none());
    sparing_change(s, s1, ops, Stake::none());
    assert(op.inv(s1));
    assert forall|i: int| 0 <= i < ops.len() implies (#[trigger] ops[i]).stake(s1).apart(
        op.stake(s1),
    ) && op.stake(s1).apart(ops[i].stake(s1)) by {
        assert(ops[i].inv(s));
        assert(ops[i].stake(s1) == ops[i].stake(s));
    }
    assert forall|i: int, j: int|
        0 <= i < ops1.len() && 0 <= j < ops1.len() && i != j implies (#[trigger] ops1[i]).stake(
        s1,
    ).apart((#[trigger] ops1[j]).stake(s1)) by {
        if i < ops.len() && j < ops.len() {
            assert(ops[i].stake(s1).apart(ops[j].stake(s1)));
        }
    }
}

/// A thread that has built a list of its own may announce it and set out to add it at any time.
pub proof fn announcer_arrives<T>(s: State<T>, ops: Seq<Op>, batch_req: InternalBatchRequest)
    requires
        in_order(s, ops),
        2 * s.anns.len() + 2 <= usize::MAX,
        s.drafts.contains_key(batch_req.first_enq),
        s.unannounced(batch_req.first_enq),
        s.drafts[batch_req.first_enq].last() == batch_req.last_enq,
        s.drafts[batch_req.first_enq].len() == batch_req.enqs_num,
        forall|i: int|
            0 <= i < ops.len() ==> !(#[trigger] ops[i]).stake(s).drafts.contains(
                batch_req.first_enq,
            ),
    ensures
        in_order(
            s.announcing(batch_req),
            ops.push(Op::EnqueueBatch(EnqueueBatch::start(s.fresh_ann()))),
        ),
{
    let op = Op::EnqueueBatch(EnqueueBatch::start(s.fresh_ann()));
    let s1 = s.announcing(batch_req);
    let ops1 = ops.push(op);
    let mine = Stake { drafts: set![batch_req.first_enq], ..Stake::none() };
    s.ann_appears(batch_req, mine);
    sparing_change(s, s1, ops, mine);
    assert(op.inv(s1));
    assert forall|i: int| 0 <= i < ops.len() implies (#[trigger] ops[i]).stake(s1).apart(
        op.stake(s1),
    ) && op.stake(s1).apart(ops[i].stake(s1)) by {
        assert(ops[i].inv(s));
        assert(ops[i].stake(s1) == ops[i].stake(s));
        assert(!s.is_ann(s.fresh_ann()));
    }
    assert forall|i: int, j: int|
        0 <= i < ops1.len() && 0 <= j < ops1.len() && i != j implies (#[trigger] ops1[i]).stake(
        s1,
    ).apart((#[trigger] ops1[j]).stake(s1)) by {
        if i < ops.len() && j < ops.len() {
            assert(ops[i].stake(s1).apart(ops[j].stake(s1)));
        }
    }
}

/// In whatever order the operations make their accesses, as long as none comes late, the memory
/// stays in order, the list grows only at its end, and the queue is first in, first out: what it
/// held and what was added, put one behind the other, are what was removed and what it holds now.
pub proof fn any_schedule<T>(s: State<T>, ops: Seq<Op>, schedule: Seq<int>)
    requires
        in_order(s, ops),
        on_time(s, ops, schedule),
    ensures
        in_order(memory_at(s, ops, schedule), ops_at(s, ops, schedule)),
        ops_at(s, ops, schedule).len() == ops.len(),
        s.chain.is_prefix_of(memory_at(s, ops, schedule).chain),
        s.hpos() <= memory_at(s, ops, schedule).hpos(),
        s.items() + added_by(s, ops, schedule) == removed_by(s, ops, schedule) + memory_at(
            s,
            ops,
            schedule,
        ).items(),
    decreases schedule.len(),
{
    if schedule.len() > 0 {
        let before = schedule.drop_last();
        any_schedule(s, ops, before);
        let s1 = memory_at(s, ops, before);
        let ops1 = ops_at(s, ops, before);
        let op = ops1[schedule.last()];
        one_access(s1, ops1, schedule.last());
        op.step(s1);
        let s2 = memory_at(s, ops, schedule);
        assert(s.chain.is_prefix_of(s2.chain)) by {
            assert(s2.chain.subrange(0, s.chain.len() as int) =~= s1.chain.subrange(
                0,
                s.chain.len() as int,
            ));
        }
        assert(s.items() + added_by(s, ops, schedule) =~= (s.items() + added_by(s, ops, before))
            + op.added(s1));
        assert((removed_by(s, ops, before) + s1.items()) + op.added(s1) =~= removed_by(
            s,
            ops,
            before,
        ) + (s1.items() + op.added(s1)));
        assert(removed_by(s, ops, before) + (op.removed(s1) + s2.items()) =~= removed_by(
            s,
            ops,
            schedule,
        ) + s2.items());
    } else {
        assert(s.items() + added_by(s, ops, schedule) =~= removed_by(s, ops, schedule) + s.items());
    }
}

/// In whatever order the operations make their accesses, as long as none comes late, each of them
/// hands its caller what it removed from the queue, each item once and in the order of the queue.
pub proof fn each_gets_its_own<T>(s: State<T>, ops: Seq<Op>, schedule: Seq<int>, i: int)
    requires
        in_order(s, ops),
        on_time(s, ops, schedule),
        0 <= i < ops.len(),
    ensures
        ops[i].due(s) + removed_by_one(s, ops, schedule, i) == given_by_one(s, ops, schedule, i)
            + ops_at(s, ops, schedule)[i].due(memory_at(s, ops, schedule)),
    decreases schedule.len(),
{
    if schedule.len() > 0 {
        let before = schedule.drop_last();
        any_schedule(s, ops, before);
        each_gets_its_own(s, ops, before, i);
        let s1 = memory_at(s, ops, before);
        let ops1 = ops_at(s, ops, before);
        let op = ops1[schedule.last()];
        one_access(s1, ops1, schedule.last());
        op.step(s1);
        let s2 = memory_at(s, ops, schedule);
        let due2 = ops_at(s, ops, schedule)[i].due(s2);
        if schedule.last() == i {
            let removed = removed_by_one(s, ops, before, i);
            let given = given_by_one(s, ops, before, i);
            assert(ops[i].due(s) + removed_by_one(s, ops, schedule, i) =~= (ops[i].due(s) + removed)
                + op.removed(s1));
            assert((given + op.due(s1)) + op.removed(s1) =~= given + (op.due(s1) + op.removed(s1)));
            assert(given + (op.given(s1) + due2) =~= given_by_one(s, ops, schedule, i) + due2);
        }
    } else {
        assert(ops[i].due(s) + removed_by_one(s, ops, schedule, i) =~= given_by_one(
            s,
            ops,
            schedule,
            i,
        ) + ops[i].due(s));
    }
}

/// None of the operations is adding a batch, holds on to an announcement, or is carrying one out.
pub open spec fn no_announcement(ops: Seq<Op>) -> bool {
    forall|i: int| 0 <= i < ops.len() ==> (#[trigger] ops[i]).plain()
}

/// As long as no batch is being added, no access comes late: single items may be added, and items
/// may be taken one by one or in batches, by any number of threads in any order, whatever batches
/// have been added before.
pub proof fn without_announcements<T>(s: State<T>, ops: Seq<Op>, schedule: Seq<int>)
    requires
        in_order(s, ops),
        !marked(s.head),
        no_announcement(ops),
        forall|k: int| 0 <= k < schedule.len() ==> 0 <= #[trigger] schedule[k] < ops.len(),
    ensures
        on_time(s, ops, schedule),
        !marked(memory_at(s, ops, schedule).head),
        memory_at(s, ops, schedule).published == s.published,
        no_announcement(ops_at(s, ops, schedule)),
    decreases schedule.len(),
{
    if schedule.len() > 0 {
        let before = schedule.drop_last();
        assert forall|k: int| 0 <= k < before.len() implies 0 <= #[trigger] before[k]
            < ops.len() by {
            assert(before[k] == schedule[k]);
        }
        without_announcements(s, ops, before);
        any_schedule(s, ops, before);
        let s1 = memory_at(s, ops, before);
        let ops1 = ops_at(s, ops, before);
        assert(0 <= schedule[schedule.len() - 1] < ops.len());
        let op = ops1[schedule.last()];
        assert(op.inv(s1));
        assert(op.plain());
        assert(!op.late(s1));
        op.step(s1);
        s1.places();
        assert(!marked(s1.after(op.access()).head));
        assert(s1.after(op.access()).published == s1.published);
        assert(op.next(s1.seen(op.access())).plain());
    }
}

/// Every operation that carries out its own announcement does so unaided.
pub open spec fn all_unaided<T>(s: State<T>, ops: Seq<Op>) -> bool {
    forall|i: int| 0 <= i < ops.len() ==> (#[trigger] ops[i]).unaided(s)
}

/// No operation gets to help with an announcement in the course of `schedule`.
pub open spec fn nobody_helps<T>(s: State<T>, ops: Seq<Op>, schedule: Seq<int>) -> bool
    decreases schedule.len(),
{
    &&& forall|i: int| 0 <= i < ops.len() ==> !(#[trigger] ops_at(s, ops, schedule)[i]).helps()
    &&& schedule.len() > 0 ==> nobody_helps(s, ops, schedule.drop_last())
}

/// An operation that carries out its own announcement unaided does not come late, and what another
/// operation does that helps with no announcement leaves it unaided.
proof fn one_unaided_access<T>(s: State<T>, ops: Seq<Op>, i: int)
    requires
        in_order(s, ops),
        all_unaided(s, ops),
        0 <= i < ops.len(),
        !ops[i].helps(),
        !ops_after(s, ops, i)[i].helps(),
    ensures
        !ops[i].late(s),
        all_unaided(memory_after(s, ops, i), ops_after(s, ops, i)),
{
    let op = ops[i];
    let s1 = memory_after(s, ops, i);
    let ops1 = ops_after(s, ops, i);
    assert(op.inv(s));
    assert(op.unaided(s));
    s.places();
    assert(!op.late(s));
    op.step(s);
    assert(ops1[i].unaided(s1)) by {
        match op {
            Op::EnqueueBatch(o) => {
                assert(s.is_ann(o.ann));
                assert(s1.ann(o.ann).batch_req == s.ann(o.ann).batch_req);
                match o.at {
                    EnqueueBatchStage::Enter { head } => {
                        let f = s.ann(o.ann).batch_req.first_enq;
                        assert(s.draft_ok(f));
                        assert(s.drafts[f][0] == f);
                    },
                    _ => {},
                }
            },
            _ => {},
        }
    }
    assert forall|j: int| 0 <= j < ops1.len() implies (#[trigger] ops1[j]).unaided(s1) by {
        if j != i {
            assert(ops1[j] == ops[j]);
            assert(ops[j].unaided(s));
            assert(ops[j].inv(s));
            assert(ops[i].stake(s).apart(ops[j].stake(s)));
            match ops[j] {
                Op::EnqueueBatch(o) => {
                    if o.at is Execute {
                        other_leaves_unaided(s, op, o);
                    }
                },
                _ => {},
            }
        }
    }
}

/// What an operation does that helps with no announcement leaves another one unaided.
#[verifier::rlimit(30)]
proof fn other_leaves_unaided<T>(s: State<T>, op: Op, o: EnqueueBatch)
    requires
        s.wf(),
        op.inv(s),
        op.unaided(s),
        !op.helps(),
        !op.late(s),
        o.inv(s),
        o.at is Execute,
        Op::EnqueueBatch(o).unaided(s),
        op.stake(s).apart(o.stake(s)),
    ensures
        Op::EnqueueBatch(o).unaided(s.after(op.access())),
{
    let s1 = s.after(op.access());
    let f = s.ann(o.ann).batch_req.first_enq;
    s.places();
    op.step(s);
    assert(s.is_ann(o.ann));
    assert(s1.ann(o.ann).batch_req == s.ann(o.ann).batch_req);
    assert(o.stake(s).anns.contains(o.ann));
    match op {
        Op::Enqueue(e) => {
            if e.at is Link {
                s.follows(e.at->Link_tail);
                if e.adds(s) {
                    assert(s1.chain == s.chain.push(e.node));
                    assert(!s.chain.contains(f) ==> !s1.chain.contains(f));
                }
            }
        },
        Op::EnqueueBatch(e) => {
            if e.at is Execute {
                assert(s.is_ann(e.ann));
                assert(e.ann == o.ann);
                assert(op.stake(s).anns.contains(e.ann));
            }
        },
        _ => {},
    }
}

/// As long as no thread gets to help with the announcement of another, no access comes late.
pub proof fn without_helpers<T>(s: State<T>, ops: Seq<Op>, schedule: Seq<int>)
    requires
        in_order(s, ops),
        all_unaided(s, ops),
        nobody_helps(s, ops, schedule),
        forall|k: int| 0 <= k < schedule.len() ==> 0 <= #[trigger] schedule[k] < ops.len(),
    ensures
        on_time(s, ops, schedule),
        all_unaided(memory_at(s, ops, schedule), ops_at(s, ops, schedule)),
    decreases schedule.len(),
{
    if schedule.len() > 0 {
        let before = schedule.drop_last();
        assert forall|k: int| 0 <= k < before.len() implies 0 <= #[trigger] before[k]
            < ops.len() by {
            assert(before[k] == schedule[k]);
        }
        without_helpers(s, ops, before);
        any_schedule(s, ops, before);
        assert(0 <= schedule[schedule.len() - 1] < ops.len());
        let i = schedule.last();
        assert(!ops_at(s, ops, before)[i].helps());
        assert(!ops_at(s, ops, schedule)[i].helps());
        one_unaided_access(memory_at(s, ops, before), ops_at(s, ops, before), i);
    }
}

/// An access comes late only to an announcement whose batch is part of the list already.
pub proof fn late_means_done<T>(s: State<T>, run: ExecuteAnn)
    requires
        s.wf(),
        run.inv(s),
        run.late(s),
    ensures
        s.chain.contains(s.ann(run.ann).batch_req.first_enq),
        run.at is Restore ==> s.head != mark(run.ann),
{
    assert(s.is_ann(run.ann));
    assert(s.ann_ok(s.ann(run.ann)));
}

/// When the operation that adds a batch is over, the whole batch is part of the list, its first
/// node right behind the one that was recorded as the last.
pub proof fn batch_is_in<T>(s: State<T>, op: EnqueueBatch)
    requires
        s.wf(),
        op.inv(s),
        op.at is Done,
    ensures
        ({
            let n = s.ann(op.ann);
            let r = n.batch_req;
            let p = s.pos(r.first_enq);
            &&& s.chain.contains(r.first_enq)
            &&& 0 < p
            &&& p + r.enqs_num <= s.chain.len()
            &&& s.chain[p - 1] == n.old_tail_node
            &&& s.chain[p + r.enqs_num - 1] == r.last_enq
        }),
{
    assert(s.is_ann(op.ann));
    assert(s.ann_ok(s.ann(op.ann)));
}

} // verus!
