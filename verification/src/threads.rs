//! Threads that each add a list of items, one item after the other, while the others do the same.
use crate::enqueue::{Enqueue, EnqueueStage};
use crate::interleaving::{adder_arrives, in_order, one_access, ops_after, Op};
use crate::moves::{put_facts, Stake};
use crate::node::Node;
use crate::state::State;
use crate::tag::marked;
use vstd::prelude::*;

verus! {

/// A thread that adds items, one after the other.
pub struct Adder<T> {
    /// The items that the thread has not set out to add yet.
    pub todo: Seq<T>,
    /// What it has under way, or had under way last.
    pub op: Enqueue,
}

impl<T> Adder<T> {
    /// The thread is about to build a node with the next item.
    pub open spec fn begins(self) -> bool {
        self.op.at is Done && self.todo.len() > 0
    }

    /// The items of the thread that are not in the queue yet.
    pub open spec fn waiting(self, s: State<T>) -> Seq<T> {
        if self.op.linked() {
            self.todo
        } else {
            seq![s.node(self.op.node).item->0] + self.todo
        }
    }
}

/// Threads that add items to a shared memory, and which thread has added which item, in the order
/// in which they entered the queue.
pub struct Work<T> {
    pub s: State<T>,
    pub adders: Seq<Adder<T>>,
    pub log: Seq<(int, T)>,
}

impl<T> Work<T> {
    /// What the threads have under way.
    pub open spec fn ops(self) -> Seq<Op> {
        Seq::new(self.adders.len(), |i: int| Op::Enqueue(self.adders[i].op))
    }

    /// Threads that are to add `lists` to `s`, none of which has anything under way.
    pub open spec fn new(s: State<T>, lists: Seq<Seq<T>>) -> Self {
        let idle = Enqueue { node: s.tail, at: EnqueueStage::Done };
        Work {
            s,
            adders: Seq::new(lists.len(), |i: int| Adder { todo: lists[i], op: idle }),
            log: Seq::empty(),
        }
    }

    /// No thread has anything under way, and nobody else has announced a batch.
    pub open spec fn starts(self) -> bool {
        &&& in_order(self.s, self.ops())
        &&& !marked(self.s.head)
        &&& self.log.len() == 0
        &&& forall|i: int| 0 <= i < self.adders.len() ==> (#[trigger] self.adders[i]).op.at is Done
    }

    /// The thread `i` goes one step further: it builds a node with its next item, or makes an
    /// access.
    pub open spec fn step(self, i: int) -> Self {
        let a = self.adders[i];
        if a.begins() {
            let op = Enqueue { node: self.s.fresh(), at: EnqueueStage::Tail };
            Work {
                s: self.s.built(a.todo[0]),
                adders: self.adders.update(i, Adder { todo: a.todo.skip(1), op }),
                log: self.log,
            }
        } else {
            Work {
                s: self.s.after(a.op.access()),
                adders: self.adders.update(
                    i,
                    Adder { op: a.op.next(self.s.seen(a.op.access())), ..a },
                ),
                log: if a.op.adds(self.s) {
                    self.log.push((i, self.s.node(a.op.node).item->0))
                } else {
                    self.log
                },
            }
        }
    }

    /// The threads go on in the order `schedule`.
    pub open spec fn after(self, schedule: Seq<int>) -> Self
        decreases schedule.len(),
    {
        if schedule.len() == 0 {
            self
        } else {
            self.after(schedule.drop_last()).step(schedule.last())
        }
    }

    /// Every entry of `schedule` is the number of a thread, and there is an address for every node
    /// that is built.
    pub open spec fn possible(self, schedule: Seq<int>) -> bool
        decreases schedule.len(),
    {
        schedule.len() > 0 ==> {
            let before = self.after(schedule.drop_last());
            &&& self.possible(schedule.drop_last())
            &&& 0 <= schedule.last() < self.adders.len()
            &&& before.adders[schedule.last()].begins() ==> before.s.has_room()
        }
    }

    /// All items are in the queue and nothing is left to do.
    pub open spec fn is_over(self) -> bool {
        forall|i: int|
            0 <= i < self.adders.len() ==> (#[trigger] self.adders[i]).op.at is Done
                && self.adders[i].todo.len() == 0
    }

    /// The items in the log, in its order.
    pub open spec fn logged(self) -> Seq<T> {
        Seq::new(self.log.len(), |k: int| self.log[k].1)
    }

    /// What holds of the threads since they started as `start`.
    spec fn goes_well(self, start: Self) -> bool {
        &&& in_order(self.s, self.ops())
        &&& !marked(self.s.head)
        &&& self.adders.len() == start.adders.len()
        &&& self.s.items() == start.s.items() + self.logged()
        &&& forall|k: int|
            0 <= k < self.log.len() ==> 0 <= (#[trigger] self.log[k]).0 < self.adders.len()
        &&& forall|i: int|
            0 <= i < self.adders.len() ==> {
                &&& !((#[trigger] self.adders[i]).op.at is ConfirmAnn)
                &&& !(self.adders[i].op.at is Help)
                &&& by_thread(self.log, i) + self.adders[i].waiting(self.s)
                    == start.adders[i].todo
            }
    }
}

/// The items that the thread `i` has added, in the order of the log.
pub open spec fn by_thread<T>(log: Seq<(int, T)>, i: int) -> Seq<T>
    decreases log.len(),
{
    if log.len() == 0 {
        Seq::empty()
    } else if log.last().0 == i {
        by_thread(log.drop_last(), i).push(log.last().1)
    } else {
        by_thread(log.drop_last(), i)
    }
}

/// One more entry in the log.
proof fn log_grows<T>(log: Seq<(int, T)>, i: int, item: T, j: int)
    ensures
        by_thread(log.push((i, item)), j) == if i == j {
            by_thread(log, j).push(item)
        } else {
            by_thread(log, j)
        },
{
    assert(log.push((i, item)).drop_last() =~= log);
}

/// A thread may build its next node at any time.
proof fn next_item<T>(w: Work<T>, start: Work<T>, i: int)
    requires
        w.goes_well(start),
        0 <= i < w.adders.len(),
        w.adders[i].begins(),
        w.s.has_room(),
    ensures
        w.step(i).goes_well(start),
{
    let s = w.s;
    let a = w.adders[i];
    let w1 = w.step(i);
    let s1 = w1.s;
    let item = a.todo[0];
    let ops = w.ops();
    let ops1 = w1.ops();
    let op = Op::Enqueue(Enqueue { node: s.fresh(), at: EnqueueStage::Tail });
    let more = ops.push(op);
    adder_arrives(s, ops, item);
    s.node_appears(item, Stake::none());
    assert(more[ops.len() as int] == op);
    assert(ops1 =~= ops.update(i, op));
    assert forall|j: int| 0 <= j < ops1.len() implies (#[trigger] ops1[j]).inv(s1) by {
        if j == i {
            assert(more[ops.len() as int].inv(s1));
        } else {
            assert(more[j].inv(s1));
        }
    }
    assert forall|j: int, k: int|
        0 <= j < ops1.len() && 0 <= k < ops1.len() && j != k implies (#[trigger] ops1[j]).stake(
        s1,
    ).apart((#[trigger] ops1[k]).stake(s1)) by {
        let jj = if j == i {
            ops.len() as int
        } else {
            j
        };
        let kk = if k == i {
            ops.len() as int
        } else {
            k
        };
        assert(more[jj].stake(s1).apart(more[kk].stake(s1)));
    }
    assert forall|j: int| 0 <= j < w1.adders.len() implies {
        &&& !((#[trigger] w1.adders[j]).op.at is ConfirmAnn)
        &&& !(w1.adders[j].op.at is Help)
        &&& by_thread(w1.log, j) + w1.adders[j].waiting(s1) == start.adders[j].todo
    } by {
        assert(by_thread(w.log, j) + w.adders[j].waiting(s) == start.adders[j].todo);
        if j == i {
            assert(w1.adders[i].waiting(s1) =~= a.waiting(s));
        } else {
            let node = w.adders[j].op.node;
            assert(ops[j].inv(s));
            if !w.adders[j].op.linked() {
                assert(s.draft_ok(node));
                assert(s.is_node(s.drafts[node][0]));
                assert(node != s.fresh()) by {
                    if s.free.len() > 0 {
                        assert(s.drafts[node][0] != s.free[s.free.len() - 1]);
                    }
                }
                assert(s1.node(node).item == s.node(node).item);
            }
        }
    }
}

/// A thread may make its next access at any time.
proof fn next_access<T>(w: Work<T>, start: Work<T>, i: int)
    requires
        w.goes_well(start),
        0 <= i < w.adders.len(),
        !w.adders[i].begins(),
    ensures
        w.step(i).goes_well(start),
{
    let s = w.s;
    let a = w.adders[i];
    let op = a.op;
    let w1 = w.step(i);
    let s1 = w1.s;
    let ops = w.ops();
    assert(ops[i] == Op::Enqueue(op));
    assert(ops[i].inv(s));
    one_access(s, ops, i);
    assert(w1.ops() =~= ops_after(s, ops, i));
    op.step(s);
    assert forall|b: usize| s.is_node(b) implies (#[trigger] s1.node(b)).item == s.node(b).item by {
        match op.at {
            EnqueueStage::Link { tail } => {
                s.places();
                put_facts(s.nodes, tail, Node { next: op.node, ..s.node(tail) });
            },
            _ => {},
        }
    }
    if op.adds(s) {
        assert(start.s.items() + w1.logged() =~= (start.s.items() + w.logged()).push(
            s.node(op.node).item->0,
        ));
    }
    assert forall|j: int| 0 <= j < w1.adders.len() implies {
        &&& !((#[trigger] w1.adders[j]).op.at is ConfirmAnn)
        &&& !(w1.adders[j].op.at is Help)
        &&& by_thread(w1.log, j) + w1.adders[j].waiting(s1) == start.adders[j].todo
    } by {
        let b = w.adders[j];
        let item = s.node(op.node).item->0;
        assert(by_thread(w.log, j) + b.waiting(s) == start.adders[j].todo);
        assert(ops[j].inv(s));
        if op.adds(s) {
            log_grows(w.log, i, item, j);
        }
        if !b.op.linked() {
            assert(s.draft_ok(b.op.node));
            assert(s.is_node(s.drafts[b.op.node][0]));
            assert(s1.node(b.op.node).item == s.node(b.op.node).item);
        }
        if j == i && op.adds(s) {
            assert(by_thread(w.log, i).push(item) + a.todo =~= by_thread(w.log, i) + (seq![item]
                + a.todo));
        }
    }
}

/// Any number of threads may set out to add lists of items, as long as no announcement stands in
/// the head.
pub proof fn threads_may_start<T>(s: State<T>, lists: Seq<Seq<T>>)
    requires
        s.wf(),
        !marked(s.head),
    ensures
        Work::new(s, lists).starts(),
{
}

/// Threads that each add a list of items leave in the queue what was there, followed by an
/// interleaving of the lists: every item enters once, and the items of each thread in their order.
/// Until the threads are done, each has added the first part of its list.
pub proof fn lists_interleave<T>(start: Work<T>, schedule: Seq<int>)
    requires
        start.starts(),
        start.possible(schedule),
    ensures
        ({
            let w = start.after(schedule);
            &&& w.adders.len() == start.adders.len()
            &&& in_order(w.s, w.ops())
            &&& w.s.items() == start.s.items() + w.logged()
            &&& forall|k: int|
                0 <= k < w.log.len() ==> 0 <= (#[trigger] w.log[k]).0 < w.adders.len()
            &&& forall|i: int|
                0 <= i < w.adders.len() ==> by_thread(w.log, i) + (#[trigger] w.adders[i]).waiting(
                    w.s,
                ) == start.adders[i].todo
            &&& w.is_over() ==> forall|i: int|
                0 <= i < w.adders.len() ==> #[trigger] by_thread(w.log, i)
                    == start.adders[i].todo
        }),
{
    let w = start.after(schedule);
    all_goes_well(start, schedule);
    if w.is_over() {
        assert forall|i: int| 0 <= i < w.adders.len() implies #[trigger] by_thread(w.log, i)
            == start.adders[i].todo by {
            assert(w.adders[i].op.at is Done);
            assert(by_thread(w.log, i) + w.adders[i].waiting(w.s) =~= by_thread(w.log, i));
        }
    }
}

/// In whatever order the threads go on, all goes well.
proof fn all_goes_well<T>(start: Work<T>, schedule: Seq<int>)
    requires
        start.starts(),
        start.possible(schedule),
    ensures
        start.after(schedule).goes_well(start),
    decreases schedule.len(),
{
    if schedule.len() == 0 {
        assert(start.s.items() =~= start.s.items() + start.logged());
        assert forall|i: int| 0 <= i < start.adders.len() implies by_thread(start.log, i)
            + (#[trigger] start.adders[i]).waiting(start.s) == start.adders[i].todo by {
            assert(start.adders[i].op.at is Done);
            assert(by_thread(start.log, i) + start.adders[i].todo =~= start.adders[i].todo);
        }
    } else {
        let before = schedule.drop_last();
        all_goes_well(start, before);
        let w = start.after(before);
        if w.adders[schedule.last()].begins() {
            next_item(w, start, schedule.last());
        } else {
            next_access(w, start, schedule.last());
        }
    }
}

} // verus!
