//! Which lists of nodes enter the queue when operations of many threads are under way at once: the
//! single nodes and the announced batches, each as a whole and each once.
use crate::enqueue::Enqueue;
use crate::enqueue_batch::EnqueueBatch;
use crate::execute_ann::ExecuteAnn;
use crate::interleaving::{
    added_by, any_schedule, batch_is_in, in_order, memory_at, on_time, one_access, ops_at, Op,
};
use crate::moves::{put_facts, Stake};
use crate::node::Node;
use crate::state::{Access, State};
use crate::tag::mark;
use vstd::prelude::*;

verus! {

impl Op {
    /// The announcement that the operation is carrying out.
    pub open spec fn run(self) -> Option<ExecuteAnn> {
        match self {
            Op::Enqueue(op) => if op.at is Help {
                Some(op.at->run)
            } else {
                None
            },
            Op::Dequeue(op) => if op is Help && op->help is Help {
                Some(op->help->run)
            } else {
                None
            },
            Op::EnqueueBatch(op) => if op.at is Help && op.at->help is Help {
                Some(op.at->help->run)
            } else if op.at is Execute {
                Some(op.at->Execute_run)
            } else {
                None
            },
            Op::DequeueBatch(op) => if op.at is Help && op.at->help is Help {
                Some(op.at->help->run)
            } else {
                None
            },
        }
    }

    /// The first node of the list that the next access adds to the queue.
    pub open spec fn enters<T>(self, s: State<T>) -> Option<usize> {
        if self is Enqueue && self->Enqueue_0.adds(s) {
            Some(self->Enqueue_0.node)
        } else if self.run() is Some && self.run()->0.links(s) {
            Some(s.ann(self.run()->0.ann).batch_req.first_enq)
        } else {
            None
        }
    }

    /// The first node of the list that the operation is there to add.
    pub open spec fn own_list<T>(self, s: State<T>) -> Option<usize> {
        match self {
            Op::Enqueue(op) => Some(op.node),
            Op::EnqueueBatch(op) => Some(s.ann(op.ann).batch_req.first_enq),
            _ => None,
        }
    }

    /// The operation was there to add a list, and is over.
    pub open spec fn has_added(self) -> bool {
        match self {
            Op::Enqueue(op) => op.at is Done,
            Op::EnqueueBatch(op) => op.at is Done,
            _ => false,
        }
    }

    /// An access adds a list that was built to be added, as a whole and as it was built, or it leaves
    /// all of them as they are.
    #[verifier::rlimit(30)]
    proof fn one_list<T>(self, s: State<T>)
        requires
            s.wf(),
            self.inv(s),
            !self.late(s),
        ensures
            ({
                let s1 = s.after(self.access());
                match self.enters(s) {
                    Some(f) => {
                        &&& s.drafts.contains_key(f)
                        &&& s1.drafts == s.drafts.remove(f)
                        &&& s1.chain.contains(f)
                        &&& self.added(s) == s.items_of(s.drafts[f])
                    },
                    None => s1.drafts == s.drafts && self.added(s).len() == 0,
                }
            }),
            forall|f: usize| #[trigger]
                s.drafts.contains_key(f) ==> s.after(self.access()).items_of(s.drafts[f])
                    == s.items_of(s.drafts[f]),
    {
        let s1 = s.after(self.access());
        s.places();
        match self.run() {
            Some(run) => {
                run.step(s, Stake::none());
                if run.links(s) {
                    let f = s.ann(run.ann).batch_req.first_enq;
                    assert(s.draft_ok(f));
                    assert(s1.chain[s.chain.len() as int] == f);
                }
            },
            None => {},
        }
        if self is Enqueue && self->Enqueue_0.adds(s) {
            let op = self->Enqueue_0;
            op.step(s);
        }
        match self.access() {
            Access::CasNext { node, new } => {
                put_facts(s.nodes, node, Node { next: new, ..s.node(node) });
            },
            Access::StoreCount { node, count } => {
                self.step(s);
                put_facts(s.nodes, node, Node { count, ..s.node(node) });
            },
            Access::TakeItem { node } => {
                put_facts(s.nodes, node, Node { item: None, ..s.node(node) });
            },
            _ => {},
        }
        assert forall|f: usize| #[trigger] s.drafts.contains_key(f) implies s1.items_of(s.drafts[f])
            == s.items_of(s.drafts[f]) by {
            let d = s.drafts[f];
            assert(s.draft_ok(f));
            assert forall|i: int| 0 <= i < d.len() implies s1.node(#[trigger] d[i]).item == s.node(
                d[i],
            ).item by {
                match self.access() {
                    Access::TakeItem { node } => {
                        assert(s.chain[s.pos(node)] != d[i]);
                    },
                    _ => {},
                }
            }
            assert(s1.items_of(d) =~= s.items_of(d));
        }
    }
}

/// The lists that enter the queue in the course of `schedule`, in their order: the first node of
/// each, and its items.
pub open spec fn entries<T>(s: State<T>, ops: Seq<Op>, schedule: Seq<int>) -> Seq<(usize, Seq<T>)>
    decreases schedule.len(),
{
    if schedule.len() == 0 {
        Seq::empty()
    } else {
        let before = schedule.drop_last();
        let s1 = memory_at(s, ops, before);
        let op = ops_at(s, ops, before)[schedule.last()];
        match op.enters(s1) {
            Some(f) => entries(s, ops, before).push((f, op.added(s1))),
            None => entries(s, ops, before),
        }
    }
}

/// The items of all entries, one list behind the other.
pub open spec fn all_items<T>(log: Seq<(usize, Seq<T>)>) -> Seq<T>
    decreases log.len(),
{
    if log.len() == 0 {
        Seq::empty()
    } else {
        all_items(log.drop_last()) + log.last().1
    }
}

/// The list that starts at `f` is among the entries.
pub open spec fn entered<T>(log: Seq<(usize, Seq<T>)>, f: usize) -> bool {
    exists|k: int| 0 <= k < log.len() && (#[trigger] log[k]).0 == f
}

/// One of the operations is there to add the list that starts at `f`.
pub open spec fn somebodys<T>(s: State<T>, ops: Seq<Op>, f: usize) -> bool {
    exists|i: int| 0 <= i < ops.len() && (#[trigger] ops[i]).own_list(s) == Some(f)
}

/// Every list among the entries was built when the memory was `s`, entered as it was built, and is
/// part of the list when the memory is `s1`; no list is there twice.
spec fn entries_ok<T>(s: State<T>, ops: Seq<Op>, s1: State<T>, log: Seq<(usize, Seq<T>)>) -> bool {
    &&& forall|k: int|
        0 <= k < log.len() ==> {
            &&& s.drafts.contains_key((#[trigger] log[k]).0)
            &&& log[k].1 == s.items_of(s.drafts[log[k].0])
            &&& s1.chain.contains(log[k].0)
            &&& somebodys(s, ops, log[k].0) || s.announced(log[k].0)
        }
    &&& forall|j: int, k: int|
        0 <= j < log.len() && 0 <= k < log.len() && j != k ==> (#[trigger] log[j]).0 != (
        #[trigger] log[k]).0
}

/// Every list that was built when the memory was `s` is as it was, or has entered.
spec fn drafts_follow<T>(s: State<T>, s1: State<T>, log: Seq<(usize, Seq<T>)>) -> bool {
    &&& forall|f: usize| #[trigger] s1.drafts.contains_key(f) ==> s.drafts.contains_key(f)
    &&& forall|f: usize| #[trigger]
        s.drafts.contains_key(f) ==> if s1.drafts.contains_key(f) {
            &&& s1.drafts[f] == s.drafts[f]
            &&& s1.items_of(s.drafts[f]) == s.items_of(s.drafts[f])
        } else {
            entered(log, f)
        }
}

/// The operations are there for what they were there for, and what has been announced since the
/// memory was `s`, one of them has announced.
spec fn aims_stay<T>(s: State<T>, ops: Seq<Op>, s1: State<T>, ops1: Seq<Op>) -> bool {
    &&& ops1.len() == ops.len()
    &&& s.grows_to(s1)
    &&& forall|i: int|
        0 <= i < ops.len() ==> (#[trigger] ops1[i]).own_list(s1) == ops[i].own_list(s)
    &&& forall|a: usize| #[trigger]
        s1.published.contains(a) ==> s.published.contains(a) || somebodys(
            s,
            ops,
            s1.ann(a).batch_req.first_enq,
        )
}

/// One change after the other is a change.
proof fn growth_adds_up<T>(s: State<T>, s1: State<T>, s2: State<T>)
    requires
        s.grows_to(s1),
        s1.grows_to(s2),
    ensures
        s.grows_to(s2),
{
    assert(s.chain.is_prefix_of(s2.chain)) by {
        assert(s2.chain.subrange(0, s.chain.len() as int) =~= s1.chain.subrange(
            0,
            s.chain.len() as int,
        ));
    }
    assert forall|a: usize| s.is_ann(a) implies {
        &&& (#[trigger] s2.ann(a)).batch_req == s.ann(a).batch_req
        &&& s.ann(a).old_tail_node != 0 ==> s2.ann(a).old_tail_node == s.ann(a).old_tail_node
    } by {
        assert(s1.is_ann(a));
        assert(s1.ann(a).batch_req == s.ann(a).batch_req);
    }
    assert forall|a: usize| #[trigger] s.published.contains(a) implies {
        &&& s2.ann(a).old_head_node == s.ann(a).old_head_node
        &&& s.head != mark(a) ==> s2.head != mark(a)
    } by {
        assert(s1.published.contains(a));
    }
}

/// After an access the operations are there for what they were there for.
proof fn aims_stay_on<T>(s: State<T>, ops: Seq<Op>, s1: State<T>, ops1: Seq<Op>, i: int)
    requires
        in_order(s1, ops1),
        aims_stay(s, ops, s1, ops1),
        0 <= i < ops1.len(),
        !ops1[i].late(s1),
    ensures
        aims_stay(
            s,
            ops,
            s1.after(ops1[i].access()),
            ops1.update(i, ops1[i].next(s1.seen(ops1[i].access()))),
        ),
{
    let op = ops1[i];
    let s2 = s1.after(op.access());
    let ops2 = ops1.update(i, op.next(s1.seen(op.access())));
    assert(op.inv(s1));
    op.step(s1);
    growth_adds_up(s, s1, s2);
    assert forall|j: int| 0 <= j < ops.len() implies (#[trigger] ops2[j]).own_list(s2)
        == ops[j].own_list(s) by {
        assert(ops1[j].own_list(s1) == ops[j].own_list(s));
        assert(ops1[j].inv(s1));
        match ops1[j] {
            Op::EnqueueBatch(o) => {
                assert(s1.is_ann(o.ann));
                assert(s2.ann(o.ann).batch_req == s1.ann(o.ann).batch_req);
            },
            _ => {},
        }
    }
    assert forall|a: usize| #[trigger] s2.published.contains(a) implies s.published.contains(a)
        || somebodys(s, ops, s2.ann(a).batch_req.first_enq) by {
        if s1.published.contains(a) {
            assert(s1.is_ann(a));
            assert(s2.ann(a).batch_req == s1.ann(a).batch_req);
        } else {
            s1.places();
            assert(op is EnqueueBatch);
            let o = op->EnqueueBatch_0;
            assert(a == o.ann);
            assert(ops[i].own_list(s) == Some(s2.ann(a).batch_req.first_enq)) by {
                assert(ops2[i].own_list(s2) == ops[i].own_list(s));
            }
        }
    }
}

/// What has entered so far, and what has not, in the course of a schedule.
proof fn lists_so_far<T>(s: State<T>, ops: Seq<Op>, schedule: Seq<int>)
    requires
        in_order(s, ops),
        on_time(s, ops, schedule),
    ensures
        ({
            let s1 = memory_at(s, ops, schedule);
            let ops1 = ops_at(s, ops, schedule);
            let log = entries(s, ops, schedule);
            &&& added_by(s, ops, schedule) == all_items(log)
            &&& entries_ok(s, ops, s1, log)
            &&& drafts_follow(s, s1, log)
            &&& aims_stay(s, ops, s1, ops1)
        }),
    decreases schedule.len(),
{
    if schedule.len() > 0 {
        let before = schedule.drop_last();
        lists_so_far(s, ops, before);
        any_schedule(s, ops, before);
        let i = schedule.last();
        let s1 = memory_at(s, ops, before);
        let ops1 = ops_at(s, ops, before);
        let log1 = entries(s, ops, before);
        let op = ops1[i];
        let s2 = memory_at(s, ops, schedule);
        let log2 = entries(s, ops, schedule);
        one_access(s1, ops1, i);
        aims_stay_on(s, ops, s1, ops1, i);
        assert(op.inv(s1));
        op.one_list(s1);
        s1.places_stay(s2);
        match op.enters(s1) {
            Some(f) => {
                let d = s1.drafts[f];
                assert(s.drafts.contains_key(f));
                assert(log2.drop_last() =~= log1);
                assert(all_items(log2) == all_items(log1) + op.added(s1));
                assert(!s1.chain.contains(f)) by {
                    assert(s1.draft_ok(f));
                    s1.places();
                }
                assert(somebodys(s, ops, f) || s.announced(f)) by {
                    if op is Enqueue && op->Enqueue_0.adds(s1) {
                        assert(ops1[i].own_list(s1) == ops[i].own_list(s));
                        assert(ops[i].own_list(s) == Some(f));
                    } else {
                        let a = op.run()->0.ann;
                        assert(s1.published.contains(a));
                        if s.published.contains(a) {
                            assert(s1.ann(a).batch_req == s.ann(a).batch_req) by {
                                assert(s.is_ann(a));
                            }
                        }
                    }
                }
                assert(entries_ok(s, ops, s2, log2)) by {
                    assert forall|k: int| 0 <= k < log2.len() implies {
                        &&& s.drafts.contains_key((#[trigger] log2[k]).0)
                        &&& log2[k].1 == s.items_of(s.drafts[log2[k].0])
                        &&& s2.chain.contains(log2[k].0)
                        &&& somebodys(s, ops, log2[k].0) || s.announced(log2[k].0)
                    } by {
                        if k < log1.len() {
                            assert(log2[k] == log1[k]);
                        }
                    }
                    assert forall|j: int, k: int|
                        0 <= j < log2.len() && 0 <= k < log2.len() && j != k implies (
                    #[trigger] log2[j]).0 != (#[trigger] log2[k]).0 by {
                        if j < log1.len() {
                            assert(log2[j] == log1[j]);
                        }
                        if k < log1.len() {
                            assert(log2[k] == log1[k]);
                        }
                    }
                }
                assert(drafts_follow(s, s2, log2)) by {
                    assert(log2[log1.len() as int].0 == f);
                    assert forall|g: usize| #[trigger]
                        s.drafts.contains_key(g) implies if s2.drafts.contains_key(g) {
                        &&& s2.drafts[g] == s.drafts[g]
                        &&& s2.items_of(s.drafts[g]) == s.items_of(s.drafts[g])
                    } else {
                        entered(log2, g)
                    } by {
                        if !s1.drafts.contains_key(g) {
                            let k = choose|k: int|
                                0 <= k < log1.len() && (#[trigger] log1[k]).0 == g;
                            assert(log2[k].0 == g);
                        }
                    }
                }
            },
            None => {
                assert(added_by(s, ops, schedule) =~= added_by(s, ops, before));
                assert(entries_ok(s, ops, s2, log2));
                assert(drafts_follow(s, s2, log2));
            },
        }
    } else {
        assert(s.chain.is_prefix_of(s.chain));
    }
}

/// In whatever order the operations make their accesses, as long as none comes late, what they add
/// to the queue are whole lists, one behind the other: single nodes and announced batches, each with
/// its items as it was built, and each once. Every list is that of one of the operations, or was
/// announced before. The list of an operation has entered if and only if it is part of the queue's
/// list, and it has when the operation is over.
pub proof fn every_list_enters_once<T>(s: State<T>, ops: Seq<Op>, schedule: Seq<int>)
    requires
        in_order(s, ops),
        on_time(s, ops, schedule),
    ensures
        ({
            let s1 = memory_at(s, ops, schedule);
            let ops1 = ops_at(s, ops, schedule);
            let log = entries(s, ops, schedule);
            &&& added_by(s, ops, schedule) == all_items(log)
            &&& forall|k: int|
                0 <= k < log.len() ==> {
                    &&& s.drafts.contains_key((#[trigger] log[k]).0)
                    &&& log[k].1 == s.items_of(s.drafts[log[k].0])
                    &&& somebodys(s, ops, log[k].0) || s.announced(log[k].0)
                }
            &&& forall|j: int, k: int|
                0 <= j < log.len() && 0 <= k < log.len() && j != k ==> (#[trigger] log[j]).0 != (
                #[trigger] log[k]).0
            &&& forall|i: int|
                #![trigger ops1[i]]
                0 <= i < ops.len() && ops[i].own_list(s) is Some && s.drafts.contains_key(
                    ops[i].own_list(s)->0,
                ) ==> {
                    &&& entered(log, ops[i].own_list(s)->0) <==> s1.chain.contains(
                        ops[i].own_list(s)->0,
                    )
                    &&& ops1[i].has_added() ==> entered(log, ops[i].own_list(s)->0)
                }
        }),
{
    let s1 = memory_at(s, ops, schedule);
    let ops1 = ops_at(s, ops, schedule);
    let log = entries(s, ops, schedule);
    lists_so_far(s, ops, schedule);
    any_schedule(s, ops, schedule);
    assert forall|i: int|
        #![trigger ops1[i]]
        0 <= i < ops.len() && ops[i].own_list(s) is Some && s.drafts.contains_key(
            ops[i].own_list(s)->0,
        ) implies {
        &&& entered(log, ops[i].own_list(s)->0) <==> s1.chain.contains(ops[i].own_list(s)->0)
        &&& ops1[i].has_added() ==> entered(log, ops[i].own_list(s)->0)
    } by {
        let f = ops[i].own_list(s)->0;
        assert(ops1[i].own_list(s1) == Some(f));
        assert(ops1[i].inv(s1));
        if s1.drafts.contains_key(f) {
            assert(s1.draft_ok(f));
            s1.places();
            assert(!s1.chain.contains(f));
        }
        match ops1[i] {
            Op::EnqueueBatch(o) => {
                if o.at is Done {
                    batch_is_in(s1, o);
                }
            },
            _ => {},
        }
    }
}

} // verus!
