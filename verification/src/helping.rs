//! Helping with an announcement that stands in the head, while nobody else touches the memory: it
//! does not matter whether the thread that published it goes on.
use crate::execute_ann::{AnnStage, ExecuteAnn};
use crate::help_head::HelpHead;
use crate::interleaving::Op;
use crate::moves::{put_facts, Stake};
use crate::node::{Ann, Node};
use crate::state::{Access, State};
use crate::tag::{address, mark, marked};
use vstd::prelude::*;

verus! {

/// The announcement `ann` stands in the head, and if its batch is linked without being recorded as
/// linked, the tail has not got past the node before the batch.
pub open spec fn stands<T>(s: State<T>, ann: usize) -> bool {
    let n = s.ann(ann);
    let first = n.batch_req.first_enq;
    &&& s.wf()
    &&& ann % 2 == 0
    &&& s.head == mark(ann)
    &&& s.chain.contains(first) && n.old_tail_node == 0 ==> s.pos(s.tail) < s.pos(first)
}

/// A thread whose next access depends on what its accesses so far have observed.
pub trait Machine: Sized {
    /// The access that the thread makes next.
    spec fn calls_for(self) -> Access;

    /// The thread once that access has observed `seen`.
    spec fn goes_on(self, seen: usize) -> Self;
}

impl Machine for ExecuteAnn {
    open spec fn calls_for(self) -> Access {
        self.access()
    }

    open spec fn goes_on(self, seen: usize) -> Self {
        self.next(seen)
    }
}

impl Machine for HelpHead {
    open spec fn calls_for(self) -> Access {
        self.access()
    }

    open spec fn goes_on(self, seen: usize) -> Self {
        self.next(seen)
    }
}

impl Machine for Op {
    open spec fn calls_for(self) -> Access {
        self.access()
    }

    open spec fn goes_on(self, seen: usize) -> Self {
        self.next(seen)
    }
}

/// The memory after `m` made `num` accesses on its own.
pub open spec fn memory_alone<T, M: Machine>(s: State<T>, m: M, num: nat) -> State<T>
    decreases num,
{
    if num == 0 {
        s
    } else {
        memory_alone(s.after(m.calls_for()), m.goes_on(s.seen(m.calls_for())), (num - 1) as nat)
    }
}

/// How far `m` has come after it made `num` accesses on its own.
pub open spec fn machine_alone<T, M: Machine>(s: State<T>, m: M, num: nat) -> M
    decreases num,
{
    if num == 0 {
        m
    } else {
        machine_alone(s.after(m.calls_for()), m.goes_on(s.seen(m.calls_for())), (num - 1) as nat)
    }
}

/// The items that `op` hands to its caller with the first `num` accesses that it makes on its own.
pub open spec fn given_alone<T>(s: State<T>, op: Op, num: nat) -> Seq<T>
    decreases num,
{
    if num == 0 {
        Seq::empty()
    } else {
        op.given(s) + given_alone(
            s.after(op.access()),
            op.next(s.seen(op.access())),
            (num - 1) as nat,
        )
    }
}

/// The list once the batch that `ann` announces is part of it.
pub open spec fn chain_with<T>(s: State<T>, ann: usize) -> Seq<usize> {
    let first = s.ann(ann).batch_req.first_enq;
    if s.chain.contains(first) {
        s.chain
    } else {
        s.chain + s.drafts[first]
    }
}

/// The contents of the queue once the batch that `ann` announces is part of it.
pub open spec fn items_with<T>(s: State<T>, ann: usize) -> Seq<T> {
    let first = s.ann(ann).batch_req.first_enq;
    if s.chain.contains(first) {
        s.items()
    } else {
        s.items() + s.items_of(s.drafts[first])
    }
}

/// Where the tail stands once `run` has carried out the announcement on its own: at the end of the
/// batch, or where it was if it had already left the node before the batch.
pub open spec fn tail_with<T>(s: State<T>, run: ExecuteAnn) -> usize {
    let n = s.ann(run.ann);
    if run.before_link() && n.old_tail_node == 0 {
        n.batch_req.last_enq
    } else if run.at is OldHead || run.at is Head || run.at is Restore || run.at is Done {
        s.tail
    } else {
        let before = if n.old_tail_node == 0 {
            run.at->RecordTail_tail
        } else {
            n.old_tail_node
        };
        if s.tail == before {
            n.batch_req.last_enq
        } else {
            s.tail
        }
    }
}

/// The memory `s1` is `s` with the announcement `ann` carried out: the batch is part of the list,
/// the node before it is recorded, the node that the announcement took the place of is back in the
/// head, and the tail is `tail`. Nothing else has changed but counts.
pub open spec fn carried_out<T>(s: State<T>, ann: usize, tail: usize, s1: State<T>) -> bool {
    let n = s.ann(ann);
    let n1 = s1.ann(ann);
    &&& s1.wf()
    &&& s1.head == n.old_head_node
    &&& s1.tail == tail
    &&& s1.chain == chain_with(s, ann)
    &&& s1.items() == items_with(s, ann)
    &&& s1.drafts == s.drafts.remove(n.batch_req.first_enq)
    &&& s1.retired == s.retired
    &&& s1.retired_anns == s.retired_anns
    &&& s1.free == s.free
    &&& s1.published == s.published
    &&& s1.nodes.len() == s.nodes.len()
    &&& s1.anns.len() == s.anns.len()
    &&& n1.batch_req == n.batch_req
    &&& n1.old_head_node == n.old_head_node
    &&& n1.old_head_count == n.old_head_count
    &&& n1.old_tail_node == s1.chain[s1.pos(n.batch_req.first_enq) - 1]
    &&& forall|a: usize| s.is_node(a) ==> (#[trigger] s1.node(a)).item == s.node(a).item
    &&& forall|a: usize| s.is_ann(a) && a != ann ==> #[trigger] s1.ann(a) == s.ann(a)
}

/// What `run` has observed of the counts is what stands in the memory.
pub open spec fn counts_right<T>(s: State<T>, run: ExecuteAnn) -> bool {
    let n = s.ann(run.ann);
    let sum = n.old_tail_count.wrapping_add(n.batch_req.enqs_num);
    match run.at {
        AnnStage::Last { old_tail, count } => count == n.old_tail_count,
        AnnStage::Num { old_tail, count, last } => count == n.old_tail_count,
        AnnStage::SetCount { old_tail, last, count } => count == sum,
        AnnStage::SwingTail { old_tail, last } => s.node(last).count == sum,
        AnnStage::OldHead => s.node(n.batch_req.last_enq).count == sum,
        AnnStage::Head { old_head } => s.node(n.batch_req.last_enq).count == sum,
        AnnStage::Restore { current, old_head } => s.node(n.batch_req.last_enq).count == sum,
        AnnStage::Done => s.node(n.batch_req.last_enq).count == sum,
        _ => true,
    }
}

/// The count that is recorded in the announcement, or is about to be, is that of the node before the
/// batch. So it is of an announcement about which nothing has been done.
pub open spec fn record_right<T>(s: State<T>, run: ExecuteAnn) -> bool {
    let n = s.ann(run.ann);
    let recorded = n.old_tail_count == s.node(n.old_tail_node).count;
    match run.at {
        AnnStage::Recorded => if n.old_tail_node == 0 {
            n.old_tail_count == 0
        } else {
            recorded
        },
        AnnStage::Tail => n.old_tail_count == 0,
        AnnStage::TailCount { tail } => n.old_tail_count == 0,
        AnnStage::First { tail, count } => n.old_tail_count == 0 && count == s.node(tail).count,
        AnnStage::Link { tail, count, first } => n.old_tail_count == 0 && count == s.node(
            tail,
        ).count,
        AnnStage::AdvanceTail { tail, next } => n.old_tail_count == 0,
        AnnStage::RecordTail { tail, count } => n.old_tail_count == 0 && count == s.node(
            tail,
        ).count,
        AnnStage::RecordCount { count } => n.old_tail_count == 0 && count == s.node(
            n.old_tail_node,
        ).count,
        _ => recorded,
    }
}

/// The count of the last node of the batch is that of the node before the batch, with the length of
/// the batch on top.
pub open spec fn batch_counts<T>(s: State<T>, ann: usize) -> bool {
    let r = s.ann(ann).batch_req;
    s.node(r.last_enq).count == s.node(s.chain[s.pos(r.first_enq) - 1]).count.wrapping_add(
        r.enqs_num,
    )
}

/// What the memory `s` has become when `run`, going on alone, is done.
pub open spec fn finished<T>(s: State<T>, run: ExecuteAnn, s1: State<T>) -> bool {
    &&& if run.at is Done {
        s1 == s
    } else {
        carried_out(s, run.ann, tail_with(s, run), s1)
    }
    &&& counts_right(s, run) ==> counts_right(s1, ExecuteAnn { at: AnnStage::Done, ..run })
    &&& record_right(s, run) ==> record_right(s1, ExecuteAnn { at: AnnStage::Done, ..run })
}

/// How many accesses a thread on its own needs at most to carry out an announcement: it may have to
/// move the tail on to the end of the list first.
pub open spec fn at_most<T>(s: State<T>, run: ExecuteAnn) -> int {
    let far = 12 + 6 * (s.chain.len() - s.pos(s.tail));
    match run.at {
        AnnStage::Recorded => far + 5,
        AnnStage::Tail => far + 4,
        AnnStage::TailCount { tail } => far + 3,
        AnnStage::First { tail, count } => far + 2,
        AnnStage::Link { tail, count, first } => far + 1,
        AnnStage::AdvanceTail { tail, next } => far,
        AnnStage::RecordTail { tail, count } => 11,
        AnnStage::RecordCount { count } => 10,
        AnnStage::OldTail => 9,
        AnnStage::OldTailCount { old_tail } => 8,
        AnnStage::Last { old_tail, count } => 7,
        AnnStage::Num { old_tail, count, last } => 6,
        AnnStage::SetCount { old_tail, last, count } => 5,
        AnnStage::SwingTail { old_tail, last } => 4,
        AnnStage::OldHead => 3,
        AnnStage::Head { old_head } => 2,
        AnnStage::Restore { current, old_head } => 1,
        AnnStage::Done => 0,
    }
}

/// A thread that is carrying out an announcement on its own is right about the memory.
pub open spec fn helps_alone<T>(s: State<T>, run: ExecuteAnn) -> bool {
    let n = s.ann(run.ann);
    let first = n.batch_req.first_enq;
    let behind = s.chain.contains(first) ==> s.pos(s.tail) < s.pos(first);
    &&& s.wf()
    &&& run.ann % 2 == 0
    &&& run.inv(s)
    &&& run.at is Done || s.head == mark(run.ann)
    &&& match run.at {
        AnnStage::Recorded => n.old_tail_node == 0 ==> behind,
        AnnStage::Tail => n.old_tail_node == 0 && behind,
        AnnStage::TailCount { tail } => n.old_tail_node == 0 && behind && tail == s.tail,
        AnnStage::First { tail, count } => n.old_tail_node == 0 && behind && tail == s.tail,
        AnnStage::Link { tail, count, first: f } => n.old_tail_node == 0 && behind && tail
            == s.tail,
        AnnStage::AdvanceTail { tail, next } => {
            &&& n.old_tail_node == 0
            &&& tail == s.tail
            &&& s.pos(next) == s.pos(tail) + 1
            &&& s.chain.contains(first) ==> s.pos(next) < s.pos(first)
        },
        AnnStage::Restore { current, old_head } => current == mark(run.ann),
        _ => true,
    }
}

/// What the memory `s` is to become, once the announcement is carried out, it is still to become
/// when it is `s1` and `run` has got to `run1`.
pub open spec fn keeps<T>(s: State<T>, run: ExecuteAnn, s1: State<T>, run1: ExecuteAnn) -> bool {
    let n = s.ann(run.ann);
    let n1 = s1.ann(run.ann);
    let first = n.batch_req.first_enq;
    &&& run1.ann == run.ann
    &&& chain_with(s1, run.ann) == chain_with(s, run.ann)
    &&& items_with(s1, run.ann) == items_with(s, run.ann)
    &&& tail_with(s1, run1) == tail_with(s, run)
    &&& s1.drafts.remove(first) == s.drafts.remove(first)
    &&& s1.retired == s.retired
    &&& s1.retired_anns == s.retired_anns
    &&& s1.free == s.free
    &&& s1.published == s.published
    &&& s1.nodes.len() == s.nodes.len()
    &&& s1.anns.len() == s.anns.len()
    &&& n1.batch_req == n.batch_req
    &&& n1.old_head_node == n.old_head_node
    &&& n1.old_head_count == n.old_head_count
    &&& forall|a: usize| s.is_node(a) ==> (#[trigger] s1.node(a)).item == s.node(a).item
    &&& forall|a: usize| s.is_ann(a) && a != run.ann ==> #[trigger] s1.ann(a) == s.ann(a)
}

/// A thread on its own does not come late to an announcement that stands in the head, and comes one
/// access closer to having carried it out.
#[verifier::rlimit(30)]
pub(crate) proof fn one_access_alone<T>(s: State<T>, run: ExecuteAnn)
    requires
        helps_alone(s, run),
        !(run.at is Done),
    ensures
        !run.late(s),
        ({
            let s1 = s.after(run.access());
            let run1 = run.next(s.seen(run.access()));
            &&& helps_alone(s1, run1)
            &&& at_most(s1, run1) < at_most(s, run)
            &&& run1.at is Done ==> s1.head == s.ann(run.ann).old_head_node
        }),
{
    let s1 = s.after(run.access());
    let n = s.ann(run.ann);
    s.places();
    s.follows(s.tail);
    assert(s.is_ann(run.ann));
    assert(s.ann_ok(n));
    assert(!run.late(s));
    run.step(s, Stake::none());
    s1.places();
    s.places_stay(s1);
    assert(s1.ann(run.ann).batch_req == n.batch_req);
    match run.at {
        AnnStage::AdvanceTail { tail, next } => {
            assert(s1.tail == next);
        },
        _ => {},
    }
}

/// An access of a thread on its own leaves what the memory is to become as it is.
pub(crate) proof fn one_access_keeps<T>(s: State<T>, run: ExecuteAnn)
    requires
        helps_alone(s, run),
        !(run.at is Done),
    ensures
        keeps(s, run, s.after(run.access()), run.next(s.seen(run.access()))),
{
    let s1 = s.after(run.access());
    let run1 = run.next(s.seen(run.access()));
    let n = s.ann(run.ann);
    let first = n.batch_req.first_enq;
    one_access_alone(s, run);
    assert(s.is_ann(run.ann));
    assert(s.ann_ok(n));
    assert(s1.items() == if run.links(s) {
        s.items() + s.items_of(run.batch(s))
    } else {
        s.items()
    }) by {
        run.step(s, Stake::none());
    }
    match run.at {
        AnnStage::Link { tail, count, first: f } => {
            s.places();
            s.follows(tail);
            if s.node(tail).next == 0 {
                put_facts(s.nodes, tail, Node { next: f, ..s.node(tail) });
                assert(s.draft_ok(f));
                assert(s1.chain[s.chain.len() as int] == first);
                assert(s1.chain.contains(first));
            }
        },
        AnnStage::RecordTail { tail, count } => {
            put_facts(s.anns, run.ann, Ann { old_tail_node: tail, ..n });
            s.places();
        },
        AnnStage::RecordCount { count } => {
            put_facts(s.anns, run.ann, Ann { old_tail_count: count, ..n });
        },
        AnnStage::SetCount { old_tail, last, count } => {
            s.places();
            put_facts(s.nodes, last, Node { count, ..s.node(last) });
        },
        AnnStage::AdvanceTail { tail, next } => {
            s.places();
        },
        _ => {},
    }
    assert(s1.drafts.remove(first) =~= s.drafts.remove(first));
}

/// What a thread on its own has observed of the counts stays right.
pub(crate) proof fn one_access_counts<T>(s: State<T>, run: ExecuteAnn)
    requires
        helps_alone(s, run),
        !(run.at is Done),
    ensures
        counts_right(s, run) ==> counts_right(
            s.after(run.access()),
            run.next(s.seen(run.access())),
        ),
        record_right(s, run) ==> record_right(
            s.after(run.access()),
            run.next(s.seen(run.access())),
        ),
{
    let n = s.ann(run.ann);
    assert(s.is_ann(run.ann));
    assert(s.ann_ok(n));
    s.places();
    match run.at {
        AnnStage::Link { tail, count, first } => {
            put_facts(s.nodes, tail, Node { next: first, ..s.node(tail) });
        },
        AnnStage::RecordTail { tail, count } => {
            put_facts(s.anns, run.ann, Ann { old_tail_node: tail, ..n });
        },
        AnnStage::RecordCount { count } => {
            put_facts(s.anns, run.ann, Ann { old_tail_count: count, ..n });
        },
        AnnStage::SetCount { old_tail, last, count } => {
            put_facts(s.nodes, last, Node { count, ..s.node(last) });
        },
        _ => {},
    }
}

/// What becomes of the memory is the same whether it is told before an access or after it.
proof fn one_access_closer<T>(s: State<T>, run: ExecuteAnn, s2: State<T>)
    requires
        helps_alone(s, run),
        !(run.at is Done),
        finished(s.after(run.access()), run.next(s.seen(run.access())), s2),
    ensures
        finished(s, run, s2),
{
    one_access_keeps(s, run);
    one_access_counts(s, run);
    carried_closer(s, run, s2);
}

/// What becomes of the memory, apart from the counts, is the same whether it is told before an
/// access or after it.
proof fn carried_closer<T>(s: State<T>, run: ExecuteAnn, s2: State<T>)
    requires
        helps_alone(s, run),
        !(run.at is Done),
        ({
            let s1 = s.after(run.access());
            let run1 = run.next(s.seen(run.access()));
            if run1.at is Done {
                s2 == s1
            } else {
                carried_out(s1, run.ann, tail_with(s1, run1), s2)
            }
        }),
    ensures
        carried_out(s, run.ann, tail_with(s, run), s2),
{
    let s1 = s.after(run.access());
    let run1 = run.next(s.seen(run.access()));
    let n = s.ann(run.ann);
    let first = n.batch_req.first_enq;
    one_access_alone(s, run);
    one_access_keeps(s, run);
    if run1.at is Done {
        assert(s1.is_ann(run.ann));
        assert(s1.ann_ok(s1.ann(run.ann)));
        s1.places();
        assert(s1.chain.contains(first));
        assert(!s1.drafts.contains_key(first)) by {
            if s1.drafts.contains_key(first) {
                assert(s1.draft_ok(first));
            }
        }
        assert(s1.drafts =~= s1.drafts.remove(first));
    } else {
        assert forall|a: usize| s.is_node(a) implies (#[trigger] s2.node(a)).item == s.node(
            a,
        ).item by {
            assert(s1.node(a).item == s.node(a).item);
        }
        assert forall|a: usize| s.is_ann(a) && a != run.ann implies #[trigger] s2.ann(a) == s.ann(
            a,
        ) by {
            assert(s1.ann(a) == s.ann(a));
        }
    }
}

/// When an announcement about which nothing had been done is carried out, the last node of the batch
/// has its count on top of that of the node before the batch.
pub proof fn batch_is_counted<T>(s: State<T>, ann: usize)
    requires
        s.wf(),
        s.published.contains(ann),
        s.ann(ann).old_tail_node != 0,
        counts_right(s, ExecuteAnn { ann, at: AnnStage::Done }),
        record_right(s, ExecuteAnn { ann, at: AnnStage::Done }),
    ensures
        batch_counts(s, ann),
{
    assert(s.is_ann(ann));
    assert(s.ann_ok(s.ann(ann)));
}

/// A thread that comes across an announcement in the head carries it out on its own, in a bounded
/// number of accesses, whether or not others go on: then the whole batch is in the queue, added
/// once, and the node that the announcement took the place of is back in the head.
pub proof fn helper_carries_out<T>(s: State<T>, run: ExecuteAnn) -> (num: nat)
    requires
        helps_alone(s, run),
    ensures
        num <= at_most(s, run),
        machine_alone(s, run, num) == (ExecuteAnn { at: AnnStage::Done, ..run }),
        finished(s, run, memory_alone(s, run, num)),
    decreases at_most(s, run),
{
    s.places();
    if run.at is Done {
        0
    } else {
        one_access_alone(s, run);
        let s1 = s.after(run.access());
        let run1 = run.next(s.seen(run.access()));
        let rest = helper_carries_out(s1, run1);
        one_access_closer(s, run, memory_alone(s1, run1, rest));
        rest + 1
    }
}

/// Any thread may start to help with an announcement that stands in the head.
pub proof fn helper_starts<T>(s: State<T>, ann: usize)
    requires
        stands(s, ann),
    ensures
        helps_alone(s, ExecuteAnn::start(ann)),
{
}

/// A thread that has come across an announcement that is carried out, and nothing has happened
/// since, is right about the memory.
spec fn repeats<T>(s: State<T>, run: ExecuteAnn) -> bool {
    let n = s.ann(run.ann);
    let sum = n.old_tail_count.wrapping_add(n.batch_req.enqs_num);
    &&& done_with(s, run.ann)
    &&& match run.at {
        AnnStage::Recorded => true,
        AnnStage::OldTail => true,
        AnnStage::OldTailCount { old_tail } => old_tail == n.old_tail_node,
        AnnStage::Last { old_tail, count } => old_tail == n.old_tail_node && count
            == n.old_tail_count,
        AnnStage::Num { old_tail, count, last } => old_tail == n.old_tail_node && count
            == n.old_tail_count && last == n.batch_req.last_enq,
        AnnStage::SetCount { old_tail, last, count } => old_tail == n.old_tail_node && count == sum
            && last == n.batch_req.last_enq,
        AnnStage::SwingTail { old_tail, last } => old_tail == n.old_tail_node,
        AnnStage::OldHead => true,
        AnnStage::Head { old_head } => old_head == s.head,
        AnnStage::Restore { current, old_head } => old_head == s.head,
        AnnStage::Done => true,
        _ => false,
    }
}

/// The announcement `ann` is carried out, the head and the tail stand where that left them, and the
/// last node of the batch has its count.
pub open spec fn done_with<T>(s: State<T>, ann: usize) -> bool {
    let n = s.ann(ann);
    &&& s.wf()
    &&& s.published.contains(ann)
    &&& n.old_tail_node != 0
    &&& s.head == n.old_head_node
    &&& !marked(s.head)
    &&& s.tail != n.old_tail_node
    &&& counts_right(s, ExecuteAnn { ann, at: AnnStage::Done })
}

/// A thread that goes over an announcement that is carried out changes nothing.
proof fn goes_over<T>(s: State<T>, run: ExecuteAnn) -> (num: nat)
    requires
        repeats(s, run),
    ensures
        machine_alone(s, run, num) == (ExecuteAnn { at: AnnStage::Done, ..run }),
        memory_alone(s, run, num) == s,
    decreases at_most(s, run),
{
    if run.at is Done {
        0
    } else {
        let n = s.ann(run.ann);
        let s1 = s.after(run.access());
        s.places();
        assert(s.is_ann(run.ann));
        assert(s.ann_ok(n));
        match run.at {
            AnnStage::SetCount { old_tail, last, count } => {
                assert(s1.nodes =~= s.nodes);
            },
            _ => {},
        }
        assert(s1 == s);
        let rest = goes_over(s1, run.next(s.seen(run.access())));
        rest + 1
    }
}

/// Carrying out an announcement again, after it was carried out and nothing else happened, changes
/// nothing.
pub proof fn second_time_changes_nothing<T>(s: State<T>, ann: usize) -> (num: nat)
    requires
        done_with(s, ann),
    ensures
        machine_alone(s, ExecuteAnn::start(ann), num).at is Done,
        memory_alone(s, ExecuteAnn::start(ann), num) == s,
{
    goes_over(s, ExecuteAnn::start(ann))
}

/// What a thread on its own leaves behind when it has carried out an announcement, is an
/// announcement that is done with.
pub proof fn first_time_is_enough<T>(s: State<T>, ann: usize, s1: State<T>)
    requires
        stands(s, ann),
        finished(s, ExecuteAnn::start(ann), s1),
    ensures
        done_with(s1, ann),
{
    let n = s.ann(ann);
    s.places();
    s1.places();
    assert(s.is_ann(ann));
    assert(s.ann_ok(n));
    assert(address(mark(ann)) == ann);
    assert(s1.is_ann(ann));
    assert(s1.ann_ok(s1.ann(ann)));
    if !s.chain.contains(n.batch_req.first_enq) {
        assert(s.draft_ok(n.batch_req.first_enq));
        assert(s1.chain[s.chain.len() as int] == n.batch_req.first_enq);
    }
    assert(s1.chain.contains(n.batch_req.first_enq));
    assert(s1.chain.contains(s1.head_node()));
}

/// The memory after the announcement `ann` was carried out `times` times in a row on its own, with
/// `num` accesses each.
pub open spec fn carried_out_again<T>(s: State<T>, ann: usize, num: nat, times: nat) -> State<T>
    decreases times,
{
    if times == 0 {
        s
    } else {
        carried_out_again(
            memory_alone(s, ExecuteAnn::start(ann), num),
            ann,
            num,
            (times - 1) as nat,
        )
    }
}

/// Carrying out an announcement that stands in the head any number of times in a row leaves the
/// memory as carrying it out once does.
pub proof fn once_is_as_good_as_often<T>(s: State<T>, ann: usize, times: nat) -> (nums: (nat, nat))
    requires
        stands(s, ann),
    ensures
        machine_alone(s, ExecuteAnn::start(ann), nums.0).at is Done,
        ({
            let s1 = memory_alone(s, ExecuteAnn::start(ann), nums.0);
            &&& finished(s, ExecuteAnn::start(ann), s1)
            &&& machine_alone(s1, ExecuteAnn::start(ann), nums.1).at is Done
            &&& carried_out_again(s1, ann, nums.1, times) == s1
        }),
{
    helper_starts(s, ann);
    let once = helper_carries_out(s, ExecuteAnn::start(ann));
    let s1 = memory_alone(s, ExecuteAnn::start(ann), once);
    first_time_is_enough(s, ann, s1);
    let again = second_time_changes_nothing(s1, ann);
    often_changes_nothing(s1, ann, again, times);
    (once, again)
}

/// What changes nothing once changes nothing any number of times.
proof fn often_changes_nothing<T>(s: State<T>, ann: usize, num: nat, times: nat)
    requires
        memory_alone(s, ExecuteAnn::start(ann), num) == s,
    ensures
        carried_out_again(s, ann, num, times) == s,
    decreases times,
{
    if times > 0 {
        often_changes_nothing(s, ann, num, (times - 1) as nat);
    }
}

/// Nobody has to be waited for: if an announcement stands in the head, any thread can carry it out.
pub open spec fn quiet<T>(s: State<T>) -> bool {
    &&& s.wf()
    &&& marked(s.head) ==> stands(s, address(s.head))
}

/// The list once the announcement in the head, if there is one, is carried out.
pub open spec fn full_chain<T>(s: State<T>) -> Seq<usize> {
    if marked(s.head) {
        chain_with(s, address(s.head))
    } else {
        s.chain
    }
}

/// The contents of the queue once the announcement in the head, if there is one, is carried out.
pub open spec fn full_items<T>(s: State<T>) -> Seq<T> {
    if marked(s.head) {
        items_with(s, address(s.head))
    } else {
        s.items()
    }
}

/// Where the tail stands once the announcement in the head, if there is one, is carried out.
pub open spec fn full_tail<T>(s: State<T>) -> usize {
    if marked(s.head) {
        tail_with(s, ExecuteAnn::start(address(s.head)))
    } else {
        s.tail
    }
}

/// The memory `s1` is `s` with the announcement in the head, if there is one, carried out.
pub open spec fn cleared<T>(s: State<T>, s1: State<T>) -> bool {
    if marked(s.head) {
        carried_out(s, address(s.head), full_tail(s), s1)
    } else {
        s1 == s
    }
}

/// With the announced batch, the list goes on from what it is, and the head keeps its place in it.
/// If an announcement stands in the head, the queue is not empty then.
pub proof fn full_queue<T>(s: State<T>)
    requires
        quiet(s),
    ensures
        s.chain.is_prefix_of(full_chain(s)),
        full_chain(s).index_of(s.head_node()) == s.hpos(),
        full_items(s).len() == full_chain(s).len() - s.hpos() - 1,
        marked(s.head) ==> full_items(s).len() > 0,
{
    s.places();
    if marked(s.head) {
        let ann = address(s.head);
        let first = s.ann(ann).batch_req.first_enq;
        assert(s.is_ann(ann));
        assert(s.ann_ok(s.ann(ann)));
        if !s.chain.contains(first) {
            assert(s.draft_ok(first));
            let c = full_chain(s);
            assert(c[s.hpos()] == s.head_node());
            assert forall|i: int| 0 <= i < c.len() && c[i] == s.head_node() implies i
                == s.hpos() by {
                if i >= s.chain.len() {
                    assert(s.chain[s.hpos()] != s.drafts[first][i - s.chain.len()]);
                }
            }
        }
    }
    assert(s.chain.is_prefix_of(full_chain(s)));
}

/// Carrying out the announcement in the head leaves a node there, the one that the announcement
/// took the place of. The queue is then not empty.
pub proof fn cleared_head<T>(s: State<T>, s1: State<T>)
    requires
        quiet(s),
        cleared(s, s1),
    ensures
        s1.wf(),
        quiet(s1),
        !marked(s1.head),
        s1.head == s.head_node(),
        s1.hpos() == s.hpos(),
        s1.chain == full_chain(s),
        s1.items() == full_items(s),
        s1.tail == full_tail(s),
        s.chain.is_prefix_of(s1.chain),
        marked(s.head) ==> full_items(s).len() > 0,
        s1.items().len() == s1.chain.len() - s1.hpos() - 1,
{
    full_queue(s);
    s.places();
    s1.places();
    s.places_stay(s1);
}

/// A thread on its own that looks for the node in the head is right about the memory.
pub open spec fn looks_alone<T>(s: State<T>, help: HelpHead) -> bool {
    match help {
        HelpHead::Load => quiet(s),
        HelpHead::Confirm { word } => quiet(s) && word == s.head,
        HelpHead::Help { run } => helps_alone(s, run) && !(run.at is Done),
        HelpHead::Done { node } => s.wf() && node == s.head && !marked(s.head),
    }
}

/// What the memory `s` has become when `help`, going on alone, has found the node in the head.
pub open spec fn found<T>(s: State<T>, help: HelpHead, s1: State<T>) -> bool {
    match help {
        HelpHead::Load => cleared(s, s1),
        HelpHead::Confirm { word } => cleared(s, s1),
        HelpHead::Help { run } => carried_out(s, run.ann, tail_with(s, run), s1),
        HelpHead::Done { node } => s1 == s,
    }
}

/// How many accesses a thread on its own needs at most to find the node in the head.
pub open spec fn look_at_most<T>(s: State<T>, help: HelpHead) -> int {
    let helping = if marked(s.head) {
        at_most(s, ExecuteAnn::start(address(s.head))) + 2
    } else {
        0
    };
    match help {
        HelpHead::Load => helping + 2,
        HelpHead::Confirm { word } => helping + 1,
        HelpHead::Help { run } => at_most(s, run) + 2,
        HelpHead::Done { node } => 0,
    }
}

/// A thread on its own that looks for the node in the head does not come late, and comes one access
/// closer.
pub(crate) proof fn looks_on<T>(s: State<T>, help: HelpHead)
    requires
        looks_alone(s, help),
        !(help is Done),
    ensures
        help.inv(s),
        !help.late(s),
        ({
            let s1 = s.after(help.access());
            let help1 = help.next(s.seen(help.access()));
            &&& looks_alone(s1, help1)
            &&& look_at_most(s1, help1) < look_at_most(s, help)
        }),
{
    s.places();
    match help {
        HelpHead::Help { run } => {
            one_access_alone(s, run);
            s.after(run.access()).places();
        },
        HelpHead::Confirm { word } => {
            if marked(word) {
                helper_starts(s, address(word));
            }
        },
        _ => {},
    }
}

/// What becomes of the memory is the same whether it is told before an access or after it.
pub(crate) proof fn looks_closer<T>(s: State<T>, help: HelpHead, s2: State<T>)
    requires
        looks_alone(s, help),
        !(help is Done),
        found(s.after(help.access()), help.next(s.seen(help.access())), s2),
    ensures
        found(s, help, s2),
{
    looks_on(s, help);
    match help {
        HelpHead::Help { run } => {
            let s1 = s.after(run.access());
            let run1 = run.next(s.seen(run.access()));
            one_access_alone(s, run);
            s1.places();
            carried_closer(s, run, s2);
        },
        _ => {},
    }
}

/// A thread on its own that looks for the node in the head finds it in a bounded number of
/// accesses. If an announcement stands in the head, the thread carries it out first, and finds the
/// node that the announcement took the place of; otherwise it changes nothing.
pub proof fn looker_finds_head<T>(s: State<T>, help: HelpHead) -> (num: nat)
    requires
        looks_alone(s, help),
    ensures
        num <= look_at_most(s, help),
        machine_alone(s, help, num) == (HelpHead::Done { node: memory_alone(s, help, num).head }),
        found(s, help, memory_alone(s, help, num)),
        help is Load ==> memory_alone(s, help, num).head == s.head_node(),
    decreases look_at_most(s, help),
{
    s.places();
    if help is Done {
        0
    } else {
        looks_on(s, help);
        let s1 = s.after(help.access());
        let help1 = help.next(s.seen(help.access()));
        let rest = looker_finds_head(s1, help1);
        looks_closer(s, help, memory_alone(s1, help1, rest));
        if help is Load {
            cleared_head(s, memory_alone(s1, help1, rest));
        }
        rest + 1
    }
}

} // verus!
