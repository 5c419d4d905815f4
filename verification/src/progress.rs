//! What becomes of a thread that others have left behind: wherever it was when the others stopped,
//! with what it knows out of date, it comes to its end when it goes on alone.
use crate::dequeue::Dequeue;
use crate::dequeue_batch::{DequeueBatch, DequeueBatchStage};
use crate::enqueue::{Enqueue, EnqueueStage};
use crate::enqueue_batch::{EnqueueBatch, EnqueueBatchStage};
use crate::execute_ann::{AnnStage, ExecuteAnn};
use crate::help_head::HelpHead;
use crate::helping::{
    at_most, chain_with, cleared, cleared_head, full_chain, full_items, full_queue, given_alone,
    items_with, looker_finds_head, machine_alone, memory_alone, quiet, stands, Machine,
};
use crate::interleaving::Op;
use crate::laws::batch_len;
use crate::moves::{put_facts, Stake};
use crate::node::{Ann, Node};
use crate::outcomes::{
    adder_gets_done, adds_batch_alone, announced_and_done, announcer_gets_done,
    batch_taken, batch_taker_gets_done, taken, taker_gets_done, takes_alone, takes_batch_alone,
};
use crate::state::{Access, State};
use crate::tag::{address, mark, marked};
use vstd::prelude::*;

verus! {

/// Going on for `a` accesses and then for `b` more is going on for `a + b`.
pub proof fn one_by_one<T, M: Machine>(s: State<T>, m: M, a: nat, b: nat)
    ensures
        memory_alone(s, m, a + b) == memory_alone(
            memory_alone(s, m, a),
            machine_alone(s, m, a),
            b,
        ),
        machine_alone(s, m, a + b) == machine_alone(
            memory_alone(s, m, a),
            machine_alone(s, m, a),
            b,
        ),
    decreases a,
{
    if a > 0 {
        one_by_one(s.after(m.calls_for()), m.goes_on(s.seen(m.calls_for())), (a - 1) as nat, b);
    }
}

/// What an operation hands out in `a` accesses and then in `b` more is what it hands out in `a + b`.
pub proof fn handed_out_one_by_one<T>(s: State<T>, op: Op, a: nat, b: nat)
    ensures
        given_alone(s, op, a + b) == given_alone(s, op, a) + given_alone(
            memory_alone(s, op, a),
            machine_alone(s, op, a),
            b,
        ),
    decreases a,
{
    if a > 0 {
        let s1 = s.after(op.access());
        let op1 = op.next(s.seen(op.access()));
        handed_out_one_by_one(s1, op1, (a - 1) as nat, b);
        assert(given_alone(s, op, a + b) =~= given_alone(s, op, a) + given_alone(
            memory_alone(s, op, a),
            machine_alone(s, op, a),
            b,
        ));
    } else {
        assert(given_alone(s, op, a + b) =~= given_alone(s, op, 0) + given_alone(s, op, b));
    }
}

/// The memory `s1` holds what `s` does, counting in an announced batch in either of them. Nobody has
/// to be waited for in it either.
pub open spec fn settles<T>(s: State<T>, s1: State<T>) -> bool {
    &&& quiet(s1)
    &&& full_chain(s1) == full_chain(s)
    &&& full_items(s1) == full_items(s)
    &&& s1.head_node() == s.head_node()
    &&& s1.retired == s.retired
    &&& s1.retired_anns == s.retired_anns
    &&& s1.free == s.free
    &&& s1.published == s.published
    &&& s1.nodes.len() == s.nodes.len()
    &&& s1.anns.len() == s.anns.len()
    &&& marked(s1.head) ==> s1.head == s.head
    &&& forall|a: usize| s.is_node(a) ==> (#[trigger] s1.node(a)).item == s.node(a).item
    &&& forall|a: usize| s.is_ann(a) ==> (#[trigger] s1.ann(a)).batch_req == s.ann(a).batch_req
    &&& forall|a: usize|
        s.is_ann(a) && !s.published.contains(a) ==> #[trigger] s1.ann(a) == s.ann(a)
    &&& forall|f: usize| #[trigger]
        s.drafts.contains_key(f) && !full_chain(s).contains(f) ==> {
            &&& s1.drafts.contains_key(f)
            &&& s1.drafts[f] == s.drafts[f]
        }
}

/// One change after the other that leaves what the memory holds leaves it.
pub proof fn settles_on<T>(s: State<T>, s1: State<T>, s2: State<T>)
    requires
        settles(s, s1),
        settles(s1, s2),
    ensures
        settles(s, s2),
{
    assert forall|a: usize| s.is_node(a) implies (#[trigger] s2.node(a)).item == s.node(a).item by {
        assert(s1.node(a).item == s.node(a).item);
    }
    assert forall|a: usize| s.is_ann(a) implies (#[trigger] s2.ann(a)).batch_req == s.ann(
        a,
    ).batch_req by {
        assert(s1.ann(a).batch_req == s.ann(a).batch_req);
    }
    assert forall|a: usize| s.is_ann(a) && !s.published.contains(a) implies #[trigger] s2.ann(a)
        == s.ann(a) by {
        assert(s1.ann(a) == s.ann(a));
    }
}

/// A thread that is carrying out an announcement can go on with it alone. The announcement stands in
/// the head; or it is carried out, and the head has not moved on since; or the thread has only to
/// find that the head is not what it was. If the batch is linked, what the thread has found at the
/// tail is before it.
pub open spec fn can_go_on<T>(s: State<T>, run: ExecuteAnn) -> bool {
    let n = s.ann(run.ann);
    let first = n.batch_req.first_enq;
    let linked = s.chain.contains(first);
    &&& quiet(s)
    &&& run.ann % 2 == 0
    &&& run.inv(s)
    &&& {
        ||| s.head == mark(run.ann)
        ||| n.old_tail_node != 0 && !marked(s.head) && s.head == n.old_head_node
        ||| run.at is Restore && s.head != run.at->current
    }
    &&& match run.at {
        AnnStage::Tail => linked ==> s.pos(s.tail) < s.pos(first),
        AnnStage::TailCount { tail } => linked ==> s.pos(tail) < s.pos(first),
        AnnStage::First { tail, count } => linked ==> s.pos(tail) < s.pos(first),
        AnnStage::Link { tail, count, first: f } => linked ==> s.pos(tail) < s.pos(first),
        AnnStage::AdvanceTail { tail, next } => n.old_tail_node == 0 && linked && tail == s.tail
            ==> s.pos(next) < s.pos(first),
        AnnStage::Done => false,
        _ => true,
    }
}

/// What the thread has found at the tail is no longer there.
pub open spec fn out_of_date<T>(s: State<T>, run: ExecuteAnn) -> int {
    let fresh = match run.at {
        AnnStage::TailCount { tail } => tail == s.tail,
        AnnStage::First { tail, count } => tail == s.tail,
        AnnStage::Link { tail, count, first } => tail == s.tail,
        AnnStage::AdvanceTail { tail, next } => tail == s.tail && s.pos(next) == s.pos(tail) + 1,
        _ => true,
    };
    if fresh {
        0
    } else {
        1
    }
}

/// A thread that can go on with an announcement alone does not come late, and comes one access
/// closer to its end.
#[verifier::rlimit(60)]
proof fn goes_on_helping<T>(s: State<T>, run: ExecuteAnn)
    requires
        can_go_on(s, run),
    ensures
        !run.late(s),
        ({
            let s1 = s.after(run.access());
            let run1 = run.next(s.seen(run.access()));
            &&& s1.wf()
            &&& run1.ann == run.ann
            &&& !(run1.at is Done) ==> can_go_on(s1, run1)
            &&& !(run1.at is Done) ==> 0 <= out_of_date(s1, run1) < out_of_date(s, run) || (
            out_of_date(s1, run1) == out_of_date(s, run) && 0 <= at_most(s1, run1) < at_most(
                s,
                run,
            ))
        }),
{
    let s1 = s.after(run.access());
    let run1 = run.next(s.seen(run.access()));
    let n = s.ann(run.ann);
    s.places();
    s.follows(s.tail);
    assert(s.is_ann(run.ann));
    assert(s.ann_ok(n));
    assert(address(mark(run.ann)) == run.ann);
    match run.at {
        AnnStage::Link { tail, count, first } => {
            s.follows(tail);
        },
        _ => {},
    }
    assert(!run.late(s));
    run.step(s, Stake::none());
    s1.places();
    s.places_stay(s1);
    assert(s1.ann(run.ann).batch_req == n.batch_req);
}

/// A memory in which only the tail, counts and what is recorded of a batch that is linked have
/// changed, and in which nobody has to be waited for, holds what it did.
proof fn same_queue<T>(s: State<T>, s1: State<T>)
    requires
        quiet(s),
        s1.wf(),
        quiet(s1),
        s1.head == s.head,
        s1.chain == s.chain,
        s1.items() == s.items(),
        s1.drafts == s.drafts,
        s1.retired == s.retired,
        s1.retired_anns == s.retired_anns,
        s1.free == s.free,
        s1.published == s.published,
        s1.nodes.len() == s.nodes.len(),
        s1.anns.len() == s.anns.len(),
        forall|a: usize| s.is_node(a) ==> (#[trigger] s1.node(a)).item == s.node(a).item,
        forall|a: usize| s.is_ann(a) ==> (#[trigger] s1.ann(a)).batch_req == s.ann(a).batch_req,
        forall|a: usize|
            s.published.contains(a) ==> (#[trigger] s1.ann(a)).old_head_node == s.ann(
                a,
            ).old_head_node,
        forall|a: usize|
            s.is_ann(a) && !s.published.contains(a) ==> #[trigger] s1.ann(a) == s.ann(a),
    ensures
        settles(s, s1),
{
    if marked(s.head) {
        let ann = address(s.head);
        let first = s.ann(ann).batch_req.first_enq;
        assert(s.published.contains(ann));
        assert(s.is_ann(ann));
        assert(s1.ann(ann).batch_req == s.ann(ann).batch_req);
        assert(s1.ann(ann).old_head_node == s.ann(ann).old_head_node);
        if !s.chain.contains(first) {
            assert(s.ann_ok(s.ann(ann)));
            assert(s.draft_ok(first));
            assert(s1.items_of(s.drafts[first]) =~= s.items_of(s.drafts[first]));
        }
    }
}

/// A thread that goes on with an announcement alone leaves what the memory holds, counting in the
/// announced batch.
#[verifier::rlimit(60)]
proof fn helping_settles<T>(s: State<T>, run: ExecuteAnn)
    requires
        can_go_on(s, run),
    ensures
        settles(s, s.after(run.access())),
{
    let s1 = s.after(run.access());
    let run1 = run.next(s.seen(run.access()));
    let n = s.ann(run.ann);
    let first = n.batch_req.first_enq;
    goes_on_helping(s, run);
    s.places();
    assert(s.is_ann(run.ann));
    assert(s.ann_ok(n));
    assert(address(mark(run.ann)) == run.ann);
    assert(s1.items() == if run.links(s) {
        s.items() + s.items_of(run.batch(s))
    } else {
        s.items()
    }) by {
        run.step(s, Stake::none());
    }
    match run.at {
        AnnStage::Link { tail, count, first: f } => {
            s.follows(tail);
            if s.node(tail).next == 0 {
                put_facts(s.nodes, tail, Node { next: f, ..s.node(tail) });
                assert(s.draft_ok(f));
                assert(s1.chain[s.chain.len() as int] == first);
                assert(s1.chain.contains(first));
                assert(s.head == mark(run.ann));
                assert forall|g: usize| #[trigger]
                    s.drafts.contains_key(g) && !full_chain(s).contains(g) implies {
                    &&& s1.drafts.contains_key(g)
                    &&& s1.drafts[g] == s.drafts[g]
                } by {}
            } else {
                same_queue(s, s1);
            }
        },
        AnnStage::RecordTail { tail, count } => {
            put_facts(s.anns, run.ann, Ann { old_tail_node: tail, ..n });
            same_queue(s, s1);
        },
        AnnStage::RecordCount { count } => {
            put_facts(s.anns, run.ann, Ann { old_tail_count: count, ..n });
            same_queue(s, s1);
        },
        AnnStage::SetCount { old_tail, last, count } => {
            put_facts(s.nodes, last, Node { count, ..s.node(last) });
            same_queue(s, s1);
        },
        AnnStage::Restore { current, old_head } => {
            if s.head == mark(run.ann) {
                s1.places();
            } else {
                same_queue(s, s1);
            }
        },
        _ => {
            same_queue(s, s1);
        },
    }
}

impl Op {
    /// The operation, set out anew.
    pub open spec fn anew(self) -> Self {
        match self {
            Op::Enqueue(op) => Op::Enqueue(Enqueue { at: EnqueueStage::Tail, ..op }),
            Op::Dequeue(op) => Op::Dequeue(Dequeue::start()),
            Op::EnqueueBatch(op) => Op::EnqueueBatch(EnqueueBatch::start(op.ann)),
            Op::DequeueBatch(op) => Op::DequeueBatch(DequeueBatch::start(op.max)),
        }
    }

    /// The operation is carrying out its own announcement.
    pub open spec fn executes(self) -> bool {
        self is EnqueueBatch && self->EnqueueBatch_0.at is Execute
    }
}

/// An operation that helps with an announcement, and can go on with it alone, comes back to its own
/// business and starts anew.
#[verifier::rlimit(60)]
pub proof fn helper_returns<T>(s: State<T>, op: Op) -> (num: nat)
    requires
        op.inv(s),
        op.run() is Some,
        !op.executes(),
        can_go_on(s, op.run()->0),
    ensures
        machine_alone(s, op, num) == op.anew(),
        op.anew().inv(memory_alone(s, op, num)),
        settles(s, memory_alone(s, op, num)),
        given_alone(s, op, num).len() == 0,
        s.head == mark(op.run()->0.ann) ==> !marked(memory_alone(s, op, num).head),
    decreases out_of_date(s, op.run()->0), at_most(s, op.run()->0),
{
    let run = op.run()->0;
    let s1 = s.after(op.access());
    let op1 = op.next(s.seen(op.access()));
    let run1 = run.next(s.seen(run.access()));
    goes_on_helping(s, run);
    helping_settles(s, run);
    assert(op.access() == run.access());
    assert(!op.late(s));
    op.step(s);
    if run1.at is Done {
        assert(op1 == op.anew());
        assert(machine_alone(s, op, 1) == machine_alone(s1, op1, 0));
        assert(memory_alone(s, op, 1) == memory_alone(s1, op1, 0));
        assert(given_alone(s, op, 1) == op.given(s) + given_alone(s1, op1, 0));
        1
    } else {
        assert(op1.run() == Some(run1));
        let rest = helper_returns(s1, op1);
        settles_on(s, s1, memory_alone(s1, op1, rest));
        rest + 1
    }
}

/// A thread that carries out an announcement, and can go on with it alone, comes to its end,
/// wherever others have left it. If the announcement stands in the head, its batch is in the queue
/// then; in any case the queue holds what it did, counting in an announced batch.
#[verifier::rlimit(60)]
pub proof fn helper_gets_done_anyhow<T>(s: State<T>, run: ExecuteAnn) -> (num: nat)
    requires
        can_go_on(s, run),
    ensures
        machine_alone(s, run, num) == (ExecuteAnn { at: AnnStage::Done, ..run }),
        settles(s, memory_alone(s, run, num)),
        ({
            let s1 = memory_alone(s, run, num);
            &&& s1.chain.contains(s.ann(run.ann).batch_req.first_enq)
            &&& s.head == mark(run.ann) ==> {
                &&& s1.head == s.ann(run.ann).old_head_node
                &&& s1.chain == chain_with(s, run.ann)
                &&& s1.items() == items_with(s, run.ann)
            }
            &&& s.head != mark(run.ann) ==> {
                &&& s1.head == s.head
                &&& s1.chain == s.chain
                &&& s1.items() == s.items()
            }
        }),
    decreases out_of_date(s, run), at_most(s, run),
{
    let s1 = s.after(run.access());
    let run1 = run.next(s.seen(run.access()));
    let n = s.ann(run.ann);
    goes_on_helping(s, run);
    helping_settles(s, run);
    assert(address(mark(run.ann)) == run.ann);
    s.places();
    assert(s.is_ann(run.ann));
    assert(s.ann_ok(n));
    assert(s.grows_to(s1) && run1.inv(s1)) by {
        run.step(s, Stake::none());
    }
    assert(s1.ann(run.ann).batch_req == n.batch_req);
    assert(s1.ann(run.ann).old_head_node == n.old_head_node);
    if run1.at is Done {
        assert(machine_alone(s, run, 1) == machine_alone(s1, run1, 0));
        assert(memory_alone(s, run, 1) == memory_alone(s1, run1, 0));
        assert(s1.is_ann(run.ann));
        assert(s1.ann_ok(s1.ann(run.ann)));
        1
    } else {
        let rest = helper_gets_done_anyhow(s1, run1);
        settles_on(s, s1, memory_alone(s1, run1, rest));
        assert(s.head != mark(run.ann) ==> s1.chain == s.chain && s1.items() == s.items()
            && s1.head == s.head) by {
            run.step(s, Stake::none());
        }
        rest + 1
    }
}

/// Carrying out the announcement in the head leaves what the memory holds, counting in the batch.
proof fn cleared_settles<T>(s: State<T>, s1: State<T>)
    requires
        quiet(s),
        cleared(s, s1),
    ensures
        settles(s, s1),
{
    cleared_head(s, s1);
    if marked(s.head) {
        let ann = address(s.head);
        let first = s.ann(ann).batch_req.first_enq;
        s1.places();
        assert(s.published.contains(ann));
        assert(s.is_ann(ann));
        assert(s.ann_ok(s.ann(ann)));
        assert(full_chain(s).contains(first)) by {
            if !s.chain.contains(first) {
                assert(s.draft_ok(first));
                assert(full_chain(s)[s.chain.len() as int] == first);
            }
        }
    }
}

/// A thread that looks for the node in the head finds it when it goes on alone, wherever others have
/// left it, also where it holds a word that is no longer there. An announcement in the head is
/// carried out first.
pub proof fn looker_finds_head_anyhow<T>(s: State<T>, help: HelpHead) -> (num: nat)
    requires
        quiet(s),
        help.inv(s),
        !(help is Done),
        help is Help ==> can_go_on(s, help->run),
    ensures
        machine_alone(s, help, num) == (HelpHead::Done { node: s.head_node() }),
        settles(s, memory_alone(s, help, num)),
        memory_alone(s, help, num).head == s.head_node(),
    decreases
            if help is Help {
                2int
            } else if help is Confirm {
                1int
            } else {
                0int
            },
            if help is Help {
                out_of_date(s, help->run)
            } else {
                0
            },
            if help is Help {
                at_most(s, help->run)
            } else {
                0
            },
{
    let s1 = s.after(help.access());
    let help1 = help.next(s.seen(help.access()));
    s.places();
    match help {
        HelpHead::Help { run } => {
            goes_on_helping(s, run);
            helping_settles(s, run);
            assert(help1.inv(s1)) by {
                help.step(s, Stake::none());
            }
            let rest = looker_finds_head_anyhow(s1, help1);
            settles_on(s, s1, memory_alone(s1, help1, rest));
            rest + 1
        },
        HelpHead::Confirm { word } => {
            if word == s.head {
                let num = looker_finds_head(s, help);
                cleared_head(s, memory_alone(s, help, num));
                cleared_settles(s, memory_alone(s, help, num));
                num
            } else {
                let rest = looker_finds_head_anyhow(s1, help1);
                rest + 1
            }
        },
        _ => {
            let num = looker_finds_head(s, help);
            cleared_head(s, memory_alone(s, help, num));
            cleared_settles(s, memory_alone(s, help, num));
            num
        },
    }
}

/// An operation that looks for the node in the head, or has found it, and has not removed anything
/// yet, can go on alone.
pub open spec fn can_look<T>(s: State<T>, help: HelpHead) -> bool {
    help is Help ==> can_go_on(s, help->run)
}

/// The oldest item of what the memory `s` holds, counting in an announced batch, was taken, and the
/// node that was in the head was retired; or nothing was taken, since there is nothing.
pub open spec fn taken_from_full<T>(s: State<T>, s1: State<T>, end: Dequeue, given: Seq<T>) -> bool {
    &&& s1.wf()
    &&& s1.chain == full_chain(s)
    &&& s1.free == s.free
    &&& s1.retired_anns == s.retired_anns
    &&& if full_items(s).len() == 0 {
        &&& end is Empty
        &&& given.len() == 0
        &&& s1.items() == full_items(s)
        &&& s1.head == s.head_node()
        &&& s1.retired == s.retired
    } else {
        &&& end is Taken
        &&& given == full_items(s).take(1)
        &&& s1.items() == full_items(s).skip(1)
        &&& s1.head == full_chain(s)[s.hpos() + 1]
        &&& s1.retired == s.retired.push(s.head_node())
    }
}

/// What comes of an operation that takes an item when it goes on alone, wherever others have left
/// it. If it has moved the head, it takes the item that it has removed. If it finds nothing behind
/// the node that it found in the head, it ends with nothing; the queue is empty then. Otherwise it
/// takes the oldest item that there is, whatever it knew.
pub open spec fn taken_anyhow<T>(
    s: State<T>,
    op: Dequeue,
    s1: State<T>,
    end: Dequeue,
    given: Seq<T>,
) -> bool {
    match op {
        Dequeue::Retire { head, node } => taken(s, op, s1, end, given),
        Dequeue::Take { node } => taken(s, op, s1, end, given),
        Dequeue::Taken => taken(s, op, s1, end, given),
        Dequeue::Empty => taken(s, op, s1, end, given),
        Dequeue::Next { head } => if s.node(head).next == 0 {
            &&& end is Empty
            &&& given.len() == 0
            &&& s1 == s
            &&& s.items().len() == 0
        } else {
            taken_from_full(s, s1, end, given)
        },
        _ => taken_from_full(s, s1, end, given),
    }
}

/// What a thread that is right about the memory takes is the oldest item that there is.
proof fn right_takes_from_full<T>(
    s: State<T>,
    op: Dequeue,
    s1: State<T>,
    end: Dequeue,
    given: Seq<T>,
)
    requires
        quiet(s),
        takes_alone(s, op),
        taken(s, op, s1, end, given),
        op is Help ==> !(op->help is Help),
        op is Next ==> s.node(op->Next_head).next != 0,
        !(op is Retire || op is Take || op is Taken || op is Empty),
    ensures
        taken_from_full(s, s1, end, given),
{
    full_queue(s);
    s.places();
    let c = full_chain(s);
    let h = s.hpos();
    assert(c[h] == s.head_node());
    assert(c.subrange(h, h + 1) =~= seq![s.head_node()]);
    assert(c.subrange(h, h) =~= Seq::empty());
    assert(s.retired + seq![s.head_node()] =~= s.retired.push(s.head_node()));
    assert(s.retired + Seq::<usize>::empty() =~= s.retired);
    assert(full_items(s).skip(0) =~= full_items(s));
}

/// An operation that takes an item comes to its end when it goes on alone, wherever others have left
/// it: also where another thread has moved the head in the meantime, so that it has to start again.
pub proof fn taker_gets_done_anyhow<T>(s: State<T>, op: Dequeue) -> (num: nat)
    requires
        quiet(s),
        op.inv(s),
        op is Help ==> can_look(s, op->help),
    ensures
        machine_alone(s, Op::Dequeue(op), num) is Dequeue,
        machine_alone(s, Op::Dequeue(op), num)->Dequeue_0.is_over(),
        taken_anyhow(
            s,
            op,
            memory_alone(s, Op::Dequeue(op), num),
            machine_alone(s, Op::Dequeue(op), num)->Dequeue_0,
            given_alone(s, Op::Dequeue(op), num),
        ),
    decreases
            (match op {
                Dequeue::Next { head } => 5int,
                Dequeue::Again { head, next } => 4,
                Dequeue::Advance { head, next, node } => 3,
                Dequeue::Help { help } => if help is Load {
                    1
                } else {
                    2
                },
                _ => 0,
            }),
{
    let m = Op::Dequeue(op);
    let s1 = s.after(op.access());
    let op1 = op.next(s.seen(op.access()));
    s.places();
    if op is Help && op->help is Help {
        let back = helper_returns(s, m);
        let s2 = memory_alone(s, m, back);
        let more = taker_gets_done(s2, Dequeue::start());
        right_takes_from_full(
            s2,
            Dequeue::start(),
            memory_alone(s2, m.anew(), more),
            machine_alone(s2, m.anew(), more)->Dequeue_0,
            given_alone(s2, m.anew(), more),
        );
        one_by_one(s, m, back, more);
        handed_out_one_by_one(s, m, back, more);
        assert(given_alone(s, m, back + more) =~= given_alone(s2, m.anew(), more));
        full_queue(s);
        full_queue(s2);
        back + more
    } else if op is Next && s.node(op->Next_head).next == 0 {
        op.step(s);
        assert(machine_alone(s, m, 1) == machine_alone(s1, Op::Dequeue(op1), 0));
        assert(memory_alone(s, m, 1) == memory_alone(s1, Op::Dequeue(op1), 0));
        assert(given_alone(s, m, 1) == m.given(s) + given_alone(s1, Op::Dequeue(op1), 0));
        1
    } else if takes_alone(s, op) {
        let num = taker_gets_done(s, op);
        if !(op is Retire || op is Take || op is Taken || op is Empty) {
            right_takes_from_full(
                s,
                op,
                memory_alone(s, m, num),
                machine_alone(s, m, num)->Dequeue_0,
                given_alone(s, m, num),
            );
        }
        num
    } else {
        op.step(s);
        if op is Next {
            s.follows(op->Next_head);
        }
        assert(s1 == s);
        let rest = taker_gets_done_anyhow(s1, op1);
        assert(given_alone(s, m, rest + 1) =~= given_alone(s1, Op::Dequeue(op1), rest));
        rest + 1
    }
}

/// What comes of an operation that adds a batch when it goes on alone, wherever others have left it.
/// If it has not announced the batch, the batch goes behind all that the queue holds, counting in
/// one that another thread has announced, and what was in the head is there again. If it has, the
/// batch is part of the queue then, once.
pub open spec fn batch_added_anyhow<T>(
    s: State<T>,
    op: EnqueueBatch,
    s1: State<T>,
    end: EnqueueBatch,
) -> bool {
    let n = s.ann(op.ann);
    let d = s.drafts[n.batch_req.first_enq];
    &&& end.ann == op.ann
    &&& end.is_done()
    &&& match op.at {
        EnqueueBatchStage::Execute { head, run } => {
            &&& s1.wf()
            &&& end.old_head_is(head)
            &&& s1.chain.contains(n.batch_req.first_enq)
            &&& s1.chain == chain_with(s, op.ann)
            &&& s1.items() == items_with(s, op.ann)
            &&& s1.head == if s.head == mark(op.ann) {
                n.old_head_node
            } else {
                s.head
            }
            &&& s1.retired_anns == s.retired_anns.push(op.ann)
            &&& s1.retired == s.retired
        },
        EnqueueBatchStage::Retire { head } => {
            &&& end.old_head_is(head)
            &&& s1 == s.after(Access::RetireAnn { ann: op.ann })
        },
        EnqueueBatchStage::Done { head } => end == op && s1 == s,
        _ => {
            &&& end.old_head_is(s.head_node())
            &&& announced_and_done(
                s,
                op.ann,
                full_chain(s) + d,
                full_items(s) + s.items_of(d),
                s.head_node(),
                n.batch_req.last_enq,
                s1,
            )
        },
    }
}

impl EnqueueBatch {
    /// The operation hands back `head` as the node that the announcement took the place of.
    pub open spec fn old_head_is(self, head: usize) -> bool {
        self.at == EnqueueBatchStage::Done { head }
    }
}

/// The list that an operation is to announce is not part of what another has announced.
proof fn own_batch_waits<T>(s: State<T>, op: EnqueueBatch)
    requires
        quiet(s),
        op.ready(s),
    ensures
        !full_chain(s).contains(s.ann(op.ann).batch_req.first_enq),
{
    let first = s.ann(op.ann).batch_req.first_enq;
    let d = s.drafts[first];
    s.places();
    assert(s.draft_ok(first));
    assert(d[0] == first);
    assert(!s.chain.contains(first));
    if marked(s.head) {
        let ann = address(s.head);
        let other = s.ann(ann).batch_req.first_enq;
        assert(s.published.contains(ann));
        assert(s.is_ann(ann));
        assert(s.ann_ok(s.ann(ann)));
        assert(other != first);
        if !s.chain.contains(other) && full_chain(s).contains(first) {
            let i = full_chain(s).index_of(first);
            assert(full_chain(s)[i] == first);
            if i < s.chain.len() {
                assert(s.chain[i] == first);
            } else {
                assert(s.drafts[other][i - s.chain.len()] != d[0]);
            }
        }
    }
}

/// An operation whose announcement is carried out has one access left.
proof fn retiring_is_last<T>(s: State<T>, op: EnqueueBatch)
    requires
        s.wf(),
        op.inv(s),
        op.at is Retire,
    ensures
        machine_alone(s, Op::EnqueueBatch(op), 1) == Op::EnqueueBatch(
            EnqueueBatch {
                ann: op.ann,
                at: EnqueueBatchStage::Done { head: op.at->Retire_head },
            },
        ),
        memory_alone(s, Op::EnqueueBatch(op), 1) == s.after(Access::RetireAnn { ann: op.ann }),
        s.after(Access::RetireAnn { ann: op.ann }).wf(),
        s.after(Access::RetireAnn { ann: op.ann }).items() == s.items(),
{
    let s1 = s.after(op.access());
    let op1 = op.next(s.seen(op.access()));
    op.step(s);
    assert(machine_alone(s, Op::EnqueueBatch(op), 1) == machine_alone(
        s1,
        Op::EnqueueBatch(op1),
        0,
    ));
    assert(memory_alone(s, Op::EnqueueBatch(op), 1) == memory_alone(s1, Op::EnqueueBatch(op1), 0));
}

/// An operation that carries out its own announcement comes to its end when it goes on alone,
/// wherever others have left it, also where they have carried the announcement out.
#[verifier::rlimit(60)]
proof fn own_announcement_gets_done<T>(s: State<T>, op: EnqueueBatch) -> (num: nat)
    requires
        op.inv(s),
        op.at is Execute,
        can_go_on(s, op.at->Execute_run),
    ensures
        machine_alone(s, Op::EnqueueBatch(op), num) is EnqueueBatch,
        batch_added_anyhow(
            s,
            op,
            memory_alone(s, Op::EnqueueBatch(op), num),
            machine_alone(s, Op::EnqueueBatch(op), num)->EnqueueBatch_0,
        ),
    decreases out_of_date(s, op.at->Execute_run), at_most(s, op.at->Execute_run),
{
    let m = Op::EnqueueBatch(op);
    let run = op.at->Execute_run;
    let head = op.at->Execute_head;
    let s1 = s.after(op.access());
    let op1 = op.next(s.seen(op.access()));
    let m1 = Op::EnqueueBatch(op1);
    let run1 = run.next(s.seen(run.access()));
    let n = s.ann(op.ann);
    goes_on_helping(s, run);
    helping_settles(s, run);
    s.places();
    assert(address(mark(run.ann)) == run.ann);
    assert(s.is_ann(op.ann));
    assert(s.ann_ok(n));
    assert(s.grows_to(s1) && op1.inv(s1)) by {
        op.step(s);
    }
    assert(s1.ann(op.ann).batch_req == n.batch_req);
    assert(s1.ann(op.ann).old_head_node == n.old_head_node);
    assert(s.head != mark(run.ann) ==> s1.chain == s.chain && s1.items() == s.items() && s1.head
        == s.head) by {
        run.step(s, Stake::none());
    }
    if run1.at is Done {
        retiring_is_last(s1, op1);
        assert(machine_alone(s, m, 2) == machine_alone(s1, m1, 1));
        assert(memory_alone(s, m, 2) == memory_alone(s1, m1, 1));
        assert(s1.is_ann(op.ann));
        assert(s1.ann_ok(s1.ann(op.ann)));
        2
    } else {
        let rest = own_announcement_gets_done(s1, op1);
        rest + 1
    }
}

/// An operation that adds a batch comes to its end when it goes on alone, wherever others have left
/// it: also where the node that it found in the head is no longer there, so that it has to look for
/// the head again. The batch is then at the end of the queue.
#[verifier::rlimit(60)]
pub proof fn announcer_gets_done_anyhow<T>(s: State<T>, op: EnqueueBatch) -> (num: nat)
    requires
        quiet(s),
        op.inv(s),
        op.at is Help ==> can_look(s, op.at->help),
        op.at is Execute ==> can_go_on(s, op.at->Execute_run),
    ensures
        machine_alone(s, Op::EnqueueBatch(op), num) is EnqueueBatch,
        batch_added_anyhow(
            s,
            op,
            memory_alone(s, Op::EnqueueBatch(op), num),
            machine_alone(s, Op::EnqueueBatch(op), num)->EnqueueBatch_0,
        ),
    decreases
            (match op.at {
                EnqueueBatchStage::Count { head } => 5int,
                EnqueueBatchStage::SetHead { head, count } => 4,
                EnqueueBatchStage::Enter { head } => 3,
                EnqueueBatchStage::Help { help } => if help is Load {
                    1
                } else {
                    2
                },
                _ => 0,
            }),
{
    let m = Op::EnqueueBatch(op);
    let s1 = s.after(op.access());
    let op1 = op.next(s.seen(op.access()));
    let n = s.ann(op.ann);
    let first = n.batch_req.first_enq;
    s.places();
    assert(s.is_ann(op.ann));
    if op.at is Execute {
        own_announcement_gets_done(s, op)
    } else if op.at is Help && op.at->help is Help {
        let back = helper_returns(s, m);
        let s2 = memory_alone(s, m, back);
        let more = announcer_gets_done(s2, EnqueueBatch::start(op.ann));
        one_by_one(s, m, back, more);
        own_batch_waits(s, op);
        assert(s2.ann(op.ann) == n);
        assert(s.draft_ok(first));
        assert(s2.items_of(s.drafts[first]) =~= s.items_of(s.drafts[first]));
        back + more
    } else if adds_batch_alone(s, op) {
        announcer_gets_done(s, op)
    } else {
        op.step(s);
        match op.at {
            EnqueueBatchStage::SetHead { head, count } => {
                let n1 = Ann { old_head_node: head, old_head_count: count, ..n };
                put_facts(s.anns, op.ann, n1);
                assert(s.draft_ok(first));
                assert(s1.items_of(s.drafts[first]) =~= s.items_of(s.drafts[first]));
                if marked(s.head) {
                    let ann = address(s.head);
                    let other = s.ann(ann).batch_req.first_enq;
                    assert(s.published.contains(ann));
                    assert(s1.ann(ann) == s.ann(ann));
                    assert(s.ann_ok(s.ann(ann)));
                    assert(s1.items_of(s.drafts[other]) =~= s.items_of(s.drafts[other]));
                }
            },
            _ => {
                assert(s1 == s);
            },
        }
        let rest = announcer_gets_done_anyhow(s1, op1);
        rest + 1
    }
}

/// The announcement in the head is carried out before the node is added.
pub open spec fn helps_first<T>(s: State<T>, op: Enqueue) -> bool {
    match op.at {
        EnqueueStage::Link { tail } => tail != s.chain.last(),
        EnqueueStage::Head { tail, next } => true,
        EnqueueStage::ConfirmAnn { word } => word == s.head || s.tail != s.chain.last(),
        EnqueueStage::Help { run } => s.head == mark(run.ann) || s.tail != s.chain.last(),
        EnqueueStage::AdvanceTail { tail, next } => s.chain.last() != if tail == s.tail {
            next
        } else {
            s.tail
        },
        _ => s.tail != s.chain.last(),
    }
}

/// What comes of an operation that adds a node when it goes on alone, wherever others have left it:
/// the node is at the end of the list, once, and its item at the end of the queue. An announcement
/// in the head has been carried out before, or is left standing.
pub open spec fn added_anyhow<T>(s: State<T>, op: Enqueue, s1: State<T>) -> bool {
    let item = s.node(op.node).item->0;
    &&& s1.wf()
    &&& s1.retired == s.retired
    &&& s1.retired_anns == s.retired_anns
    &&& s1.free == s.free
    &&& if op.linked() {
        &&& s1.chain == s.chain
        &&& s1.items() == s.items()
        &&& s1.head == s.head
        &&& op.at is SwingTail ==> s1.tail == if s.tail == op.at->SwingTail_tail {
            op.node
        } else {
            s.tail
        }
    } else if helps_first(s, op) {
        &&& s1.chain == full_chain(s).push(op.node)
        &&& s1.items() == full_items(s).push(item)
        &&& s1.head == s.head_node()
        &&& s1.tail == op.node
    } else {
        &&& s1.chain == s.chain.push(op.node)
        &&& s1.items() == s.items().push(item)
        &&& s1.head == s.head
        &&& op.at is Link && op.at->Link_tail != s.tail || s1.tail == op.node
    }
}

/// An operation that adds a node can go on alone. What is left out is one that would move the tail
/// past the node before a batch that is linked and not recorded as linked.
pub open spec fn can_add<T>(s: State<T>, op: Enqueue) -> bool {
    &&& quiet(s)
    &&& op.inv(s)
    &&& match op.at {
        EnqueueStage::Help { run } => can_go_on(s, run),
        EnqueueStage::AdvanceTail { tail, next } => tail == s.tail ==> quiet(
            State { tail: next, ..s },
        ),
        _ => true,
    }
}

/// An operation that has linked its node has one access left.
proof fn swing_is_last<T>(s: State<T>, op: Enqueue)
    requires
        s.wf(),
        op.inv(s),
        op.at is SwingTail,
    ensures
        machine_alone(s, Op::Enqueue(op), 1) == Op::Enqueue(
            Enqueue { at: EnqueueStage::Done, ..op },
        ),
        added_anyhow(s, op, memory_alone(s, Op::Enqueue(op), 1)),
{
    let s1 = s.after(op.access());
    let op1 = op.next(s.seen(op.access()));
    op.step(s);
    assert(machine_alone(s, Op::Enqueue(op), 1) == machine_alone(s1, Op::Enqueue(op1), 0));
    assert(memory_alone(s, Op::Enqueue(op), 1) == memory_alone(s1, Op::Enqueue(op1), 0));
}

/// An operation that tries to link its node behind the last one has two accesses left.
proof fn link_is_last_but_one<T>(s: State<T>, op: Enqueue)
    requires
        s.wf(),
        op.inv(s),
        op.at is Link,
        op.at->Link_tail == s.chain.last(),
    ensures
        machine_alone(s, Op::Enqueue(op), 2) == Op::Enqueue(
            Enqueue { at: EnqueueStage::Done, ..op },
        ),
        added_anyhow(s, op, memory_alone(s, Op::Enqueue(op), 2)),
{
    let s1 = s.after(op.access());
    let op1 = op.next(s.seen(op.access()));
    s.places();
    s.follows(op.at->Link_tail);
    op.step(s);
    assert(s1.chain =~= s.chain.push(op.node));
    swing_is_last(s1, op1);
    assert(machine_alone(s, Op::Enqueue(op), 2) == machine_alone(s1, Op::Enqueue(op1), 1));
    assert(memory_alone(s, Op::Enqueue(op), 2) == memory_alone(s1, Op::Enqueue(op1), 1));
}

/// An operation that helps before it adds its node comes back and adds it.
proof fn adder_comes_back<T>(s: State<T>, op: Enqueue) -> (num: nat)
    requires
        can_add(s, op),
        op.at is Help,
        !(op.at->run.at is Restore && s.head != op.at->run.at->current),
    ensures
        machine_alone(s, Op::Enqueue(op), num) == Op::Enqueue(
            Enqueue { at: EnqueueStage::Done, ..op },
        ),
        added_anyhow(s, op, memory_alone(s, Op::Enqueue(op), num)),
{
    let m = Op::Enqueue(op);
    let run = op.at->run;
    let back = helper_returns(s, m);
    let s2 = memory_alone(s, m, back);
    let op2 = Enqueue { at: EnqueueStage::Tail, ..op };
    let more = adder_gets_done(s2, op2);
    one_by_one(s, m, back, more);
    assert(s.draft_ok(op.node));
    assert(s.is_node(s.drafts[op.node][0]));
    assert(s2.node(op.node).item == s.node(op.node).item);
    assert(address(mark(run.ann)) == run.ann);
    back + more
}

/// An access that only shows an operation that what it knew is out of date, or moves the tail on,
/// leaves what comes of the operation.
proof fn adder_looks_again<T>(s: State<T>, op: Enqueue, s2: State<T>)
    requires
        can_add(s, op),
        op.at is Link ==> op.at->Link_tail != s.chain.last(),
        op.at is ConfirmAnn ==> op.at->word != s.head,
        op.at is Help ==> op.at->run.at is Restore && s.head != op.at->run.at->current,
        !op.linked(),
        !(op.at is Tail),
    ensures
        ({
            let s1 = s.after(op.access());
            let op1 = op.next(s.seen(op.access()));
            &&& can_add(s1, op1)
            &&& op1.node == op.node
            &&& op.at is Link ==> op1.at is Head
            &&& op.at is Head ==> op1.at is ConfirmAnn || op1.at is AdvanceTail
            &&& op.at is ConfirmAnn || op.at is AdvanceTail || op.at is Help ==> op1.at is Tail
            &&& added_anyhow(s1, op1, s2) ==> added_anyhow(s, op, s2)
        }),
{
    let s1 = s.after(op.access());
    let op1 = op.next(s.seen(op.access()));
    if op.at is Help {
        goes_on_helping(s, op.at->run);
    }
    assert(s1.wf() && op1.inv(s1)) by {
        op.step(s);
    }
    match op.at {
        EnqueueStage::Head { tail, next } => {
            s.tail_moves(next, Stake::none());
        },
        EnqueueStage::Link { tail } => {
            s.follows(tail);
        },
        EnqueueStage::AdvanceTail { tail, next } => {
            if tail == s.tail {
                s.tail_moves(next, Stake::none());
            }
        },
        _ => {},
    }
}

/// An operation that adds a node comes to its end when it goes on alone, wherever others have left
/// it: also where the announcement that it came across is gone, or the tail has moved on.
pub proof fn adder_gets_done_anyhow<T>(s: State<T>, op: Enqueue) -> (num: nat)
    requires
        can_add(s, op),
    ensures
        machine_alone(s, Op::Enqueue(op), num) == Op::Enqueue(
            Enqueue { at: EnqueueStage::Done, ..op },
        ),
        added_anyhow(s, op, memory_alone(s, Op::Enqueue(op), num)),
    decreases
            (match op.at {
                EnqueueStage::Link { tail } => 6int,
                EnqueueStage::Head { tail, next } => 5,
                EnqueueStage::AdvanceTail { tail, next } => 4,
                EnqueueStage::ConfirmAnn { word } => 4,
                EnqueueStage::Help { run } => 4,
                _ => 3,
            }),
{
    let m = Op::Enqueue(op);
    if op.at is Done {
        0
    } else if op.at is SwingTail {
        swing_is_last(s, op);
        1
    } else if op.at is Link && op.at->Link_tail == s.chain.last() {
        link_is_last_but_one(s, op);
        2
    } else if op.at is Help && !(op.at->run.at is Restore && s.head != op.at->run.at->current) {
        adder_comes_back(s, op)
    } else if op.at is Tail {
        adder_gets_done(s, op)
    } else if op.at is ConfirmAnn && op.at->word == s.head {
        adder_gets_done(s, op)
    } else {
        let s1 = s.after(op.access());
        let op1 = op.next(s.seen(op.access()));
        adder_looks_again(s, op, s);
        let rest = adder_gets_done_anyhow(s1, op1);
        adder_looks_again(s, op, memory_alone(s1, Op::Enqueue(op1), rest));
        rest + 1
    }
}

/// The `num` oldest items of what the memory `s` holds, counting in an announced batch, were taken,
/// in their order, and the nodes that the head has moved over were retired.
pub open spec fn batch_taken_from_full<T>(
    s: State<T>,
    num: int,
    s1: State<T>,
    given: Seq<T>,
) -> bool {
    &&& s1.wf()
    &&& given == full_items(s).take(num)
    &&& s1.items() == full_items(s).skip(num)
    &&& s1.chain == full_chain(s)
    &&& s1.head == full_chain(s)[s.hpos() + num]
    &&& s1.retired == s.retired + full_chain(s).subrange(s.hpos(), s.hpos() + num)
    &&& s1.retired_anns == s.retired_anns
    &&& s1.free == s.free
}

/// What comes of an operation that takes a batch when it goes on alone, wherever others have left
/// it. If it has moved the head, it takes the items that it has removed. If it has counted its items
/// and the head has not moved since, it takes as many as it has counted. If it finds nothing behind
/// the node that it found in the head, it ends with nothing; the queue is empty then. Otherwise it
/// takes as many as there are, but at most `max`, whatever it knew.
pub open spec fn batch_taken_anyhow<T>(
    s: State<T>,
    op: DequeueBatch,
    s1: State<T>,
    given: Seq<T>,
) -> bool {
    let num_there = batch_len(full_items(s).len(), op.max as nat) as int;
    match op.at {
        DequeueBatchStage::Next { node, left } => batch_taken(s, op, s1, given),
        DequeueBatchStage::Take { node, next, left } => batch_taken(s, op, s1, given),
        DequeueBatchStage::Retire { node, next, left } => batch_taken(s, op, s1, given),
        DequeueBatchStage::Done => batch_taken(s, op, s1, given),
        DequeueBatchStage::Count { start } => if op.max == 0 {
            given.len() == 0 && s1 == s
        } else if s.node(start).next == 0 {
            given.len() == 0 && s1 == s && s.items().len() == 0
        } else {
            batch_taken_from_full(s, num_there, s1, given)
        },
        DequeueBatchStage::Walk { start, count, node, num } => if num == 0 && s.node(node).next
            == 0 {
            given.len() == 0 && s1 == s && s.items().len() == 0
        } else {
            batch_taken_from_full(s, num_there, s1, given)
        },
        DequeueBatchStage::SetCount { start, count, node, num } => batch_taken_from_full(
            s,
            if start == s.head {
                num as int
            } else {
                num_there
            },
            s1,
            given,
        ),
        DequeueBatchStage::Advance { start, node, num } => batch_taken_from_full(
            s,
            if start == s.head {
                num as int
            } else {
                num_there
            },
            s1,
            given,
        ),
        DequeueBatchStage::Help { help } => batch_taken_from_full(s, num_there, s1, given),
    }
}

/// An operation that is about to move the head from where it stands takes what it has counted.
proof fn counted_are_taken<T>(s: State<T>, op: DequeueBatch) -> (num: nat)
    requires
        quiet(s),
        op.inv(s),
        op.at is Advance,
        op.at->Advance_start == s.head,
    ensures
        machine_alone(s, Op::DequeueBatch(op), num) == Op::DequeueBatch(
            DequeueBatch { at: DequeueBatchStage::Done, ..op },
        ),
        batch_taken_from_full(
            s,
            op.at->Advance_num as int,
            memory_alone(s, Op::DequeueBatch(op), num),
            given_alone(s, Op::DequeueBatch(op), num),
        ),
{
    let m = Op::DequeueBatch(op);
    let k = op.at->Advance_num as int;
    let s1 = s.after(op.access());
    let op1 = op.next(s.seen(op.access()));
    s.places();
    assert(!marked(s.head));
    op.step(s);
    let rest = batch_taker_gets_done(s1, op1);
    assert(given_alone(s, m, rest + 1) =~= given_alone(s1, Op::DequeueBatch(op1), rest));
    rest + 1
}

/// What a thread that is right about the memory takes are the oldest items that there are.
proof fn right_takes_batch_from_full<T>(
    s: State<T>,
    op: DequeueBatch,
    s1: State<T>,
    given: Seq<T>,
)
    requires
        quiet(s),
        takes_batch_alone(s, op),
        batch_taken(s, op, s1, given),
        op.at is Help && !(op.at->help is Help) || op.at is Count || op.at is Walk,
    ensures
        batch_taken_from_full(
            s,
            batch_len(full_items(s).len(), op.max as nat) as int,
            s1,
            given,
        ),
{
    full_queue(s);
}

/// Setting the count of a node leaves what the memory holds.
proof fn count_settles<T>(s: State<T>, node: usize, count: usize)
    requires
        quiet(s),
        s.is_node(node),
    ensures
        settles(s, s.after(Access::StoreCount { node, count })),
{
    let s1 = s.after(Access::StoreCount { node, count });
    s.count_changes(node, count, Stake::none());
    put_facts(s.nodes, node, Node { count, ..s.node(node) });
    assert(quiet(s1));
    same_queue(s, s1);
}

/// An operation that takes a batch comes to its end when it goes on alone, wherever others have left
/// it: also where another thread has moved the head in the meantime, so that it has to count again.
#[verifier::rlimit(60)]
pub proof fn batch_taker_gets_done_anyhow<T>(s: State<T>, op: DequeueBatch) -> (num: nat)
    requires
        quiet(s),
        op.inv(s),
        op.at is Help ==> can_look(s, op.at->help),
    ensures
        machine_alone(s, Op::DequeueBatch(op), num) == Op::DequeueBatch(
            DequeueBatch { at: DequeueBatchStage::Done, ..op },
        ),
        batch_taken_anyhow(
            s,
            op,
            memory_alone(s, Op::DequeueBatch(op), num),
            given_alone(s, Op::DequeueBatch(op), num),
        ),
    decreases
            (match op.at {
                DequeueBatchStage::Count { start } => op.max + 6,
                DequeueBatchStage::Walk { start, count, node, num } => op.max - num + 5,
                DequeueBatchStage::SetCount { start, count, node, num } => 4int,
                DequeueBatchStage::Advance { start, node, num } => 3,
                DequeueBatchStage::Help { help } => if help is Load {
                    1
                } else {
                    2
                },
                _ => 0,
            }),
{
    let m = Op::DequeueBatch(op);
    let s1 = s.after(op.access());
    let op1 = op.next(s.seen(op.access()));
    let m1 = Op::DequeueBatch(op1);
    s.places();
    if op.at is Help && op.at->help is Help {
        let back = helper_returns(s, m);
        let s2 = memory_alone(s, m, back);
        let start = DequeueBatch::start(op.max);
        let more = batch_taker_gets_done(s2, start);
        right_takes_batch_from_full(
            s2,
            start,
            memory_alone(s2, m.anew(), more),
            given_alone(s2, m.anew(), more),
        );
        one_by_one(s, m, back, more);
        handed_out_one_by_one(s, m, back, more);
        assert(given_alone(s, m, back + more) =~= given_alone(s2, m.anew(), more));
        full_queue(s);
        full_queue(s2);
        back + more
    } else if op.at is Next || op.at is Take || op.at is Retire || op.at is Done {
        batch_taker_gets_done(s, op)
    } else if op.at is Advance && op.at->Advance_start == s.head {
        counted_are_taken(s, op)
    } else if op.at is Help && takes_batch_alone(s, op) {
        let num = batch_taker_gets_done(s, op);
        right_takes_batch_from_full(s, op, memory_alone(s, m, num), given_alone(s, m, num));
        num
    } else {
        assert(s1.wf() && op1.inv(s1) && (op.falls_short(s) ==> s.items().len()
            <= op.at->Walk_num)) by {
            op.step(s);
        }
        match op.at {
            DequeueBatchStage::SetCount { start, count, node, num } => {
                count_settles(s, node, count);
                full_queue(s);
                full_queue(s1);
            },
            DequeueBatchStage::Walk { start, count, node, num } => {
                s.follows(node);
                full_queue(s);
            },
            DequeueBatchStage::Count { start } => {
                s.follows(start);
            },
            _ => {},
        }
        let rest = batch_taker_gets_done_anyhow(s1, op1);
        assert(given_alone(s, m, rest + 1) =~= given_alone(s1, m1, rest));
        rest + 1
    }
}

} // verus!
