//! What an operation achieves while nobody else touches the memory, also where others have stopped
//! half way: with the tail behind the end of the list, or with an announcement in the head. What is
//! left out is a tail that has got past the node before a batch that is linked and not recorded as
//! linked: there a thread that helps comes late.
use crate::dequeue::Dequeue;
use crate::dequeue_batch::{DequeueBatch, DequeueBatchStage};
use crate::enqueue::{Enqueue, EnqueueStage};
use crate::enqueue_batch::{EnqueueBatch, EnqueueBatchStage};
use crate::execute_ann::{AnnStage, ExecuteAnn};
use crate::help_head::HelpHead;
use crate::helping::{
    at_most, batch_counts, batch_is_counted, chain_with, counts_right, full_chain, full_items,
    full_queue, full_tail, given_alone, helper_starts, helps_alone, items_with, look_at_most,
    looks_alone, looks_on, machine_alone, memory_alone, one_access_alone, one_access_counts,
    one_access_keeps, quiet, record_right, stands, tail_with,
};
use crate::interleaving::Op;
use crate::laws::batch_len;
use crate::moves::{put_facts, Stake};
use crate::node::{Ann, Node};
use crate::state::{Access, State};
use crate::tag::{address, mark, marked};
use vstd::prelude::*;

verus! {

/// The memory `s1` is `s` with `node` added behind the list `chain`, the contents `items` before it
/// and `head` in the head. Nothing was retired or freed.
pub open spec fn appended<T>(
    s: State<T>,
    node: usize,
    chain: Seq<usize>,
    head: usize,
    items: Seq<T>,
    s1: State<T>,
) -> bool {
    &&& s1.wf()
    &&& s1.chain == chain.push(node)
    &&& s1.head == head
    &&& s1.tail == node
    &&& s1.items() == items.push(s.node(node).item->0)
    &&& s1.retired == s.retired
    &&& s1.retired_anns == s.retired_anns
    &&& s1.free == s.free
}

/// A thread on its own that adds a node is right about the memory.
pub open spec fn adds_alone<T>(s: State<T>, op: Enqueue) -> bool {
    &&& s.wf()
    &&& op.inv(s)
    &&& match op.at {
        EnqueueStage::Tail => s.tail == s.chain.last() || quiet(s),
        EnqueueStage::Link { tail } => tail == s.tail && (tail == s.chain.last() || quiet(s)),
        EnqueueStage::SwingTail { tail } => tail == s.tail && op.node == s.chain.last(),
        EnqueueStage::Head { tail, next } => {
            &&& quiet(s)
            &&& tail == s.tail
            &&& next == s.node(tail).next
            &&& next != 0
        },
        EnqueueStage::ConfirmAnn { word } => quiet(s) && word == s.head,
        EnqueueStage::Help { run } => helps_alone(s, run) && !(run.at is Done),
        EnqueueStage::AdvanceTail { tail, next } => {
            &&& tail == s.tail
            &&& next == s.node(tail).next
            &&& next != 0
            &&& !marked(s.head)
        },
        EnqueueStage::Done => true,
    }
}

/// What the memory `s` has become when `op`, going on alone, is done. If the tail stands at the end
/// of the list, the node goes behind it, and an announcement in the head is left standing.
/// Otherwise an announcement in the head is carried out first, and the node goes behind the end of
/// the list that there is then.
pub open spec fn added<T>(s: State<T>, op: Enqueue, s1: State<T>) -> bool {
    let at_end = {
        &&& appended(s, op.node, s.chain, s.head, s.items(), s1)
        &&& s1 == s.after(Access::CasNext { node: s.tail, new: op.node }).after(
            Access::CasTail { current: s.tail, new: op.node },
        )
    };
    let after_helping = appended(
        s,
        op.node,
        full_chain(s),
        s.head_node(),
        full_items(s),
        s1,
    );
    match op.at {
        EnqueueStage::Tail => if s.tail == s.chain.last() {
            at_end
        } else {
            after_helping
        },
        EnqueueStage::Link { tail } => if tail == s.chain.last() {
            at_end
        } else {
            after_helping
        },
        EnqueueStage::SwingTail { tail } => s1 == (State { tail: op.node, ..s }),
        EnqueueStage::Head { tail, next } => after_helping,
        EnqueueStage::ConfirmAnn { word } => after_helping,
        EnqueueStage::Help { run } => appended(
            s,
            op.node,
            chain_with(s, run.ann),
            s.ann(run.ann).old_head_node,
            items_with(s, run.ann),
            s1,
        ),
        EnqueueStage::AdvanceTail { tail, next } => appended(
            s,
            op.node,
            s.chain,
            s.head,
            s.items(),
            s1,
        ),
        EnqueueStage::Done => s1 == s,
    }
}

/// An announcement may still have to be carried out before the node can be added.
pub open spec fn add_phase<T>(s: State<T>, op: Enqueue) -> int {
    if op.linked() {
        0
    } else if marked(s.head) {
        2
    } else {
        1
    }
}

/// How far a thread on its own that adds a node is from the end of that phase.
pub open spec fn add_ahead<T>(s: State<T>, op: Enqueue) -> int {
    let base = if marked(s.head) {
        at_most(s, ExecuteAnn::start(address(s.head)))
    } else {
        4 * (s.chain.len() - s.pos(s.tail))
    };
    match op.at {
        EnqueueStage::Tail => base + 4,
        EnqueueStage::Link { tail } => base + 3,
        EnqueueStage::Head { tail, next } => base + 2,
        EnqueueStage::ConfirmAnn { word } => base + 1,
        EnqueueStage::AdvanceTail { tail, next } => base + 1,
        EnqueueStage::Help { run } => at_most(s, run),
        EnqueueStage::SwingTail { tail } => 1,
        EnqueueStage::Done => 0,
    }
}

/// A thread on its own that adds a node does not come late, and comes one access closer.
proof fn adds_on<T>(s: State<T>, op: Enqueue)
    requires
        adds_alone(s, op),
        !(op.at is Done),
    ensures
        !op.late(s),
        ({
            let s1 = s.after(op.access());
            let op1 = op.next(s.seen(op.access()));
            &&& adds_alone(s1, op1)
            &&& op1.node == op.node
            &&& add_phase(s1, op1) <= add_phase(s, op)
            &&& add_phase(s1, op1) == add_phase(s, op) ==> 0 <= add_ahead(s1, op1) < add_ahead(
                s,
                op,
            )
        }),
{
    let s1 = s.after(op.access());
    let op1 = op.next(s.seen(op.access()));
    match op.at {
        EnqueueStage::Help { run } => {
            one_access_alone(s, run);
            if run.next(s.seen(run.access())).at is Done {
                leaves_node(s, run);
            }
        },
        EnqueueStage::ConfirmAnn { word } => {
            helper_starts(s, address(word));
        },
        _ => {},
    }
    assert(s1.wf() && op1.inv(s1)) by {
        op.step(s);
    }
    match op.at {
        EnqueueStage::Tail => {
            s.follows(s.tail);
        },
        EnqueueStage::Link { tail } => {
            s.follows(s.tail);
        },
        EnqueueStage::AdvanceTail { tail, next } => {
            s.follows(s.tail);
        },
        _ => {},
    }
    assert(0 <= s1.pos(s1.tail) < s1.chain.len()) by {
        s1.places();
    }
}

/// A thread on its own that is done with carrying out an announcement leaves a node in the head.
proof fn leaves_node<T>(s: State<T>, run: ExecuteAnn)
    requires
        helps_alone(s, run),
        run.next(s.seen(run.access())).at is Done,
        !(run.at is Done),
    ensures
        ({
            let s1 = s.after(run.access());
            &&& s1.wf()
            &&& !marked(s1.head)
            &&& s1.head == s.ann(run.ann).old_head_node
            &&& s1.chain == chain_with(s, run.ann)
            &&& s1.items() == items_with(s, run.ann)
            &&& s1.tail == tail_with(s, run)
        }),
{
    let s1 = s.after(run.access());
    one_access_alone(s, run);
    one_access_keeps(s, run);
    s.places();
    assert(address(mark(run.ann)) == run.ann);
    assert(s1.is_ann(run.ann));
    assert(s1.ann_ok(s1.ann(run.ann)));
}

/// What becomes of the memory is the same whether it is told before an access or after it.
proof fn adds_closer<T>(s: State<T>, op: Enqueue, s2: State<T>)
    requires
        adds_alone(s, op),
        !(op.at is Done),
        added(s.after(op.access()), op.next(s.seen(op.access())), s2),
    ensures
        added(s, op, s2),
{
    let s1 = s.after(op.access());
    let op1 = op.next(s.seen(op.access()));
    s.places();
    s.follows(s.tail);
    adds_on(s, op);
    match op.at {
        EnqueueStage::Help { run } => {
            one_access_alone(s, run);
            one_access_keeps(s, run);
            s1.places();
            assert(s.draft_ok(op.node));
            assert(s.is_node(s.drafts[op.node][0]));
            assert(s1.node(op.node).item == s.node(op.node).item);
            if run.next(s.seen(run.access())).at is Done {
                leaves_node(s, run);
            }
        },
        EnqueueStage::Link { tail } => {
            op.step(s);
            s1.places();
            if s.node(tail).next == 0 {
                assert(s1.chain =~= s.chain.push(op.node));
                s1.tail_moves(op.node, Stake::none());
            }
        },
        _ => {
            op.step(s);
        },
    }
}

/// A thread on its own that adds a node gets done, whether or not others go on: also where the tail
/// has fallen behind the end of the list, and where an announcement stands in the head.
pub proof fn adder_gets_done<T>(s: State<T>, op: Enqueue) -> (num: nat)
    requires
        adds_alone(s, op),
    ensures
        machine_alone(s, Op::Enqueue(op), num) == Op::Enqueue(
            Enqueue { at: EnqueueStage::Done, ..op },
        ),
        added(s, op, memory_alone(s, Op::Enqueue(op), num)),
    decreases add_phase(s, op), add_ahead(s, op),
{
    if op.at is Done {
        0
    } else {
        adds_on(s, op);
        let s1 = s.after(op.access());
        let op1 = op.next(s.seen(op.access()));
        let rest = adder_gets_done(s1, op1);
        adds_closer(s, op, memory_alone(s1, Op::Enqueue(op1), rest));
        rest + 1
    }
}

/// The list, its contents and its ends, once an announcement that stands in the way is carried out.
#[verifier::ext_equal]
pub struct Prospect<T> {
    pub chain: Seq<usize>,
    pub items: Seq<T>,
    pub head: usize,
    pub tail: usize,
}

impl<T> Prospect<T> {
    /// What the memory holds now.
    pub open spec fn now(s: State<T>) -> Self {
        Prospect { chain: s.chain, items: s.items(), head: s.head_node(), tail: s.tail }
    }

    /// What the memory will hold when `help`, going on alone, has found the node in the head.
    pub open spec fn of(s: State<T>, help: HelpHead) -> Self {
        match help {
            HelpHead::Help { run } => Prospect {
                chain: chain_with(s, run.ann),
                items: items_with(s, run.ann),
                head: s.ann(run.ann).old_head_node,
                tail: tail_with(s, run),
            },
            HelpHead::Done { node } => Prospect::now(s),
            _ => Prospect {
                chain: full_chain(s),
                items: full_items(s),
                head: s.head_node(),
                tail: full_tail(s),
            },
        }
    }

    /// The place of the head in the list.
    pub open spec fn hpos(self) -> int {
        self.chain.index_of(self.head)
    }
}

/// Carrying out an announcement leaves the count of the node that it took the place of.
proof fn head_keeps_count<T>(s: State<T>, run: ExecuteAnn)
    requires
        helps_alone(s, run),
        !(run.at is Done),
    ensures
        s.after(run.access()).node(s.ann(run.ann).old_head_node).count == s.node(
            s.ann(run.ann).old_head_node,
        ).count,
{
    let n = s.ann(run.ann);
    let head = n.old_head_node;
    s.places();
    assert(s.is_ann(run.ann));
    assert(s.ann_ok(n));
    assert(address(mark(run.ann)) == run.ann);
    assert(s.head_node() == head);
    match run.at {
        AnnStage::Link { tail, count, first } => {
            put_facts(s.nodes, tail, Node { next: first, ..s.node(tail) });
        },
        AnnStage::SetCount { old_tail, last, count } => {
            put_facts(s.nodes, last, Node { count, ..s.node(last) });
            assert(s.pos(last) > s.hpos());
        },
        _ => {},
    }
}

/// A thread on its own that looks for the node in the head leaves what the memory is to hold, what
/// the nodes carry, what has been retired and freed, and the count of that node.
proof fn looks_keep<T>(s: State<T>, help: HelpHead)
    requires
        looks_alone(s, help),
        !(help is Done),
    ensures
        ({
            let s1 = s.after(help.access());
            let help1 = help.next(s.seen(help.access()));
            &&& Prospect::of(s1, help1) == Prospect::of(s, help)
            &&& s1.retired == s.retired
            &&& s1.retired_anns == s.retired_anns
            &&& s1.free == s.free
            &&& forall|a: usize| s.is_node(a) ==> (#[trigger] s1.node(a)).item == s.node(a).item
            &&& s1.node(Prospect::of(s, help).head).count == s.node(
                Prospect::of(s, help).head,
            ).count
        }),
{
    match help {
        HelpHead::Help { run } => {
            one_access_alone(s, run);
            one_access_keeps(s, run);
            head_keeps_count(s, run);
            if run.next(s.seen(run.access())).at is Done {
                leaves_node(s, run);
            }
        },
        HelpHead::Confirm { word } => {
            s.places();
        },
        _ => {},
    }
}

/// The memory `s1` is what `p` promises with the head moved over `num` nodes: their items have been
/// taken, and the nodes that the head has left behind, and no others, have been retired since the
/// memory was `s`.
pub open spec fn moved<T>(s: State<T>, p: Prospect<T>, num: int, s1: State<T>) -> bool {
    &&& s1.wf()
    &&& s1.chain == p.chain
    &&& s1.head == p.chain[p.hpos() + num]
    &&& s1.tail == p.tail
    &&& s1.items() == p.items.skip(num)
    &&& s1.retired == s.retired + p.chain.subrange(p.hpos(), p.hpos() + num)
    &&& s1.retired_anns == s.retired_anns
    &&& s1.free == s.free
}

/// What an operation that has removed its items still does to the memory `s`: it retires the nodes
/// `nodes`, in this order.
pub open spec fn retiring<T>(s: State<T>, nodes: Seq<usize>, s1: State<T>) -> bool {
    &&& s1.wf()
    &&& s1.chain == s.chain
    &&& s1.head == s.head
    &&& s1.tail == s.tail
    &&& s1.items() == s.items()
    &&& s1.retired == s.retired + nodes
    &&& s1.retired_anns == s.retired_anns
    &&& s1.free == s.free
    &&& forall|a: usize| s.is_node(a) ==> (#[trigger] s1.node(a)).count == s.node(a).count
}

/// A thread on its own that takes an item is right about the memory.
pub open spec fn takes_alone<T>(s: State<T>, op: Dequeue) -> bool {
    &&& s.wf()
    &&& op.inv(s)
    &&& match op {
        Dequeue::Help { help } => looks_alone(s, help) && !(help is Done),
        Dequeue::Next { head } => head == s.head && !marked(s.head),
        Dequeue::Again { head, next } => head == s.head && !marked(s.head),
        Dequeue::Advance { head, next, node } => head == s.head && !marked(s.head),
        _ => true,
    }
}

/// What the memory `s` will hold when `op`, going on alone, has found the node in the head.
pub open spec fn take_prospect<T>(s: State<T>, op: Dequeue) -> Prospect<T> {
    match op {
        Dequeue::Help { help } => Prospect::of(s, help),
        _ => Prospect::now(s),
    }
}

/// What the memory `s` has become when `op`, going on alone, has come to its end `end`, and what it
/// has handed to its caller. An announcement in the head is carried out first. Then the oldest item
/// is taken and the node that was in the head is retired, or nothing is taken if there is none.
pub open spec fn taken<T>(
    s: State<T>,
    op: Dequeue,
    s1: State<T>,
    end: Dequeue,
    given: Seq<T>,
) -> bool {
    let p = take_prospect(s, op);
    match op {
        Dequeue::Retire { head, node } => {
            &&& end is Taken
            &&& given == op.due(s)
            &&& retiring(s, seq![head], s1)
        },
        Dequeue::Take { node } => {
            &&& end is Taken
            &&& given == op.due(s)
            &&& retiring(s, Seq::empty(), s1)
        },
        Dequeue::Taken => end is Taken && given.len() == 0 && s1 == s,
        Dequeue::Empty => end is Empty && given.len() == 0 && s1 == s,
        _ => if p.items.len() == 0 {
            end is Empty && given.len() == 0 && moved(s, p, 0, s1)
        } else {
            end is Taken && given == p.items.take(1) && moved(s, p, 1, s1)
        },
    }
}

/// How many accesses a thread on its own that takes an item has still to make at most.
pub open spec fn take_at_most<T>(s: State<T>, op: Dequeue) -> int {
    match op {
        Dequeue::Help { help } => 5 + look_at_most(s, help),
        Dequeue::Next { head } => 5,
        Dequeue::Again { head, next } => 4,
        Dequeue::Advance { head, next, node } => 3,
        Dequeue::Retire { head, node } => 2,
        Dequeue::Take { node } => 1,
        _ => 0,
    }
}

/// A thread on its own that takes an item does not come late, and comes one access closer.
proof fn takes_on<T>(s: State<T>, op: Dequeue)
    requires
        takes_alone(s, op),
        take_at_most(s, op) > 0,
    ensures
        !op.late(s),
        ({
            let s1 = s.after(op.access());
            let op1 = op.next(s.seen(op.access()));
            &&& takes_alone(s1, op1)
            &&& 0 <= take_at_most(s1, op1) < take_at_most(s, op)
        }),
{
    match op {
        Dequeue::Help { help } => {
            looks_on(s, help);
        },
        _ => {},
    }
    op.step(s);
}

/// What comes of the operation is the same whether it is told before an access or after it.
proof fn takes_closer<T>(s: State<T>, op: Dequeue, s2: State<T>, end: Dequeue, given: Seq<T>)
    requires
        takes_alone(s, op),
        take_at_most(s, op) > 0,
        taken(s.after(op.access()), op.next(s.seen(op.access())), s2, end, given),
    ensures
        taken(s, op, s2, end, Op::Dequeue(op).given(s) + given),
{
    let s1 = s.after(op.access());
    let op1 = op.next(s.seen(op.access()));
    let all = Op::Dequeue(op).given(s) + given;
    takes_on(s, op);
    op.step(s);
    s.places();
    match op {
        Dequeue::Help { help } => {
            looks_keep(s, help);
            assert(all =~= given);
        },
        Dequeue::Next { head } => {
            s.follows(head);
            assert(s.items().len() == s.chain.len() - s.hpos() - 1);
            assert(all =~= given);
            if op1 is Empty {
                assert(s.items().skip(0) =~= s.items());
                assert(s.retired + s.chain.subrange(s.hpos(), s.hpos()) =~= s.retired);
            }
        },
        Dequeue::Again { head, next } => {
            assert(all =~= given);
        },
        Dequeue::Advance { head, next, node } => {
            assert(all =~= given);
            assert(s.chain.subrange(s.hpos(), s.hpos() + 1) =~= seq![head]);
        },
        Dequeue::Retire { head, node } => {
            assert(all =~= given);
            assert(s.retired.push(head) + Seq::<usize>::empty() =~= s.retired + seq![head]);
        },
        Dequeue::Take { node } => {
            assert(all =~= op.due(s));
            assert(s.retired + Seq::<usize>::empty() =~= s.retired);
        },
        _ => {},
    }
}

/// A thread on its own that takes an item gets done in a bounded number of accesses, whether or not
/// others go on. If an announcement stands in the head, the thread takes the oldest item of what
/// the queue holds with the announced batch, and does not find the queue empty.
pub proof fn taker_gets_done<T>(s: State<T>, op: Dequeue) -> (num: nat)
    requires
        takes_alone(s, op),
    ensures
        num <= take_at_most(s, op),
        machine_alone(s, Op::Dequeue(op), num) is Dequeue,
        taken(
            s,
            op,
            memory_alone(s, Op::Dequeue(op), num),
            machine_alone(s, Op::Dequeue(op), num)->Dequeue_0,
            given_alone(s, Op::Dequeue(op), num),
        ),
    decreases take_at_most(s, op),
{
    if take_at_most(s, op) == 0 {
        0
    } else {
        takes_on(s, op);
        let s1 = s.after(op.access());
        let op1 = op.next(s.seen(op.access()));
        let rest = taker_gets_done(s1, op1);
        takes_closer(
            s,
            op,
            memory_alone(s1, Op::Dequeue(op1), rest),
            machine_alone(s1, Op::Dequeue(op1), rest)->Dequeue_0,
            given_alone(s1, Op::Dequeue(op1), rest),
        );
        rest + 1
    }
}

/// A thread on its own that takes a batch is right about the memory.
pub open spec fn takes_batch_alone<T>(s: State<T>, op: DequeueBatch) -> bool {
    let num_there = batch_len(s.items().len(), op.max as nat);
    &&& s.wf()
    &&& op.inv(s)
    &&& match op.at {
        DequeueBatchStage::Help { help } => looks_alone(s, help) && !(help is Done),
        DequeueBatchStage::Count { start } => start == s.head && !marked(s.head),
        DequeueBatchStage::Walk { start, count, node, num } => start == s.head && !marked(s.head),
        DequeueBatchStage::SetCount { start, count, node, num } => start == s.head && !marked(
            s.head,
        ) && num == num_there,
        DequeueBatchStage::Advance { start, node, num } => start == s.head && !marked(s.head)
            && num == num_there,
        _ => true,
    }
}

/// What the memory `s` will hold when `op`, going on alone, has found the node in the head.
pub open spec fn take_batch_prospect<T>(s: State<T>, op: DequeueBatch) -> Prospect<T> {
    match op.at {
        DequeueBatchStage::Help { help } => Prospect::of(s, help),
        _ => Prospect::now(s),
    }
}

/// The count that the node `num` nodes behind the head gets when `op`, going on alone, moves the head
/// there: that of the node in the head, and `num` on top.
pub open spec fn new_count<T>(s: State<T>, op: DequeueBatch, num: int) -> usize {
    match op.at {
        DequeueBatchStage::Walk { start, count, node, num: so_far } => count.wrapping_add(
            num as usize,
        ),
        DequeueBatchStage::SetCount { start, count, node, num: so_far } => count,
        DequeueBatchStage::Advance { start, node, num: so_far } => s.node(node).count,
        _ => s.node(take_batch_prospect(s, op).head).count.wrapping_add(num as usize),
    }
}

/// What the memory `s` has become when `op`, going on alone, is done, and what it has handed to its
/// caller. An announcement in the head is carried out first. Then as many items are taken as there
/// are, but at most `max`, and the nodes that the head has moved over are retired. The node that is
/// then in the head has its count on top of that of the one before.
pub open spec fn batch_taken<T>(
    s: State<T>,
    op: DequeueBatch,
    s1: State<T>,
    given: Seq<T>,
) -> bool {
    let p = take_batch_prospect(s, op);
    let num = batch_len(p.items.len(), op.max as nat) as int;
    match op.at {
        DequeueBatchStage::Next { node, left } => {
            &&& given == op.due(s)
            &&& retiring(s, s.chain.subrange(s.pos(node), s.pos(node) + left), s1)
        },
        DequeueBatchStage::Take { node, next, left } => {
            &&& given == op.due(s)
            &&& retiring(s, s.chain.subrange(s.pos(node), s.pos(node) + left), s1)
        },
        DequeueBatchStage::Retire { node, next, left } => {
            &&& given == op.due(s)
            &&& retiring(s, s.chain.subrange(s.pos(node), s.pos(node) + left), s1)
        },
        DequeueBatchStage::Done => given.len() == 0 && s1 == s,
        _ => {
            &&& given == p.items.take(num)
            &&& moved(s, p, num, s1)
            &&& num > 0 ==> s1.node(s1.head).count == new_count(s, op, num)
        },
    }
}

/// How many accesses a thread on its own that takes a batch has still to make at most.
pub open spec fn take_batch_at_most<T>(s: State<T>, op: DequeueBatch) -> int {
    match op.at {
        DequeueBatchStage::Help { help } => 4 * op.max + 3 + look_at_most(s, help),
        DequeueBatchStage::Count { start } => 4 * op.max + 3,
        DequeueBatchStage::Walk { start, count, node, num } => 4 * op.max - num + 2,
        DequeueBatchStage::SetCount { start, count, node, num } => 3 * op.max + 2,
        DequeueBatchStage::Advance { start, node, num } => 3 * op.max + 1,
        DequeueBatchStage::Next { node, left } => 3 * left,
        DequeueBatchStage::Take { node, next, left } => 3 * left - 1,
        DequeueBatchStage::Retire { node, next, left } => 3 * left - 2,
        DequeueBatchStage::Done => 0,
    }
}

/// A thread on its own that takes a batch does not come late, and comes one access closer.
proof fn takes_batch_on<T>(s: State<T>, op: DequeueBatch)
    requires
        takes_batch_alone(s, op),
        !(op.at is Done),
    ensures
        !op.late(s),
        ({
            let s1 = s.after(op.access());
            let op1 = op.next(s.seen(op.access()));
            &&& takes_batch_alone(s1, op1)
            &&& op1.max == op.max
            &&& 0 <= take_batch_at_most(s1, op1) < take_batch_at_most(s, op)
        }),
{
    let s1 = s.after(op.access());
    let op1 = op.next(s.seen(op.access()));
    match op.at {
        DequeueBatchStage::Help { help } => {
            looks_on(s, help);
        },
        _ => {},
    }
    assert(s1.wf() && op1.inv(s1)) by {
        op.step(s);
    }
    match op.at {
        DequeueBatchStage::Walk { start, count, node, num } => {
            s.places();
            s.follows(node);
            assert(s.items().len() == s.chain.len() - s.hpos() - 1);
        },
        DequeueBatchStage::SetCount { start, count, node, num } => {
            assert(s1.items() == s.items()) by {
                op.step(s);
            }
        },
        _ => {},
    }
}

/// What comes of the operation is the same whether it is told before an access or after it.
#[verifier::rlimit(30)]
proof fn takes_batch_closer<T>(s: State<T>, op: DequeueBatch, s2: State<T>, given: Seq<T>)
    requires
        takes_batch_alone(s, op),
        !(op.at is Done),
        batch_taken(s.after(op.access()), op.next(s.seen(op.access())), s2, given),
    ensures
        batch_taken(s, op, s2, Op::DequeueBatch(op).given(s) + given),
{
    let s1 = s.after(op.access());
    let op1 = op.next(s.seen(op.access()));
    let all = Op::DequeueBatch(op).given(s) + given;
    takes_batch_on(s, op);
    s.places();
    if !(op.at is Take) {
        assert(all =~= given);
    }
    match op.at {
        DequeueBatchStage::Help { help } => {
            looks_keep(s, help);
        },
        DequeueBatchStage::Count { start } => {
            if op1.at is Done {
                assert(s.items().skip(0) =~= s.items());
                assert(s.items().take(0) =~= Seq::empty());
                assert(s.retired + s.chain.subrange(s.hpos(), s.hpos()) =~= s.retired);
            }
        },
        DequeueBatchStage::Walk { start, count, node, num } => {
            if op1.at is Done {
                s.follows(node);
                assert(s.items().len() == s.chain.len() - s.hpos() - 1);
                assert(s.items().skip(0) =~= s.items());
                assert(s.items().take(0) =~= Seq::empty());
                assert(s.retired + s.chain.subrange(s.hpos(), s.hpos()) =~= s.retired);
            }
        },
        DequeueBatchStage::SetCount { start, count, node, num } => {
            assert(s1.items() == s.items()) by {
                op.step(s);
            }
        },
        DequeueBatchStage::Advance { start, node, num } => {
            op.step(s);
        },
        DequeueBatchStage::Next { node, left } => {
            s.follows(node);
        },
        DequeueBatchStage::Take { node, next, left } => {
            assert(s1.items() == s.items() && all == op.due(s)) by {
                op.step(s);
                Op::DequeueBatch(op).step(s);
                assert(op.due(s) + Seq::<T>::empty() =~= op.due(s));
            }
        },
        DequeueBatchStage::Retire { node, next, left } => {
            assert(s1.items() == s.items() && op1.due(s1) == op.due(s)) by {
                op.step(s);
            }
            let p = s.pos(node);
            assert(s.retired.push(node) + s.chain.subrange(p + 1, p + left) =~= s.retired
                + s.chain.subrange(p, p + left));
            if left == 1 {
                assert(s.retired.push(node) =~= s.retired + s.chain.subrange(p, p + 1));
            }
        },
        _ => {},
    }
}

/// A thread on its own that takes a batch gets done in a bounded number of accesses, whether or not
/// others go on. If an announcement stands in the head, what it takes are the oldest items of what
/// the queue holds with the announced batch.
pub proof fn batch_taker_gets_done<T>(s: State<T>, op: DequeueBatch) -> (num: nat)
    requires
        takes_batch_alone(s, op),
    ensures
        num <= take_batch_at_most(s, op),
        machine_alone(s, Op::DequeueBatch(op), num) == Op::DequeueBatch(
            DequeueBatch { at: DequeueBatchStage::Done, ..op },
        ),
        batch_taken(
            s,
            op,
            memory_alone(s, Op::DequeueBatch(op), num),
            given_alone(s, Op::DequeueBatch(op), num),
        ),
    decreases take_batch_at_most(s, op),
{
    if op.at is Done {
        0
    } else {
        takes_batch_on(s, op);
        let s1 = s.after(op.access());
        let op1 = op.next(s.seen(op.access()));
        let rest = batch_taker_gets_done(s1, op1);
        takes_batch_closer(
            s,
            op,
            memory_alone(s1, Op::DequeueBatch(op1), rest),
            given_alone(s1, Op::DequeueBatch(op1), rest),
        );
        rest + 1
    }
}

/// A thread on its own that adds a batch is right about the memory.
pub open spec fn adds_batch_alone<T>(s: State<T>, op: EnqueueBatch) -> bool {
    &&& s.wf()
    &&& op.inv(s)
    &&& match op.at {
        EnqueueBatchStage::Help { help } => looks_alone(s, help) && !(help is Done),
        EnqueueBatchStage::Count { head } => head == s.head && !marked(s.head),
        EnqueueBatchStage::SetHead { head, count } => head == s.head && !marked(s.head),
        EnqueueBatchStage::Enter { head } => head == s.head && !marked(s.head),
        EnqueueBatchStage::Execute { head, run } => {
            &&& helps_alone(s, run)
            &&& !(run.at is Done)
            &&& head == s.ann(op.ann).old_head_node
        },
        _ => true,
    }
}

/// What the memory `s` will hold when `op`, going on alone, has found the node in the head.
pub open spec fn add_batch_prospect<T>(s: State<T>, op: EnqueueBatch) -> Prospect<T> {
    match op.at {
        EnqueueBatchStage::Help { help } => Prospect::of(s, help),
        _ => Prospect::now(s),
    }
}

/// The memory `s1` holds the list `chain` and the contents `items` between `head` and `tail`, and
/// the announcement `ann`, and nothing else, has been retired since it was `s`.
pub open spec fn announced_and_done<T>(
    s: State<T>,
    ann: usize,
    chain: Seq<usize>,
    items: Seq<T>,
    head: usize,
    tail: usize,
    s1: State<T>,
) -> bool {
    &&& s1.wf()
    &&& s1.chain == chain
    &&& s1.items() == items
    &&& s1.head == head
    &&& s1.tail == tail
    &&& s1.retired == s.retired
    &&& s1.retired_anns == s.retired_anns.push(ann)
    &&& s1.free == s.free
}

/// The count that the announcement of a thread on its own notes down for the node that it takes the
/// place of: the one that the node has.
pub open spec fn noted_count<T>(s: State<T>, op: EnqueueBatch) -> usize {
    match op.at {
        EnqueueBatchStage::SetHead { head, count } => count,
        EnqueueBatchStage::Enter { head } => s.ann(op.ann).old_head_count,
        _ => s.node(add_batch_prospect(s, op).head).count,
    }
}

/// What the memory `s` has become when `op`, going on alone, has come to its end `end`. An
/// announcement in the head is carried out first. Then the batch goes behind the end of the list
/// that there is then, the tail moves to the end of the batch, and the node that was in the head is
/// there again and is handed back. The last node of the batch has its count on top of that of the
/// node before the batch, unless another count was noted down beforehand.
pub open spec fn batch_added<T>(
    s: State<T>,
    op: EnqueueBatch,
    s1: State<T>,
    end: EnqueueBatch,
) -> bool {
    let p = add_batch_prospect(s, op);
    let n = s.ann(op.ann);
    let d = s.drafts[n.batch_req.first_enq];
    &&& end.ann == op.ann
    &&& match op.at {
        EnqueueBatchStage::Execute { head, run } => {
            &&& end.at == EnqueueBatchStage::Done { head }
            &&& announced_and_done(
                s,
                op.ann,
                chain_with(s, op.ann),
                items_with(s, op.ann),
                n.old_head_node,
                tail_with(s, run),
                s1,
            )
            &&& counts_right(s, run) && record_right(s, run) ==> batch_counts(s1, op.ann)
            &&& s1.ann(op.ann).old_head_node == n.old_head_node
            &&& s1.ann(op.ann).old_head_count == n.old_head_count
        },
        EnqueueBatchStage::Retire { head } => {
            &&& end.at == EnqueueBatchStage::Done { head }
            &&& s1 == s.after(Access::RetireAnn { ann: op.ann })
        },
        EnqueueBatchStage::Done { head } => end.at == op.at && s1 == s,
        _ => {
            &&& end.at == EnqueueBatchStage::Done { head: p.head }
            &&& announced_and_done(
                s,
                op.ann,
                p.chain + d,
                p.items + s.items_of(d),
                p.head,
                n.batch_req.last_enq,
                s1,
            )
            &&& n.old_tail_count == 0 ==> batch_counts(s1, op.ann)
            &&& s1.ann(op.ann).old_head_node == p.head
            &&& s1.ann(op.ann).old_head_count == noted_count(s, op)
        },
    }
}

/// The batch may still have to be announced, and then to be carried out.
pub open spec fn add_batch_phase(op: EnqueueBatch) -> int {
    match op.at {
        EnqueueBatchStage::Help { help } => 5,
        EnqueueBatchStage::Count { head } => 4,
        EnqueueBatchStage::SetHead { head, count } => 3,
        EnqueueBatchStage::Enter { head } => 2,
        EnqueueBatchStage::Execute { head, run } => 1,
        EnqueueBatchStage::Retire { head } => 0,
        EnqueueBatchStage::Done { head } => -1,
    }
}

/// How many accesses a thread on its own that adds a batch has still to make at most in that phase.
pub open spec fn add_batch_ahead<T>(s: State<T>, op: EnqueueBatch) -> int {
    match op.at {
        EnqueueBatchStage::Help { help } => look_at_most(s, help),
        EnqueueBatchStage::Execute { head, run } => at_most(s, run),
        _ => 0,
    }
}

/// A thread on its own that adds a batch does not come late, and comes one access closer.
proof fn adds_batch_on<T>(s: State<T>, op: EnqueueBatch)
    requires
        adds_batch_alone(s, op),
        !(op.at is Done),
    ensures
        !op.late(s),
        ({
            let s1 = s.after(op.access());
            let op1 = op.next(s.seen(op.access()));
            &&& adds_batch_alone(s1, op1)
            &&& op1.ann == op.ann
            &&& s1.ann(op.ann).batch_req == s.ann(op.ann).batch_req
            &&& add_batch_phase(op1) < add_batch_phase(op) || (add_batch_phase(op1)
                == add_batch_phase(op) && 0 <= add_batch_ahead(s1, op1) < add_batch_ahead(s, op))
        }),
{
    let s1 = s.after(op.access());
    let op1 = op.next(s.seen(op.access()));
    assert(s.is_ann(op.ann));
    match op.at {
        EnqueueBatchStage::Help { help } => {
            looks_on(s, help);
        },
        EnqueueBatchStage::Execute { head, run } => {
            one_access_alone(s, run);
            one_access_keeps(s, run);
        },
        _ => {},
    }
    assert(s1.wf() && op1.inv(s1) && s1.ann(op.ann).batch_req == s.ann(op.ann).batch_req) by {
        op.step(s);
    }
    match op.at {
        EnqueueBatchStage::Enter { head } => {
            let first = s.ann(op.ann).batch_req.first_enq;
            assert(s.draft_ok(first));
            assert(s.drafts[first][0] == first);
            assert(!s.chain.contains(first));
        },
        _ => {},
    }
}

/// The batch of a thread that has not announced it stays as it is while the thread helps another.
proof fn batch_stays<T>(s: State<T>, op: EnqueueBatch)
    requires
        adds_batch_alone(s, op),
        op.at is Help,
    ensures
        ({
            let s1 = s.after(op.access());
            let first = s.ann(op.ann).batch_req.first_enq;
            &&& s1.drafts[first] == s.drafts[first]
            &&& s1.items_of(s.drafts[first]) == s.items_of(s.drafts[first])
            &&& s1.ann(op.ann) == s.ann(op.ann)
        }),
{
    let help = op.at->help;
    let s1 = s.after(op.access());
    let first = s.ann(op.ann).batch_req.first_enq;
    looks_on(s, help);
    looks_keep(s, help);
    help.step(s, Stake::none());
    assert(s.is_ann(op.ann));
    assert(!s.announced(first));
    assert(s.draft_ok(first));
    assert(s1.items_of(s.drafts[first]) =~= s.items_of(s.drafts[first]));
}

/// What comes of the operation is the same whether it is told before an access or after it.
proof fn adds_batch_closer<T>(s: State<T>, op: EnqueueBatch, s2: State<T>, end: EnqueueBatch)
    requires
        adds_batch_alone(s, op),
        !(op.at is Done),
        batch_added(s.after(op.access()), op.next(s.seen(op.access())), s2, end),
    ensures
        batch_added(s, op, s2, end),
{
    let s1 = s.after(op.access());
    let op1 = op.next(s.seen(op.access()));
    let n = s.ann(op.ann);
    let first = n.batch_req.first_enq;
    let d = s.drafts[first];
    adds_batch_on(s, op);
    assert(s.is_ann(op.ann));
    match op.at {
        EnqueueBatchStage::Help { help } => {
            looks_on(s, help);
            looks_keep(s, help);
            batch_stays(s, op);
        },
        EnqueueBatchStage::SetHead { head, count } => {
            assert(s1.items() == s.items()) by {
                op.step(s);
            }
            put_facts(
                s.anns,
                op.ann,
                Ann { old_head_node: head, old_head_count: count, ..n },
            );
            assert(s1.items_of(d) =~= s.items_of(d));
        },
        EnqueueBatchStage::Enter { head } => {
            assert(s1.items() == s.items()) by {
                op.step(s);
            }
            assert(s.draft_ok(first));
            assert(d[0] == first);
            assert(!s.chain.contains(first));
            assert(s.ann_ok(n));
            assert(s1.items_of(d) =~= s.items_of(d));
        },
        EnqueueBatchStage::Execute { head, run } => {
            one_access_alone(s, run);
            one_access_keeps(s, run);
            one_access_counts(s, run);
            if run.next(s.seen(run.access())).at is Done {
                leaves_node(s, run);
                adds_batch_on(s1, op1);
                if counts_right(s, run) && record_right(s, run) {
                    batch_is_counted(s1, op.ann);
                }
            }
        },
        _ => {},
    }
}

/// A thread on its own that adds a batch gets done, whether or not others go on. If the
/// announcement of another thread stands in the head, its batch goes into the queue first.
pub proof fn announcer_gets_done<T>(s: State<T>, op: EnqueueBatch) -> (num: nat)
    requires
        adds_batch_alone(s, op),
    ensures
        machine_alone(s, Op::EnqueueBatch(op), num) is EnqueueBatch,
        batch_added(
            s,
            op,
            memory_alone(s, Op::EnqueueBatch(op), num),
            machine_alone(s, Op::EnqueueBatch(op), num)->EnqueueBatch_0,
        ),
    decreases add_batch_phase(op) + 1, add_batch_ahead(s, op),
{
    if op.at is Done {
        0
    } else {
        adds_batch_on(s, op);
        let s1 = s.after(op.access());
        let op1 = op.next(s.seen(op.access()));
        let rest = announcer_gets_done(s1, op1);
        adds_batch_closer(
            s,
            op,
            memory_alone(s1, Op::EnqueueBatch(op1), rest),
            machine_alone(s1, Op::EnqueueBatch(op1), rest)->EnqueueBatch_0,
        );
        rest + 1
    }
}

/// Where an announcement stands in the head, whoever takes an item gets the oldest one of what the
/// queue holds with the announced batch. There always is one. The node that the announcement took
/// the place of is retired, and no other.
pub proof fn taking_past_an_announcement<T>(s: State<T>) -> (num: nat)
    requires
        quiet(s),
        marked(s.head),
    ensures
        ({
            let op = Op::Dequeue(Dequeue::start());
            let s1 = memory_alone(s, op, num);
            &&& machine_alone(s, op, num) == Op::Dequeue(Dequeue::Taken)
            &&& full_items(s).len() > 0
            &&& given_alone(s, op, num) == seq![full_items(s)[0]]
            &&& s1.wf()
            &&& s1.items() == full_items(s).skip(1)
            &&& s1.chain == full_chain(s)
            &&& s1.head == full_chain(s)[s.hpos() + 1]
            &&& s1.tail == full_tail(s)
            &&& s1.retired == s.retired.push(s.head_node())
        }),
{
    let num = taker_gets_done(s, Dequeue::start());
    full_queue(s);
    s.places();
    assert(full_items(s).take(1) =~= seq![full_items(s)[0]]);
    assert(full_chain(s).subrange(s.hpos(), s.hpos() + 1) =~= seq![s.head_node()]);
    assert(s.retired + seq![s.head_node()] =~= s.retired.push(s.head_node()));
    num
}

/// Where an announcement stands in the head, whoever takes a batch gets the oldest items of what
/// the queue holds with the announced batch. The nodes that the head moves over are retired, and no
/// others.
pub proof fn taking_a_batch_past_an_announcement<T>(s: State<T>, max: usize) -> (num: nat)
    requires
        quiet(s),
        marked(s.head),
    ensures
        ({
            let op = Op::DequeueBatch(DequeueBatch::start(max));
            let s1 = memory_alone(s, op, num);
            let k = batch_len(full_items(s).len(), max as nat) as int;
            &&& machine_alone(s, op, num) == Op::DequeueBatch(
                DequeueBatch { max, at: DequeueBatchStage::Done },
            )
            &&& given_alone(s, op, num) == full_items(s).take(k)
            &&& s1.wf()
            &&& s1.items() == full_items(s).skip(k)
            &&& s1.chain == full_chain(s)
            &&& s1.head == full_chain(s)[s.hpos() + k]
            &&& s1.tail == full_tail(s)
            &&& s1.retired == s.retired + full_chain(s).subrange(s.hpos(), s.hpos() + k)
            &&& k > 0 ==> s1.node(s1.head).count == s.node(s.head_node()).count.wrapping_add(
                k as usize,
            )
        }),
{
    full_queue(s);
    batch_taker_gets_done(s, DequeueBatch::start(max))
}

/// Where an announcement stands in the head and the tail has fallen behind the end of the list,
/// whoever adds an item carries the announcement out first: the item goes behind the announced
/// batch.
pub proof fn adding_past_an_announcement<T>(s: State<T>, node: usize) -> (num: nat)
    requires
        quiet(s),
        marked(s.head),
        s.tail != s.chain.last(),
        (Enqueue { node, at: EnqueueStage::Tail }).ready(s),
    ensures
        ({
            let op = Op::Enqueue(Enqueue { node, at: EnqueueStage::Tail });
            let s1 = memory_alone(s, op, num);
            &&& machine_alone(s, op, num) == Op::Enqueue(Enqueue { node, at: EnqueueStage::Done })
            &&& s1.wf()
            &&& s1.items() == full_items(s).push(s.node(node).item->0)
            &&& s1.chain == full_chain(s).push(node)
            &&& s1.head == s.head_node()
            &&& s1.tail == node
        }),
{
    adder_gets_done(s, Enqueue { node, at: EnqueueStage::Tail })
}

/// Where the tail stands at the end of the list, whoever adds an item puts it there. An
/// announcement that stands in the head stays, and so do the lists that have been built to be added,
/// with their items, so that a batch that is not linked yet goes behind the item.
pub proof fn adding_at_the_end<T>(s: State<T>, node: usize) -> (num: nat)
    requires
        s.wf(),
        s.tail == s.chain.last(),
        (Enqueue { node, at: EnqueueStage::Tail }).ready(s),
    ensures
        ({
            let op = Op::Enqueue(Enqueue { node, at: EnqueueStage::Tail });
            let s1 = memory_alone(s, op, num);
            &&& machine_alone(s, op, num) == Op::Enqueue(Enqueue { node, at: EnqueueStage::Done })
            &&& s1.wf()
            &&& s1.items() == s.items().push(s.node(node).item->0)
            &&& s1.chain == s.chain.push(node)
            &&& s1.head == s.head
            &&& s1.tail == node
            &&& s1.anns == s.anns
            &&& s1.published == s.published
            &&& s1.drafts == s.drafts.remove(node)
            &&& forall|f: usize| #[trigger]
                s1.drafts.contains_key(f) ==> s1.items_of(s1.drafts[f]) == s.items_of(s.drafts[f])
            &&& marked(s.head) && !s.chain.contains(
                s.ann(address(s.head)).batch_req.first_enq,
            ) ==> full_items(s1) == s.items().push(s.node(node).item->0) + s.items_of(
                s.drafts[s.ann(address(s.head)).batch_req.first_enq],
            )
        }),
{
    let num = adder_gets_done(s, Enqueue { node, at: EnqueueStage::Tail });
    let s1 = memory_alone(s, Op::Enqueue(Enqueue { node, at: EnqueueStage::Tail }), num);
    s.places();
    s.follows(s.tail);
    put_facts(s.nodes, s.tail, Node { next: node, ..s.node(s.tail) });
    assert forall|f: usize| #[trigger] s1.drafts.contains_key(f) implies s1.items_of(s1.drafts[f])
        == s.items_of(s.drafts[f]) by {
        assert(s.draft_ok(f));
        assert(s1.items_of(s.drafts[f]) =~= s.items_of(s.drafts[f]));
    }
    if marked(s.head) {
        let first = s.ann(address(s.head)).batch_req.first_enq;
        assert(s.is_ann(address(s.head)));
        assert(s.ann_ok(s.ann(address(s.head))));
        assert(first != node);
        if !s.chain.contains(first) {
            assert(s1.chain.contains(first) ==> s.chain.contains(first));
        }
    }
    num
}

/// Where the tail has fallen behind the end of the list and a node stands in the head, whoever adds
/// an item moves the tail on first: the item goes behind the last node.
pub proof fn adding_past_a_tail_that_lags<T>(s: State<T>, node: usize) -> (num: nat)
    requires
        s.wf(),
        !marked(s.head),
        (Enqueue { node, at: EnqueueStage::Tail }).ready(s),
    ensures
        ({
            let op = Op::Enqueue(Enqueue { node, at: EnqueueStage::Tail });
            let s1 = memory_alone(s, op, num);
            &&& machine_alone(s, op, num) == Op::Enqueue(Enqueue { node, at: EnqueueStage::Done })
            &&& s1.wf()
            &&& s1.items() == s.items().push(s.node(node).item->0)
            &&& s1.chain == s.chain.push(node)
            &&& s1.head == s.head
            &&& s1.tail == node
        }),
{
    adder_gets_done(s, Enqueue { node, at: EnqueueStage::Tail })
}

/// Where the announcement of another thread stands in the head, whoever adds a batch carries that
/// one out first: the batch goes behind the other one. The node that was in the head is there again
/// and is handed back.
pub proof fn announcing_past_an_announcement<T>(s: State<T>, ann: usize) -> (num: nat)
    requires
        quiet(s),
        marked(s.head),
        EnqueueBatch::start(ann).ready(s),
    ensures
        ({
            let op = Op::EnqueueBatch(EnqueueBatch::start(ann));
            let s1 = memory_alone(s, op, num);
            let d = s.drafts[s.ann(ann).batch_req.first_enq];
            &&& machine_alone(s, op, num) == Op::EnqueueBatch(
                EnqueueBatch { ann, at: EnqueueBatchStage::Done { head: s.head_node() } },
            )
            &&& s1.wf()
            &&& s1.items() == full_items(s) + s.items_of(d)
            &&& s1.chain == full_chain(s) + d
            &&& s1.head == s.head_node()
            &&& s1.tail == s.ann(ann).batch_req.last_enq
            &&& s1.retired_anns == s.retired_anns.push(ann)
            &&& s.ann(ann).old_tail_count == 0 ==> batch_counts(s1, ann)
            &&& s1.ann(ann).old_head_node == s.head_node()
            &&& s1.ann(ann).old_head_count == s.node(s.head_node()).count
        }),
{
    announcer_gets_done(s, EnqueueBatch::start(ann))
}

} // verus!
