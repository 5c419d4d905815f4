//! What an operation may rely on: a node or an announcement that it works with is one that it found
//! in its place and protects since, and it lets go of it when it proves to be there no longer.
use crate::dequeue::Dequeue;
use crate::dequeue_batch::DequeueBatchStage;
use crate::enqueue::EnqueueStage;
use crate::enqueue_batch::EnqueueBatchStage;
use crate::execute_ann::{AnnStage, ExecuteAnn};
use crate::interleaving::Op;
use crate::moves::Stake;
use crate::state::{Access, State};
use crate::tag::{address, mark, marked};
use vstd::prelude::*;

verus! {

impl Op {
    /// The node that the operation has found in the head and goes on from.
    pub open spec fn head_in_hand(self) -> Option<usize> {
        match self {
            Op::Enqueue(op) => None,
            Op::Dequeue(op) => match op {
                Dequeue::Next { head } => Some(head),
                Dequeue::Again { head, next } => Some(head),
                Dequeue::Advance { head, next, node } => Some(head),
                _ => None,
            },
            Op::EnqueueBatch(op) => match op.at {
                EnqueueBatchStage::Count { head } => Some(head),
                EnqueueBatchStage::SetHead { head, count } => Some(head),
                EnqueueBatchStage::Enter { head } => Some(head),
                _ => None,
            },
            Op::DequeueBatch(op) => match op.at {
                DequeueBatchStage::Count { start } => Some(start),
                DequeueBatchStage::Walk { start, count, node, num } => Some(start),
                DequeueBatchStage::SetCount { start, count, node, num } => Some(start),
                DequeueBatchStage::Advance { start, node, num } => Some(start),
                _ => None,
            },
        }
    }

    /// The word that the operation has read from the head, and what it leads to is being protected.
    pub open spec fn word_in_doubt(self) -> Option<usize> {
        match self {
            Op::Enqueue(op) => match op.at {
                EnqueueStage::ConfirmAnn { word } => Some(word),
                _ => None,
            },
            Op::Dequeue(op) => if op is Help && op->help is Confirm {
                Some(op->help->word)
            } else {
                None
            },
            Op::EnqueueBatch(op) => if op.at is Help && op.at->help is Confirm {
                Some(op.at->help->word)
            } else {
                None
            },
            Op::DequeueBatch(op) => if op.at is Help && op.at->help is Confirm {
                Some(op.at->help->word)
            } else {
                None
            },
        }
    }

    /// The node that the operation has found at the tail.
    pub open spec fn tail_in_hand(self) -> Option<usize> {
        match self {
            Op::Enqueue(op) => match op.at {
                EnqueueStage::Link { tail } => Some(tail),
                EnqueueStage::SwingTail { tail } => Some(tail),
                EnqueueStage::Head { tail, next } => Some(tail),
                EnqueueStage::AdvanceTail { tail, next } => Some(tail),
                EnqueueStage::Help { run } => run.tail_in_hand(),
                _ => None,
            },
            _ => match self.run() {
                Some(run) => run.tail_in_hand(),
                None => None,
            },
        }
    }
}

impl ExecuteAnn {
    /// The node that the thread has found at the tail.
    pub open spec fn tail_in_hand(self) -> Option<usize> {
        match self.at {
            AnnStage::TailCount { tail } => Some(tail),
            AnnStage::First { tail, count } => Some(tail),
            AnnStage::Link { tail, count, first } => Some(tail),
            AnnStage::RecordTail { tail, count } => Some(tail),
            AnnStage::AdvanceTail { tail, next } => Some(tail),
            _ => None,
        }
    }
}

/// An operation goes on from a node in the head only if it has read the head, and found the same
/// node there once more when it was protected. The node is not retired at that moment.
pub proof fn heads_are_confirmed<T>(s: State<T>, op: Op)
    requires
        s.wf(),
        op.inv(s),
        !op.late(s),
    ensures
        ({
            let op1 = op.next(s.seen(op.access()));
            op1.head_in_hand() is Some ==> op.head_in_hand() == op1.head_in_hand() || {
                &&& op.access() == Access::ConfirmHead { word: s.head }
                &&& op.word_in_doubt() == Some(s.head)
                &&& op1.head_in_hand() == Some(s.head)
                &&& !marked(s.head)
                &&& !s.retired.contains(s.head)
            }
        }),
        ({
            let op1 = op.next(s.seen(op.access()));
            op1.word_in_doubt() is Some ==> op.word_in_doubt() == op1.word_in_doubt() || {
                &&& op.access() is LoadHead
                &&& op1.word_in_doubt() == Some(s.head)
            }
        }),
{
    match op {
        Op::Enqueue(o) => o.step(s),
        Op::Dequeue(o) => o.step(s),
        Op::EnqueueBatch(o) => o.step(s),
        Op::DequeueBatch(o) => o.step(s),
    }
}

/// An operation that tries to change the head lets go of the node that it found there, whether or
/// not it was there still. So does one that finds another word in the head than the one that it has
/// read.
pub proof fn lost_heads_are_let_go<T>(s: State<T>, op: Op)
    requires
        s.wf(),
        op.inv(s),
    ensures
        ({
            let op1 = op.next(s.seen(op.access()));
            &&& op.head_in_hand() is Some && op.access() is CasHead ==> op1.head_in_hand() is None
            &&& op.access() is ConfirmHead && op.word_in_doubt() is Some && s.head
                != op.word_in_doubt()->0 ==> op1.word_in_doubt() is None && op1.run() is None
                && op1.head_in_hand() is None
        }),
{
}

/// An operation carries out an announcement only if it has found it in the head once more when it
/// was protected, or has put it there itself. The announcement is not retired at that moment.
pub proof fn announcements_are_confirmed<T>(s: State<T>, op: Op)
    requires
        s.wf(),
        op.inv(s),
        !op.late(s),
    ensures
        ({
            let op1 = op.next(s.seen(op.access()));
            op1.run() is Some ==> (op.run() is Some && op1.run()->0.ann == op.run()->0.ann) || (
            marked(s.head) && op.access() == Access::ConfirmHead { word: s.head }
                && op.word_in_doubt() == Some(s.head) && op1.run() == Some(
                ExecuteAnn::start(address(s.head)),
            ) && !s.retired_anns.contains(address(s.head))) || (op is EnqueueBatch
                && op.head_in_hand() == Some(s.head) && op1.run() == Some(
                ExecuteAnn::start(op->EnqueueBatch_0.ann),
            ) && s.after(op.access()).head == mark(op->EnqueueBatch_0.ann))
        }),
{
    match op {
        Op::Enqueue(o) => o.step(s),
        Op::Dequeue(o) => {
            o.step(s);
            if o is Help {
                o->help.step(s, Stake::none());
            }
        },
        Op::EnqueueBatch(o) => {
            o.step(s);
            if o.at is Help {
                o.at->help.step(s, Stake::none());
            }
        },
        Op::DequeueBatch(o) => {
            o.step(s);
            if o.at is Help {
                o.at->help.step(s, Stake::none());
            }
        },
    }
}

/// An operation works with a node at the tail only if it has found it there, and lets go of it when
/// it has tried to move the tail.
pub proof fn tails_are_found<T>(s: State<T>, op: Op)
    requires
        s.wf(),
        op.inv(s),
    ensures
        ({
            let op1 = op.next(s.seen(op.access()));
            &&& op1.tail_in_hand() is Some ==> op.tail_in_hand() == op1.tail_in_hand() || (
            op.access() is LoadTail && op1.tail_in_hand() == Some(s.tail))
            &&& op.tail_in_hand() is Some && op.access() is CasTail ==> op1.tail_in_hand() is None
        }),
{
}

/// An operation that takes items takes them from nodes that it has found behind a node in its hand,
/// at the next place of the list.
pub proof fn items_come_from_behind<T>(s: State<T>, op: Op)
    requires
        s.wf(),
        op.inv(s),
        !op.late(s),
    ensures
        ({
            let s1 = s.after(op.access());
            let op1 = op.next(s.seen(op.access()));
            &&& op1 is Dequeue && op1->Dequeue_0 is Advance && !(op->Dequeue_0 is Advance) ==> {
                &&& op.head_in_hand() is Some
                &&& op.access() == Access::LoadNext { node: op.head_in_hand()->0 }
                &&& op1->Dequeue_0->Advance_node == s.chain[s.pos(op.head_in_hand()->0) + 1]
            }
            &&& op1 is DequeueBatch && op1->DequeueBatch_0.at is Take && !(
            op->DequeueBatch_0.at is Take) ==> {
                &&& op->DequeueBatch_0.at is Next
                &&& op.access() == Access::LoadNext { node: op->DequeueBatch_0.at->Next_node }
                &&& op1->DequeueBatch_0.at->Take_next == s.chain[s.pos(
                    op->DequeueBatch_0.at->Next_node,
                ) + 1]
            }
        }),
{
    match op {
        Op::Dequeue(o) => {
            o.step(s);
            match o {
                Dequeue::Again { head, next } => {
                    s.follows(head);
                },
                _ => {},
            }
        },
        Op::DequeueBatch(o) => {
            match o.at {
                DequeueBatchStage::Next { node, left } => {
                    s.follows(node);
                },
                _ => {},
            }
        },
        _ => {},
    }
}

/// What is written once stays: no access changes which node follows another, which node a batch was
/// linked behind, or which count was recorded, once there is one; and no access brings back an item
/// that was taken.
pub proof fn written_once<T>(s: State<T>, access: Access, node: usize, ann: usize)
    requires
        s.allows(access),
        s.is_node(node),
        s.is_ann(ann),
    ensures
        ({
            let s1 = s.after(access);
            &&& s1.is_node(node)
            &&& s1.is_ann(ann)
            &&& s.node(node).next != 0 ==> s1.node(node).next == s.node(node).next
            &&& s.node(node).item is None ==> s1.node(node).item is None
            &&& s.node(node).item is Some ==> s1.node(node).item is None || s1.node(node).item
                == s.node(node).item
            &&& s1.ann(ann).batch_req == s.ann(ann).batch_req
            &&& s.ann(ann).old_tail_node != 0 ==> s1.ann(ann).old_tail_node == s.ann(
                ann,
            ).old_tail_node
            &&& s.ann(ann).old_tail_count != 0 ==> s1.ann(ann).old_tail_count == s.ann(
                ann,
            ).old_tail_count
        }),
{
}

/// An access that is to replace a word changes it only if it finds what it expects, and it always
/// tells what it found: so one that tells what was expected has replaced it.
pub proof fn replaced_if_expected<T>(s: State<T>, current: usize, new: usize)
    ensures
        ({
            let head = Access::CasHead { current, new };
            let tail = Access::CasTail { current, new };
            &&& s.seen(head) == current ==> s.after(head).head == new
            &&& s.seen(head) != current ==> s.after(head) == s && s.seen(head) == s.head
            &&& s.seen(tail) == current ==> s.after(tail).tail == new
            &&& s.seen(tail) != current ==> s.after(tail) == s && s.seen(tail) == s.tail
        }),
{
}

} // verus!
