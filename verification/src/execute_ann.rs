//! Carrying out an announced batch: linking it behind the last node, moving the tail to its end,
//! and putting the node that the announcement took the place of back into the head. Any number of
//! threads may be at it at once.
use crate::moves::Stake;
use crate::node::Ann;
use crate::state::{Access, State};
use crate::tag::mark;
use vstd::prelude::*;

verus! {

/// How far an announcement has been carried out: each stage awaits the outcome of one access.
#[derive(Clone, Copy)]
pub enum AnnStage {
    /// Is the batch recorded as linked?
    Recorded,
    /// Which node is at the tail?
    Tail,
    /// What is the count of the node at the tail?
    TailCount { tail: usize },
    /// Which node does the batch start with?
    First { tail: usize, count: usize },
    /// Is the batch now linked behind `tail`?
    Link { tail: usize, count: usize, first: usize },
    /// `tail` is being recorded as the node before the batch.
    RecordTail { tail: usize, count: usize },
    /// `count` is being recorded as the count of that node.
    RecordCount { count: usize },
    /// The tail is being moved on to `next`.
    AdvanceTail { tail: usize, next: usize },
    /// Which node is recorded as the one before the batch?
    OldTail,
    /// Which count is recorded?
    OldTailCount { old_tail: usize },
    /// Which node does the batch end with?
    Last { old_tail: usize, count: usize },
    /// How long is the batch?
    Num { old_tail: usize, count: usize, last: usize },
    /// The count of the last node is being set.
    SetCount { old_tail: usize, last: usize, count: usize },
    /// The tail is being moved over the batch.
    SwingTail { old_tail: usize, last: usize },
    /// Which node did the announcement take the place of?
    OldHead,
    /// What stands in the head?
    Head { old_head: usize },
    /// `old_head` is being put back into the head.
    Restore { current: usize, old_head: usize },
    /// Nothing is left to do.
    Done,
}

/// A thread that carries out the announcement `ann`.
#[derive(Clone, Copy)]
pub struct ExecuteAnn {
    pub ann: usize,
    pub at: AnnStage,
}

impl ExecuteAnn {
    /// A thread that is about to carry out `ann`.
    pub fn new(ann: usize) -> (r: Self)
        ensures
            r == ExecuteAnn::start(ann),
    {
        ExecuteAnn { ann, at: AnnStage::Recorded }
    }

    /// A thread that is about to carry out `ann`.
    pub open spec fn start(ann: usize) -> Self {
        ExecuteAnn { ann, at: AnnStage::Recorded }
    }

    /// The access that the stage calls for.
    pub open spec fn spec_access(self) -> Access {
        let ann = self.ann;
        match self.at {
            AnnStage::Recorded => Access::LoadOldTail { ann },
            AnnStage::Tail => Access::LoadTail,
            AnnStage::TailCount { tail } => Access::LoadCount { node: tail },
            AnnStage::First { tail, count } => Access::LoadFirst { ann },
            AnnStage::Link { tail, count, first } => Access::CasNext { node: tail, new: first },
            AnnStage::RecordTail { tail, count } => Access::CasOldTail { ann, new: tail },
            AnnStage::RecordCount { count } => Access::CasOldTailCount { ann, new: count },
            AnnStage::AdvanceTail { tail, next } => Access::CasTail { current: tail, new: next },
            AnnStage::OldTail => Access::LoadOldTail { ann },
            AnnStage::OldTailCount { old_tail } => Access::LoadOldTailCount { ann },
            AnnStage::Last { old_tail, count } => Access::LoadLast { ann },
            AnnStage::Num { old_tail, count, last } => Access::LoadNum { ann },
            AnnStage::SetCount { old_tail, last, count } => Access::StoreCount {
                node: last,
                count,
            },
            AnnStage::SwingTail { old_tail, last } => Access::CasTail {
                current: old_tail,
                new: last,
            },
            AnnStage::OldHead => Access::LoadOldHead { ann },
            AnnStage::Head { old_head } => Access::LoadHead,
            AnnStage::Restore { current, old_head } => Access::CasHead { current, new: old_head },
            AnnStage::Done => Access::Rest,
        }
    }

    /// The stage that follows once the access has observed `seen`.
    pub open spec fn spec_next(self, seen: usize) -> Self {
        let at = match self.at {
            AnnStage::Recorded => if seen != 0 {
                AnnStage::OldTail
            } else {
                AnnStage::Tail
            },
            AnnStage::Tail => if seen == 0 {
                AnnStage::Recorded
            } else {
                AnnStage::TailCount { tail: seen }
            },
            AnnStage::TailCount { tail } => AnnStage::First { tail, count: seen },
            AnnStage::First { tail, count } => AnnStage::Link { tail, count, first: seen },
            AnnStage::Link { tail, count, first } => if seen == 0 || seen == first {
                AnnStage::RecordTail { tail, count }
            } else {
                AnnStage::AdvanceTail { tail, next: seen }
            },
            AnnStage::RecordTail { tail, count } => AnnStage::RecordCount { count },
            AnnStage::RecordCount { count } => AnnStage::OldTail,
            AnnStage::AdvanceTail { tail, next } => AnnStage::Recorded,
            AnnStage::OldTail => AnnStage::OldTailCount { old_tail: seen },
            AnnStage::OldTailCount { old_tail } => AnnStage::Last { old_tail, count: seen },
            AnnStage::Last { old_tail, count } => AnnStage::Num { old_tail, count, last: seen },
            AnnStage::Num { old_tail, count, last } => AnnStage::SetCount {
                old_tail,
                last,
                count: count.wrapping_add(seen),
            },
            AnnStage::SetCount { old_tail, last, count } => AnnStage::SwingTail { old_tail, last },
            AnnStage::SwingTail { old_tail, last } => AnnStage::OldHead,
            AnnStage::OldHead => AnnStage::Head { old_head: seen },
            AnnStage::Head { old_head } => AnnStage::Restore { current: seen, old_head },
            AnnStage::Restore { current, old_head } => AnnStage::Done,
            AnnStage::Done => AnnStage::Done,
        };
        ExecuteAnn { ann: self.ann, at }
    }

    /// The access that the stage calls for.
    #[verifier::when_used_as_spec(spec_access)]
    pub fn access(self) -> (access: Access)
        ensures
            access == self.spec_access(),
    {
        let ann = self.ann;
        match self.at {
            AnnStage::Recorded => Access::LoadOldTail { ann },
            AnnStage::Tail => Access::LoadTail,
            AnnStage::TailCount { tail } => Access::LoadCount { node: tail },
            AnnStage::First { .. } => Access::LoadFirst { ann },
            AnnStage::Link { tail, first, .. } => Access::CasNext { node: tail, new: first },
            AnnStage::RecordTail { tail, .. } => Access::CasOldTail { ann, new: tail },
            AnnStage::RecordCount { count } => Access::CasOldTailCount { ann, new: count },
            AnnStage::AdvanceTail { tail, next } => Access::CasTail { current: tail, new: next },
            AnnStage::OldTail => Access::LoadOldTail { ann },
            AnnStage::OldTailCount { .. } => Access::LoadOldTailCount { ann },
            AnnStage::Last { .. } => Access::LoadLast { ann },
            AnnStage::Num { .. } => Access::LoadNum { ann },
            AnnStage::SetCount { last, count, .. } => Access::StoreCount { node: last, count },
            AnnStage::SwingTail { old_tail, last } => Access::CasTail {
                current: old_tail,
                new: last,
            },
            AnnStage::OldHead => Access::LoadOldHead { ann },
            AnnStage::Head { .. } => Access::LoadHead,
            AnnStage::Restore { current, old_head } => Access::CasHead { current, new: old_head },
            AnnStage::Done => Access::Rest,
        }
    }

    /// The stage that follows once the access has observed `seen`.
    #[verifier::when_used_as_spec(spec_next)]
    pub fn next(self, seen: usize) -> (r: Self)
        ensures
            r == self.spec_next(seen),
    {
        let at = match self.at {
            AnnStage::Recorded => {
                if seen != 0 {
                    AnnStage::OldTail
                } else {
                    AnnStage::Tail
                }
            },
            AnnStage::Tail => {
                if seen == 0 {
                    AnnStage::Recorded
                } else {
                    AnnStage::TailCount { tail: seen }
                }
            },
            AnnStage::TailCount { tail } => AnnStage::First { tail, count: seen },
            AnnStage::First { tail, count } => AnnStage::Link { tail, count, first: seen },
            AnnStage::Link { tail, count, first } => {
                if seen == 0 || seen == first {
                    AnnStage::RecordTail { tail, count }
                } else {
                    AnnStage::AdvanceTail { tail, next: seen }
                }
            },
            AnnStage::RecordTail { count, .. } => AnnStage::RecordCount { count },
            AnnStage::RecordCount { .. } => AnnStage::OldTail,
            AnnStage::AdvanceTail { .. } => AnnStage::Recorded,
            AnnStage::OldTail => AnnStage::OldTailCount { old_tail: seen },
            AnnStage::OldTailCount { old_tail } => AnnStage::Last { old_tail, count: seen },
            AnnStage::Last { old_tail, count } => AnnStage::Num { old_tail, count, last: seen },
            AnnStage::Num { old_tail, count, last } => AnnStage::SetCount {
                old_tail,
                last,
                count: count.wrapping_add(seen),
            },
            AnnStage::SetCount { old_tail, last, .. } => AnnStage::SwingTail { old_tail, last },
            AnnStage::SwingTail { .. } => AnnStage::OldHead,
            AnnStage::OldHead => AnnStage::Head { old_head: seen },
            AnnStage::Head { old_head } => AnnStage::Restore { current: seen, old_head },
            AnnStage::Restore { .. } => AnnStage::Done,
            AnnStage::Done => AnnStage::Done,
        };
        ExecuteAnn { ann: self.ann, at }
    }

    /// What the thread knows of the memory `s`, whatever other threads are doing.
    pub open spec fn inv<T>(self, s: State<T>) -> bool {
        let n = s.ann(self.ann);
        let first = n.batch_req.first_enq;
        &&& s.published.contains(self.ann)
        &&& match self.at {
            AnnStage::Recorded => true,
            AnnStage::Tail => true,
            AnnStage::TailCount { tail } => s.chain.contains(tail),
            AnnStage::First { tail, count } => s.chain.contains(tail),
            AnnStage::Link { tail, count, first: f } => s.chain.contains(tail) && f == first,
            AnnStage::RecordTail { tail, count } => {
                &&& s.chain.contains(tail)
                &&& s.chain.contains(first)
                &&& s.pos(tail) + 1 == s.pos(first)
            },
            AnnStage::RecordCount { count } => n.old_tail_node != 0,
            AnnStage::AdvanceTail { tail, next } => s.chain.contains(next),
            AnnStage::OldTail => n.old_tail_node != 0,
            AnnStage::OldTailCount { old_tail } => n.old_tail_node != 0 && old_tail
                == n.old_tail_node,
            AnnStage::Last { old_tail, count } => n.old_tail_node != 0 && old_tail
                == n.old_tail_node,
            AnnStage::Num { old_tail, count, last } => n.old_tail_node != 0 && old_tail
                == n.old_tail_node && last == n.batch_req.last_enq,
            AnnStage::SetCount { old_tail, last, count } => n.old_tail_node != 0 && old_tail
                == n.old_tail_node && last == n.batch_req.last_enq,
            AnnStage::SwingTail { old_tail, last } => n.old_tail_node != 0 && old_tail
                == n.old_tail_node && last == n.batch_req.last_enq,
            AnnStage::OldHead => n.old_tail_node != 0,
            AnnStage::Head { old_head } => n.old_tail_node != 0 && old_head == n.old_head_node,
            AnnStage::Restore { current, old_head } => {
                &&& n.old_tail_node != 0
                &&& old_head == n.old_head_node
                &&& current == mark(self.ann) || s.head != mark(self.ann)
            },
            AnnStage::Done => n.old_tail_node != 0 && s.head != mark(self.ann),
        }
    }

    /// The thread has seen that no node is recorded before the batch, and has not looked again since:
    /// it may come to link the batch.
    pub open spec fn may_link(self) -> bool {
        self.at is Tail || self.at is TailCount || self.at is First || self.at is Link
    }

    /// The thread has not found the batch linked, nor linked it.
    pub open spec fn before_link(self) -> bool {
        self.at is Recorded || self.at is Tail || self.at is TailCount || self.at is First
            || self.at is Link || self.at is AdvanceTail
    }

    /// The access comes too late: other threads have carried the announcement out in the meantime,
    /// and the access would link the batch a second time, or would put a node back into the head
    /// that the head has already left behind.
    pub open spec fn late<T>(self, s: State<T>) -> bool {
        match self.at {
            AnnStage::Link { tail, count, first } => s.node(tail).next == 0 && s.chain.contains(
                first,
            ),
            AnnStage::Restore { current, old_head } => s.head == current && s.head_node()
                != old_head,
            _ => false,
        }
    }

    /// The access links the batch.
    pub open spec fn links<T>(self, s: State<T>) -> bool {
        self.at is Link && s.node(self.at->Link_tail).next == 0
    }

    /// The nodes of the batch, while it is still to be linked.
    pub open spec fn batch<T>(self, s: State<T>) -> Seq<usize> {
        s.drafts[s.ann(self.ann).batch_req.first_enq]
    }

    /// Every access that does not come late leaves the memory in order and spares what belongs to
    /// other operations. It adds the whole batch to the end of the queue if it links it, and
    /// leaves the contents of the queue as they are otherwise. The node that the thread links behind
    /// is the one that it found, and protects, at the tail, after it saw that no node is recorded
    /// before the batch; once one is recorded, a thread that has to look again does not link it. The
    /// thread tries to change the head once, and is done then.
    pub proof fn step<T>(self, s: State<T>, mine: Stake)
        requires
            s.wf(),
            self.inv(s),
            !self.late(s),
        ensures
            s.allows(self.access()),
            s.after(self.access()).wf(),
            self.next(s.seen(self.access())).inv(s.after(self.access())),
            s.moves_to(s.after(self.access()), mine),
            s.after(self.access()).items() == if self.links(s) {
                s.items() + s.items_of(self.batch(s))
            } else {
                s.items()
            },
            self.links(s) ==> {
                &&& s.drafts.contains_key(s.ann(self.ann).batch_req.first_enq)
                &&& self.batch(s).len() == s.ann(self.ann).batch_req.enqs_num
                &&& s.after(self.access()).chain == s.chain + self.batch(s)
            },
            !self.links(s) ==> s.after(self.access()).chain == s.chain,
            self.next(s.seen(self.access())).at is Tail ==> self.at is Recorded && s.ann(
                self.ann,
            ).old_tail_node == 0,
            s.ann(self.ann).old_tail_node != 0 && !self.may_link() ==> !self.next(
                s.seen(self.access()),
            ).may_link(),
            self.links(s) ==> self.may_link(),
            self.at is Restore ==> self.next(s.seen(self.access())).at is Done,
            self.next(s.seen(self.access())).at is TailCount ==> self.at is Tail && self.next(
                s.seen(self.access()),
            ).at->TailCount_tail == s.tail,
    {
        let s1 = s.after(self.access());
        let ann = self.ann;
        let n = s.ann(ann);
        assert(s.is_ann(ann));
        assert(s.ann_ok(n));
        s.places();
        match self.at {
            AnnStage::Link { tail, count, first } => {
                s.follows(tail);
                if s.node(tail).next == 0 {
                    assert(s.announced(first));
                    s.list_grows(tail, first, mine);
                    s.places_stay(s1);
                    s1.places();
                    assert(s.draft_ok(first));
                    assert(s1.chain[s.chain.len() as int] == first);
                }
            },
            AnnStage::RecordTail { tail, count } => {
                if n.old_tail_node == 0 {
                    s.ann_changes(ann, Ann { old_tail_node: tail, ..n }, mine);
                    crate::moves::put_facts(s.anns, ann, Ann { old_tail_node: tail, ..n });
                }
            },
            AnnStage::RecordCount { count } => {
                if n.old_tail_count == 0 {
                    s.ann_changes(ann, Ann { old_tail_count: count, ..n }, mine);
                    crate::moves::put_facts(s.anns, ann, Ann { old_tail_count: count, ..n });
                }
            },
            AnnStage::AdvanceTail { tail, next } => {
                s.tail_moves(next, mine);
            },
            AnnStage::SetCount { old_tail, last, count } => {
                s.count_changes(last, count, mine);
            },
            AnnStage::SwingTail { old_tail, last } => {
                s.tail_moves(last, mine);
            },
            AnnStage::Restore { current, old_head } => {
                if s.head == current {
                    s.ann_leaves(old_head, mine);
                }
            },
            _ => {},
        }
    }

    /// What the thread knows stays true whatever another operation does.
    pub proof fn undisturbed<T>(self, s: State<T>, s1: State<T>, theirs: Stake)
        requires
            s.wf(),
            s1.wf(),
            self.inv(s),
            s.moves_to(s1, theirs),
        ensures
            self.inv(s1),
    {
        s.places_stay(s1);
        assert(s.is_ann(self.ann));
        assert(s1.ann(self.ann).batch_req == s.ann(self.ann).batch_req);
    }
}

} // verus!
