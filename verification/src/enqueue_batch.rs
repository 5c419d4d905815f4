//! Adding a batch of nodes to the queue as a whole: it is announced in the head, and whoever comes
//! across the announcement carries it out.
use crate::execute_ann::{AnnStage, ExecuteAnn};
use crate::help_head::HelpHead;
use crate::moves::Stake;
use crate::node::Ann;
use crate::state::{Access, State};
use crate::tag::{mark, marked, tag_ann};
use vstd::prelude::*;

verus! {

/// How far the batch has been added: each stage awaits the outcome of one access.
#[derive(Clone, Copy)]
pub enum EnqueueBatchStage {
    /// The node in the head is being looked for.
    Help { help: HelpHead },
    /// What is the count of `head`, the node in the head?
    Count { head: usize },
    /// The node that the announcement is to take the place of is being written into it.
    SetHead { head: usize, count: usize },
    /// The announcement is taking the place of `head`.
    Enter { head: usize },
    /// The announcement took the place of `head` and is being carried out.
    Execute { head: usize, run: ExecuteAnn },
    /// The announcement is being retired.
    Retire { head: usize },
    /// The batch is part of the queue.
    Done { head: usize },
}

/// A thread that adds the batch that the announcement `ann` speaks of.
#[derive(Clone, Copy)]
pub struct EnqueueBatch {
    pub ann: usize,
    pub at: EnqueueBatchStage,
}

impl EnqueueBatch {
    /// A thread that is about to announce `ann`.
    pub fn new(ann: usize) -> (r: Self)
        ensures
            r == EnqueueBatch::start(ann),
    {
        EnqueueBatch { ann, at: EnqueueBatchStage::Help { help: HelpHead::Load } }
    }

    /// A thread that is about to announce `ann`.
    pub open spec fn start(ann: usize) -> Self {
        EnqueueBatch { ann, at: EnqueueBatchStage::Help { help: HelpHead::Load } }
    }

    /// The access that the stage calls for.
    pub open spec fn spec_access(self) -> Access {
        match self.at {
            EnqueueBatchStage::Help { help } => help.access(),
            EnqueueBatchStage::Count { head } => Access::LoadCount { node: head },
            EnqueueBatchStage::SetHead { head, count } => Access::SetOldHead {
                ann: self.ann,
                head,
                count,
            },
            EnqueueBatchStage::Enter { head } => Access::CasHead {
                current: head,
                new: mark(self.ann),
            },
            EnqueueBatchStage::Execute { head, run } => run.access(),
            EnqueueBatchStage::Retire { head } => Access::RetireAnn { ann: self.ann },
            EnqueueBatchStage::Done { head } => Access::Rest,
        }
    }

    /// The stage that follows once the access has observed `seen`.
    pub open spec fn spec_next(self, seen: usize) -> Self {
        let at = match self.at {
            EnqueueBatchStage::Help { help } => match help.next(seen) {
                HelpHead::Done { node } => EnqueueBatchStage::Count { head: node },
                h => EnqueueBatchStage::Help { help: h },
            },
            EnqueueBatchStage::Count { head } => EnqueueBatchStage::SetHead { head, count: seen },
            EnqueueBatchStage::SetHead { head, count } => EnqueueBatchStage::Enter { head },
            EnqueueBatchStage::Enter { head } => if seen == head {
                EnqueueBatchStage::Execute { head, run: ExecuteAnn::start(self.ann) }
            } else {
                EnqueueBatchStage::Help { help: HelpHead::Load }
            },
            EnqueueBatchStage::Execute { head, run } => if run.next(seen).at is Done {
                EnqueueBatchStage::Retire { head }
            } else {
                EnqueueBatchStage::Execute { head, run: run.next(seen) }
            },
            EnqueueBatchStage::Retire { head } => EnqueueBatchStage::Done { head },
            EnqueueBatchStage::Done { head } => self.at,
        };
        EnqueueBatch { ann: self.ann, at }
    }

    /// The access that the stage calls for.
    #[verifier::when_used_as_spec(spec_access)]
    pub fn access(self) -> (access: Access)
        ensures
            access == self.spec_access(),
    {
        match self.at {
            EnqueueBatchStage::Help { help } => help.access(),
            EnqueueBatchStage::Count { head } => Access::LoadCount { node: head },
            EnqueueBatchStage::SetHead { head, count } => Access::SetOldHead {
                ann: self.ann,
                head,
                count,
            },
            EnqueueBatchStage::Enter { head } => Access::CasHead {
                current: head,
                new: tag_ann(self.ann),
            },
            EnqueueBatchStage::Execute { run, .. } => run.access(),
            EnqueueBatchStage::Retire { .. } => Access::RetireAnn { ann: self.ann },
            EnqueueBatchStage::Done { .. } => Access::Rest,
        }
    }

    /// The stage that follows once the access has observed `seen`.
    #[verifier::when_used_as_spec(spec_next)]
    pub fn next(self, seen: usize) -> (r: Self)
        ensures
            r == self.spec_next(seen),
    {
        let at = match self.at {
            EnqueueBatchStage::Help { help } => match help.next(seen) {
                HelpHead::Done { node } => EnqueueBatchStage::Count { head: node },
                h => EnqueueBatchStage::Help { help: h },
            },
            EnqueueBatchStage::Count { head } => EnqueueBatchStage::SetHead { head, count: seen },
            EnqueueBatchStage::SetHead { head, .. } => EnqueueBatchStage::Enter { head },
            EnqueueBatchStage::Enter { head } => {
                if seen == head {
                    EnqueueBatchStage::Execute { head, run: ExecuteAnn::new(self.ann) }
                } else {
                    EnqueueBatchStage::Help { help: HelpHead::Load }
                }
            },
            EnqueueBatchStage::Execute { head, run } => {
                let run = run.next(seen);
                match run.at {
                    AnnStage::Done => EnqueueBatchStage::Retire { head },
                    _ => EnqueueBatchStage::Execute { head, run },
                }
            },
            EnqueueBatchStage::Retire { head } => EnqueueBatchStage::Done { head },
            EnqueueBatchStage::Done { .. } => self.at,
        };
        EnqueueBatch { ann: self.ann, at }
    }

    /// Whether the batch is part of the queue and nothing is left to do.
    pub open spec fn spec_is_done(self) -> bool {
        self.at is Done
    }

    /// Whether the batch is part of the queue and nothing is left to do.
    #[verifier::when_used_as_spec(spec_is_done)]
    pub fn is_done(self) -> (b: bool)
        ensures
            b == (self.at is Done),
            b == self.spec_is_done(),
    {
        matches!(self.at, EnqueueBatchStage::Done { .. })
    }

    /// The node that the announcement took the place of, or 0 while it has not.
    pub open spec fn spec_old_head(self) -> usize {
        match self.at {
            EnqueueBatchStage::Execute { head, run } => head,
            EnqueueBatchStage::Retire { head } => head,
            EnqueueBatchStage::Done { head } => head,
            _ => 0,
        }
    }

    /// The node that the announcement took the place of, or 0 while it has not.
    #[verifier::when_used_as_spec(spec_old_head)]
    pub fn old_head(self) -> (head: usize)
        ensures
            head == match self.at {
                EnqueueBatchStage::Execute { head, run } => head,
                EnqueueBatchStage::Retire { head } => head,
                EnqueueBatchStage::Done { head } => head,
                _ => 0,
            },
            head == self.spec_old_head(),
    {
        match self.at {
            EnqueueBatchStage::Execute { head, .. } => head,
            EnqueueBatchStage::Retire { head } => head,
            EnqueueBatchStage::Done { head } => head,
            _ => 0,
        }
    }

    /// The announcement has stood in the head.
    pub open spec fn entered(self) -> bool {
        self.at is Execute || self.at is Retire || self.at is Done
    }

    /// The announcement and its batch are built, and nobody else knows of them.
    pub open spec fn ready<T>(self, s: State<T>) -> bool {
        &&& s.is_ann(self.ann)
        &&& !s.published.contains(self.ann)
        &&& s.drafts.contains_key(s.ann(self.ann).batch_req.first_enq)
    }

    /// What the thread knows of the memory `s`, whatever other threads are doing.
    pub open spec fn inv<T>(self, s: State<T>) -> bool {
        &&& if self.entered() {
            &&& s.published.contains(self.ann)
            &&& !(self.at is Done) ==> !s.retired_anns.contains(self.ann)
        } else {
            self.ready(s)
        }
        &&& match self.at {
            EnqueueBatchStage::Help { help } => help.inv(s) && !(help is Done),
            EnqueueBatchStage::Count { head } => s.chain.contains(head),
            EnqueueBatchStage::SetHead { head, count } => s.chain.contains(head),
            EnqueueBatchStage::Enter { head } => {
                &&& s.chain.contains(head)
                &&& s.ann(self.ann).old_head_node == head
            },
            EnqueueBatchStage::Execute { head, run } => run.ann == self.ann && run.inv(s),
            EnqueueBatchStage::Retire { head } => {
                &&& s.ann(self.ann).old_tail_node != 0
                &&& s.head != mark(self.ann)
            },
            EnqueueBatchStage::Done { head } => s.ann(self.ann).old_tail_node != 0,
        }
    }

    /// What belongs to the operation.
    pub open spec fn stake<T>(self, s: State<T>) -> Stake {
        Stake {
            drafts: if self.entered() {
                Set::empty()
            } else {
                set![s.ann(self.ann).batch_req.first_enq]
            },
            anns: if self.at is Done {
                Set::empty()
            } else {
                set![self.ann]
            },
            ..Stake::none()
        }
    }

    /// The access comes too late to carry out the announcement that it is part of carrying out.
    pub open spec fn late<T>(self, s: State<T>) -> bool {
        match self.at {
            EnqueueBatchStage::Help { help } => help.late(s),
            EnqueueBatchStage::Execute { head, run } => run.late(s),
            _ => false,
        }
    }

    /// The access links the batch of an announcement.
    pub open spec fn links<T>(self, s: State<T>) -> bool {
        match self.at {
            EnqueueBatchStage::Help { help } => help.links(s),
            EnqueueBatchStage::Execute { head, run } => run.links(s),
            _ => false,
        }
    }

    /// The nodes of that batch.
    pub open spec fn batch<T>(self, s: State<T>) -> Seq<usize> {
        match self.at {
            EnqueueBatchStage::Execute { head, run } => run.batch(s),
            _ => self.at->help.batch(s),
        }
    }

    /// Every access that does not come late leaves the memory in order and spares what belongs to
    /// other operations, and changes the contents of the queue only by adding an announced batch.
    /// The thread goes on from a node in the head only with the access that confirms it, at a moment
    /// when it is not retired.
    #[verifier::rlimit(30)]
    pub proof fn step<T>(self, s: State<T>)
        requires
            s.wf(),
            self.inv(s),
            !self.late(s),
        ensures
            s.allows(self.access()),
            s.after(self.access()).wf(),
            self.next(s.seen(self.access())).inv(s.after(self.access())),
            s.moves_to(s.after(self.access()), self.stake(s)),
            self.next(s.seen(self.access())).stake(s.after(self.access())).from(
                self.stake(s),
                s,
                s.after(self.access()),
            ),
            s.after(self.access()).items() == if self.links(s) {
                s.items() + s.items_of(self.batch(s))
            } else {
                s.items()
            },
            !(self.at is Count) && self.next(s.seen(self.access())).at is Count ==> {
                &&& self.at is Help
                &&& self.at->help is Confirm
                &&& s.head == self.at->help->word
                &&& self.next(s.seen(self.access())).at->Count_head == s.head
                &&& !marked(s.head)
                &&& !s.retired.contains(s.head)
            },
    {
        let s1 = s.after(self.access());
        let n = s.ann(self.ann);
        s.places();
        match self.at {
            EnqueueBatchStage::Help { help } => {
                help.step(s, self.stake(s));
                help.step(s, Stake::none());
                self.ready_stays(s, s1, Stake::none());
            },
            EnqueueBatchStage::SetHead { head, count } => {
                let n1 = Ann { old_head_node: head, old_head_count: count, ..n };
                s.ann_changes(self.ann, n1, self.stake(s));
                crate::moves::put_facts(s.anns, self.ann, n1);
            },
            EnqueueBatchStage::Enter { head } => {
                if s.head == head {
                    s.ann_enters(self.ann, self.stake(s));
                    assert(!s.retired_anns.contains(self.ann));
                }
            },
            EnqueueBatchStage::Execute { head, run } => {
                run.step(s, self.stake(s));
                run.step(s, Stake::none());
            },
            EnqueueBatchStage::Retire { head } => {
                s.ann_retires(self.ann, self.stake(s));
            },
            _ => {},
        }
    }

    /// The announcement stays ready while others do not touch it.
    proof fn ready_stays<T>(self, s: State<T>, s1: State<T>, theirs: Stake)
        requires
            s.wf(),
            self.ready(s),
            s.moves_to(s1, theirs),
            !theirs.drafts.contains(s.ann(self.ann).batch_req.first_enq),
            !theirs.anns.contains(self.ann),
        ensures
            self.ready(s1),
            s1.ann(self.ann) == s.ann(self.ann),
    {
        assert(s1.ann(self.ann) == s.ann(self.ann));
        assert(!s.announced(s.ann(self.ann).batch_req.first_enq));
    }

    /// What the thread knows stays true whatever another operation does, and so does what belongs
    /// to it.
    pub proof fn undisturbed<T>(self, s: State<T>, s1: State<T>, theirs: Stake)
        requires
            s.wf(),
            s1.wf(),
            self.inv(s),
            s.moves_to(s1, theirs),
            theirs.apart(self.stake(s)),
        ensures
            self.inv(s1),
            self.stake(s1) == self.stake(s),
    {
        s.places_stay(s1);
        assert(s.is_ann(self.ann));
        assert(s1.ann(self.ann).batch_req == s.ann(self.ann).batch_req);
        if !(self.at is Done) {
            assert(self.stake(s).anns.contains(self.ann));
        }
        if !self.entered() {
            assert(self.stake(s).drafts.contains(s.ann(self.ann).batch_req.first_enq));
            self.ready_stays(s, s1, theirs);
        }
        match self.at {
            EnqueueBatchStage::Help { help } => {
                help.undisturbed(s, s1, theirs);
            },
            EnqueueBatchStage::Execute { head, run } => {
                run.undisturbed(s, s1, theirs);
            },
            _ => {},
        }
    }
}

} // verus!
