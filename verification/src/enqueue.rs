//! Adding one node to the queue.
use crate::execute_ann::{AnnStage, ExecuteAnn};
use crate::moves::Stake;
use crate::state::{Access, State};
use crate::tag::{address, get_ann_ptr, is_ann, marked};
use vstd::prelude::*;

verus! {

/// How far the node has been added: each stage awaits the outcome of one access.
#[derive(Clone, Copy)]
pub enum EnqueueStage {
    /// Which node is at the tail?
    Tail,
    /// Is the node now linked behind `tail`?
    Link { tail: usize },
    /// The node is linked and the tail is being moved to it.
    SwingTail { tail: usize },
    /// `next` follows `tail`. What stands in the head?
    Head { tail: usize, next: usize },
    /// Does the announcement `word` still stand in the head, now that it is protected?
    ConfirmAnn { word: usize },
    /// An announcement stood in the head and is being carried out.
    Help { run: ExecuteAnn },
    /// The tail is being moved on to `next`.
    AdvanceTail { tail: usize, next: usize },
    /// The node is part of the queue.
    Done,
}

/// A thread that adds `node` to the queue.
#[derive(Clone, Copy)]
pub struct Enqueue {
    pub node: usize,
    pub at: EnqueueStage,
}

impl Enqueue {
    /// A thread that is about to add `node`.
    pub fn new(node: usize) -> (r: Self)
        ensures
            r == (Enqueue { node, at: EnqueueStage::Tail }),
    {
        Enqueue { node, at: EnqueueStage::Tail }
    }

    /// The access that the stage calls for.
    pub open spec fn spec_access(self) -> Access {
        match self.at {
            EnqueueStage::Tail => Access::LoadTail,
            EnqueueStage::Link { tail } => Access::CasNext { node: tail, new: self.node },
            EnqueueStage::SwingTail { tail } => Access::CasTail { current: tail, new: self.node },
            EnqueueStage::Head { tail, next } => Access::LoadHead,
            EnqueueStage::ConfirmAnn { word } => Access::ConfirmHead { word },
            EnqueueStage::Help { run } => run.access(),
            EnqueueStage::AdvanceTail { tail, next } => Access::CasTail {
                current: tail,
                new: next,
            },
            EnqueueStage::Done => Access::Rest,
        }
    }

    /// The stage that follows once the access has observed `seen`.
    pub open spec fn spec_next(self, seen: usize) -> Self {
        let at = match self.at {
            EnqueueStage::Tail => EnqueueStage::Link { tail: seen },
            EnqueueStage::Link { tail } => if seen == 0 {
                EnqueueStage::SwingTail { tail }
            } else {
                EnqueueStage::Head { tail, next: seen }
            },
            EnqueueStage::SwingTail { tail } => EnqueueStage::Done,
            EnqueueStage::Head { tail, next } => if marked(seen) {
                EnqueueStage::ConfirmAnn { word: seen }
            } else if next != 0 {
                EnqueueStage::AdvanceTail { tail, next }
            } else {
                EnqueueStage::Tail
            },
            EnqueueStage::ConfirmAnn { word } => if seen == word {
                EnqueueStage::Help { run: ExecuteAnn::start(address(word)) }
            } else {
                EnqueueStage::Tail
            },
            EnqueueStage::Help { run } => if run.next(seen).at is Done {
                EnqueueStage::Tail
            } else {
                EnqueueStage::Help { run: run.next(seen) }
            },
            EnqueueStage::AdvanceTail { tail, next } => EnqueueStage::Tail,
            EnqueueStage::Done => EnqueueStage::Done,
        };
        Enqueue { node: self.node, at }
    }

    /// The access that the stage calls for.
    #[verifier::when_used_as_spec(spec_access)]
    pub fn access(self) -> (access: Access)
        ensures
            access == self.spec_access(),
    {
        match self.at {
            EnqueueStage::Tail => Access::LoadTail,
            EnqueueStage::Link { tail } => Access::CasNext { node: tail, new: self.node },
            EnqueueStage::SwingTail { tail } => Access::CasTail { current: tail, new: self.node },
            EnqueueStage::Head { .. } => Access::LoadHead,
            EnqueueStage::ConfirmAnn { word } => Access::ConfirmHead { word },
            EnqueueStage::Help { run } => run.access(),
            EnqueueStage::AdvanceTail { tail, next } => Access::CasTail {
                current: tail,
                new: next,
            },
            EnqueueStage::Done => Access::Rest,
        }
    }

    /// The stage that follows once the access has observed `seen`.
    #[verifier::when_used_as_spec(spec_next)]
    pub fn next(self, seen: usize) -> (r: Self)
        ensures
            r == self.spec_next(seen),
    {
        let at = match self.at {
            EnqueueStage::Tail => EnqueueStage::Link { tail: seen },
            EnqueueStage::Link { tail } => {
                if seen == 0 {
                    EnqueueStage::SwingTail { tail }
                } else {
                    EnqueueStage::Head { tail, next: seen }
                }
            },
            EnqueueStage::SwingTail { .. } => EnqueueStage::Done,
            EnqueueStage::Head { tail, next } => {
                if is_ann(seen) {
                    EnqueueStage::ConfirmAnn { word: seen }
                } else if next != 0 {
                    EnqueueStage::AdvanceTail { tail, next }
                } else {
                    EnqueueStage::Tail
                }
            },
            EnqueueStage::ConfirmAnn { word } => {
                if seen == word {
                    EnqueueStage::Help { run: ExecuteAnn::new(get_ann_ptr(word)) }
                } else {
                    EnqueueStage::Tail
                }
            },
            EnqueueStage::Help { run } => {
                let run = run.next(seen);
                match run.at {
                    AnnStage::Done => EnqueueStage::Tail,
                    _ => EnqueueStage::Help { run },
                }
            },
            EnqueueStage::AdvanceTail { .. } => EnqueueStage::Tail,
            EnqueueStage::Done => EnqueueStage::Done,
        };
        Enqueue { node: self.node, at }
    }

    /// Whether the node is part of the queue and nothing is left to do.
    pub open spec fn spec_is_done(self) -> bool {
        self.at is Done
    }

    /// Whether the node is part of the queue and nothing is left to do.
    #[verifier::when_used_as_spec(spec_is_done)]
    pub fn is_done(self) -> (b: bool)
        ensures
            b == (self.at is Done),
            b == self.spec_is_done(),
    {
        matches!(self.at, EnqueueStage::Done)
    }

    /// The node has been linked.
    pub open spec fn linked(self) -> bool {
        self.at is SwingTail || self.at is Done
    }

    /// The node is built, belongs to no batch, and is not part of the list.
    pub open spec fn ready<T>(self, s: State<T>) -> bool {
        &&& s.drafts.contains_key(self.node)
        &&& s.drafts[self.node] == seq![self.node]
        &&& s.unannounced(self.node)
    }

    /// What the thread knows of the memory `s`, whatever other threads are doing.
    pub open spec fn inv<T>(self, s: State<T>) -> bool {
        &&& if self.linked() {
            s.chain.contains(self.node)
        } else {
            self.ready(s)
        }
        &&& match self.at {
            EnqueueStage::Link { tail } => s.chain.contains(tail),
            EnqueueStage::ConfirmAnn { word } => marked(word) && s.published.contains(
                address(word),
            ),
            EnqueueStage::Help { run } => run.inv(s),
            EnqueueStage::Head { tail, next } => s.chain.contains(next),
            EnqueueStage::AdvanceTail { tail, next } => s.chain.contains(next),
            _ => true,
        }
    }

    /// What belongs to the operation.
    pub open spec fn stake(self) -> Stake {
        Stake {
            drafts: if self.linked() {
                Set::empty()
            } else {
                set![self.node]
            },
            ..Stake::none()
        }
    }

    /// The access comes too late to carry out the announcement that it is part of carrying out.
    pub open spec fn late<T>(self, s: State<T>) -> bool {
        self.at is Help && self.at->run.late(s)
    }

    /// The access links the node.
    pub open spec fn adds<T>(self, s: State<T>) -> bool {
        self.at is Link && s.node(self.at->Link_tail).next == 0
    }

    /// With the access the thread gets to carry out an announcement.
    pub open spec fn takes_up<T>(self, s: State<T>) -> bool {
        !(self.at is Help) && self.next(s.seen(self.access())).at is Help
    }

    /// The access links the batch of an announcement.
    pub open spec fn links<T>(self, s: State<T>) -> bool {
        self.at is Help && self.at->run.links(s)
    }

    /// The nodes of that batch.
    pub open spec fn batch<T>(self, s: State<T>) -> Seq<usize> {
        self.at->run.batch(s)
    }

    /// Every access that does not come late leaves the memory in order and spares what belongs to
    /// other operations. The one access that links the node adds its item to the end of the queue;
    /// besides, only announced batches are added. An announcement that the thread has confirmed was
    /// not retired at that moment, and so it will not be freed as long as the thread protects it;
    /// and none is taken up but what that very access has confirmed. The node that the thread links
    /// behind is the one that it found, and protects, at the tail.
    pub proof fn step<T>(self, s: State<T>)
        requires
            s.wf(),
            self.inv(s),
            !self.late(s),
        ensures
            s.allows(self.access()),
            s.after(self.access()).wf(),
            self.next(s.seen(self.access())).inv(s.after(self.access())),
            s.moves_to(s.after(self.access()), self.stake()),
            self.next(s.seen(self.access())).stake().from(self.stake(), s, s.after(self.access())),
            s.after(self.access()).items() == if self.adds(s) {
                s.items().push(s.node(self.node).item->0)
            } else if self.links(s) {
                s.items() + s.items_of(self.batch(s))
            } else {
                s.items()
            },
            self.adds(s) <==> !self.linked() && self.next(s.seen(self.access())).linked(),
            self.at is ConfirmAnn && s.head == self.at->word ==> !s.retired_anns.contains(
                address(s.head),
            ),
            self.takes_up(s) ==> {
                &&& self.at is ConfirmAnn
                &&& s.head == self.at->word
                &&& self.next(s.seen(self.access())).at->run == ExecuteAnn::start(address(s.head))
            },
            self.next(s.seen(self.access())).at is Link ==> self.at is Link || (self.at is Tail
                && self.next(s.seen(self.access())).at->Link_tail == s.tail),
    {
        let s1 = s.after(self.access());
        s.places();
        match self.at {
            EnqueueStage::Link { tail } => {
                s.follows(tail);
                if s.node(tail).next == 0 {
                    s.list_grows(tail, self.node, self.stake());
                    assert(s1.chain[s.chain.len() as int] == self.node);
                    assert(s.items_of(seq![self.node]) =~= seq![s.node(self.node).item->0]);
                    assert(s.items() + seq![s.node(self.node).item->0] =~= s.items().push(
                        s.node(self.node).item->0,
                    ));
                }
            },
            EnqueueStage::SwingTail { tail } => {
                s.tail_moves(self.node, self.stake());
            },
            EnqueueStage::Help { run } => {
                run.step(s, self.stake());
                run.step(s, Stake::none());
                self.ready_stays(s, s1, Stake::none());
            },
            EnqueueStage::AdvanceTail { tail, next } => {
                s.tail_moves(next, self.stake());
            },
            _ => {},
        }
    }

    /// The node stays ready while others do not touch it.
    proof fn ready_stays<T>(self, s: State<T>, s1: State<T>, theirs: Stake)
        requires
            s.wf(),
            self.ready(s),
            s.moves_to(s1, theirs),
            !theirs.drafts.contains(self.node),
        ensures
            self.ready(s1),
    {
        assert(!s.announced(self.node));
        assert forall|a: usize| s1.is_ann(a) implies (#[trigger] s1.ann(a)).batch_req.first_enq
            != self.node by {
            if s.is_ann(a) {
                assert(s.ann(a).batch_req == s1.ann(a).batch_req);
            }
        }
    }

    /// What the thread knows stays true whatever another operation does.
    pub proof fn undisturbed<T>(self, s: State<T>, s1: State<T>, theirs: Stake)
        requires
            s.wf(),
            s1.wf(),
            self.inv(s),
            s.moves_to(s1, theirs),
            theirs.apart(self.stake()),
        ensures
            self.inv(s1),
    {
        s.places_stay(s1);
        match self.at {
            EnqueueStage::Help { run } => {
                run.undisturbed(s, s1, theirs);
            },
            _ => {},
        }
        if !self.linked() {
            self.ready_stays(s, s1, theirs);
        }
    }
}

} // verus!
