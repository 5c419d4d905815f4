//! Finding the node in the head: as long as an announcement stands there, it is carried out first.
use crate::execute_ann::{AnnStage, ExecuteAnn};
use crate::moves::Stake;
use crate::state::{Access, State};
use crate::tag::{address, get_ann_ptr, get_node_ptr, is_ann, marked};
use vstd::prelude::*;

verus! {

/// A thread that looks for the node in the head: each stage awaits the outcome of one access.
#[derive(Clone, Copy)]
pub enum HelpHead {
    /// What stands in the head?
    Load,
    /// Does `word` still stand in the head, now that what it leads to is protected?
    Confirm { word: usize },
    /// An announcement stood in the head and is being carried out.
    Help { run: ExecuteAnn },
    /// `node` stood in the head and is protected.
    Done { node: usize },
}

impl HelpHead {
    /// The access that the stage calls for.
    pub open spec fn spec_access(self) -> Access {
        match self {
            HelpHead::Load => Access::LoadHead,
            HelpHead::Confirm { word } => Access::ConfirmHead { word },
            HelpHead::Help { run } => run.access(),
            HelpHead::Done { node } => Access::Rest,
        }
    }

    /// The stage that follows once the access has observed `seen`.
    pub open spec fn spec_next(self, seen: usize) -> Self {
        match self {
            HelpHead::Load => if seen == 0 {
                HelpHead::Load
            } else {
                HelpHead::Confirm { word: seen }
            },
            HelpHead::Confirm { word } => if seen != word {
                HelpHead::Load
            } else if marked(word) {
                HelpHead::Help { run: ExecuteAnn::start(address(word)) }
            } else {
                HelpHead::Done { node: word }
            },
            HelpHead::Help { run } => if run.next(seen).at is Done {
                HelpHead::Load
            } else {
                HelpHead::Help { run: run.next(seen) }
            },
            HelpHead::Done { node } => self,
        }
    }

    /// The access that the stage calls for.
    #[verifier::when_used_as_spec(spec_access)]
    pub fn access(self) -> (access: Access)
        ensures
            access == self.spec_access(),
    {
        match self {
            HelpHead::Load => Access::LoadHead,
            HelpHead::Confirm { word } => Access::ConfirmHead { word },
            HelpHead::Help { run } => run.access(),
            HelpHead::Done { .. } => Access::Rest,
        }
    }

    /// The stage that follows once the access has observed `seen`.
    #[verifier::when_used_as_spec(spec_next)]
    pub fn next(self, seen: usize) -> (r: Self)
        ensures
            r == self.spec_next(seen),
    {
        match self {
            HelpHead::Load => {
                if seen == 0 {
                    HelpHead::Load
                } else {
                    HelpHead::Confirm { word: seen }
                }
            },
            HelpHead::Confirm { word } => {
                if seen != word {
                    HelpHead::Load
                } else if is_ann(word) {
                    HelpHead::Help { run: ExecuteAnn::new(get_ann_ptr(word)) }
                } else {
                    HelpHead::Done { node: get_node_ptr(word) }
                }
            },
            HelpHead::Help { run } => {
                let run = run.next(seen);
                match run.at {
                    AnnStage::Done => HelpHead::Load,
                    _ => HelpHead::Help { run },
                }
            },
            HelpHead::Done { .. } => self,
        }
    }

    /// What the thread knows of the memory `s`, whatever other threads are doing: above all, that
    /// the node it has found stands in the list, at or before the head.
    pub open spec fn inv<T>(self, s: State<T>) -> bool {
        match self {
            HelpHead::Load => true,
            HelpHead::Confirm { word } => if marked(word) {
                s.published.contains(address(word))
            } else {
                s.chain.contains(word) && s.pos(word) <= s.hpos()
            },
            HelpHead::Help { run } => run.inv(s),
            HelpHead::Done { node } => s.chain.contains(node) && s.pos(node) <= s.hpos(),
        }
    }

    /// The access comes too late to carry out the announcement that it is part of carrying out.
    pub open spec fn late<T>(self, s: State<T>) -> bool {
        self is Help && self->run.late(s)
    }

    /// The thread has not come across an announcement, and is not carrying one out.
    pub open spec fn plain(self) -> bool {
        match self {
            HelpHead::Load => true,
            HelpHead::Confirm { word } => !marked(word),
            HelpHead::Help { run } => false,
            HelpHead::Done { node } => true,
        }
    }

    /// With the access the thread has found the node in the head.
    pub open spec fn hands_on<T>(self, s: State<T>) -> bool {
        !(self is Done) && self.next(s.seen(self.access())) is Done
    }

    /// With the access the thread gets to carry out an announcement.
    pub open spec fn takes_up<T>(self, s: State<T>) -> bool {
        !(self is Help) && self.next(s.seen(self.access())) is Help
    }

    /// The access links the batch of an announcement.
    pub open spec fn links<T>(self, s: State<T>) -> bool {
        self is Help && self->run.links(s)
    }

    /// The nodes of that batch.
    pub open spec fn batch<T>(self, s: State<T>) -> Seq<usize> {
        self->run.batch(s)
    }

    /// Every access that does not come late leaves the memory in order and spares what belongs to
    /// other operations, and changes the contents of the queue only by adding an announced batch.
    /// What the thread has confirmed was not retired at that moment, and so it will not be freed as
    /// long as the thread protects it; and nothing is handed on, and no announcement taken up, but
    /// what that very access has confirmed.
    pub proof fn step<T>(self, s: State<T>, mine: Stake)
        requires
            s.wf(),
            self.inv(s),
            !self.late(s),
        ensures
            s.allows(self.access()),
            s.after(self.access()).wf(),
            self.next(s.seen(self.access())).inv(s.after(self.access())),
            s.moves_to(s.after(self.access()), mine),
            s.after(self.access()).items() == if self.links(s) {
                s.items() + s.items_of(self.batch(s))
            } else {
                s.items()
            },
            self is Confirm && s.head == self->word ==> {
                &&& !marked(s.head) ==> !s.retired.contains(s.head)
                &&& marked(s.head) ==> !s.retired_anns.contains(address(s.head))
            },
            self.hands_on(s) ==> self is Confirm && s.head == self->word,
            self.takes_up(s) ==> self is Confirm && s.head == self->word,
            self.hands_on(s) ==> self.next(s.seen(self.access()))->node == s.head,
            self.takes_up(s) ==> self.next(s.seen(self.access()))->run == ExecuteAnn::start(
                address(s.head),
            ),
    {
        s.places();
        match self {
            HelpHead::Help { run } => {
                run.step(s, mine);
            },
            _ => {},
        }
    }

    /// What the thread knows stays true whatever another operation does.
    pub proof fn undisturbed<T>(self, s: State<T>, s1: State<T>, theirs: Stake)
        requires
            s.wf(),
            s1.wf(),
            self.inv(s),
            s.moves_to(s1, theirs),
        ensures
            self.inv(s1),
    {
        s.places_stay(s1);
        match self {
            HelpHead::Help { run } => {
                run.undisturbed(s, s1, theirs);
            },
            _ => {},
        }
    }
}

} // verus!
