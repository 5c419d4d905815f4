//! Taking one item out of the queue.
use crate::help_head::HelpHead;
use crate::moves::Stake;
use crate::state::{Access, State};
use crate::tag::marked;
use vstd::prelude::*;

verus! {

/// A thread that takes one item: each stage awaits the outcome of one access.
#[derive(Clone, Copy)]
pub enum Dequeue {
    /// The node in the head is being looked for.
    Help { help: HelpHead },
    /// Which node follows `head`?
    Next { head: usize },
    /// `next` follows `head`. Which node does, now that it is protected?
    Again { head: usize, next: usize },
    /// The head is being moved from `head` to `next`; the item is in `node`.
    Advance { head: usize, next: usize, node: usize },
    /// The head was moved and `head` is being retired.
    Retire { head: usize, node: usize },
    /// The item is being taken out of `node`.
    Take { node: usize },
    /// The item has been taken.
    Taken,
    /// There was nothing to take.
    Empty,
}

impl Dequeue {
    /// A thread that is about to take an item.
    pub fn new() -> (r: Self)
        ensures
            r == Dequeue::start(),
    {
        Dequeue::Help { help: HelpHead::Load }
    }

    /// A thread that is about to take an item.
    pub open spec fn start() -> Self {
        Dequeue::Help { help: HelpHead::Load }
    }

    /// The access that the stage calls for.
    pub open spec fn spec_access(self) -> Access {
        match self {
            Dequeue::Help { help } => help.access(),
            Dequeue::Next { head } => Access::LoadNext { node: head },
            Dequeue::Again { head, next } => Access::LoadNext { node: head },
            Dequeue::Advance { head, next, node } => Access::CasHead { current: head, new: next },
            Dequeue::Retire { head, node } => Access::Retire { node: head },
            Dequeue::Take { node } => Access::TakeItem { node },
            Dequeue::Taken => Access::Rest,
            Dequeue::Empty => Access::Rest,
        }
    }

    /// The stage that follows once the access has observed `seen`.
    pub open spec fn spec_next(self, seen: usize) -> Self {
        match self {
            Dequeue::Help { help } => match help.next(seen) {
                HelpHead::Done { node } => Dequeue::Next { head: node },
                h => Dequeue::Help { help: h },
            },
            Dequeue::Next { head } => if seen == 0 {
                Dequeue::Empty
            } else {
                Dequeue::Again { head, next: seen }
            },
            Dequeue::Again { head, next } => Dequeue::Advance { head, next, node: seen },
            Dequeue::Advance { head, next, node } => if seen == head {
                Dequeue::Retire { head, node }
            } else {
                Dequeue::start()
            },
            Dequeue::Retire { head, node } => Dequeue::Take { node },
            Dequeue::Take { node } => Dequeue::Taken,
            Dequeue::Taken => self,
            Dequeue::Empty => self,
        }
    }

    /// The access that the stage calls for.
    #[verifier::when_used_as_spec(spec_access)]
    pub fn access(self) -> (access: Access)
        ensures
            access == self.spec_access(),
    {
        match self {
            Dequeue::Help { help } => help.access(),
            Dequeue::Next { head } => Access::LoadNext { node: head },
            Dequeue::Again { head, .. } => Access::LoadNext { node: head },
            Dequeue::Advance { head, next, .. } => Access::CasHead { current: head, new: next },
            Dequeue::Retire { head, .. } => Access::Retire { node: head },
            Dequeue::Take { node } => Access::TakeItem { node },
            Dequeue::Taken => Access::Rest,
            Dequeue::Empty => Access::Rest,
        }
    }

    /// The stage that follows once the access has observed `seen`.
    #[verifier::when_used_as_spec(spec_next)]
    pub fn next(self, seen: usize) -> (r: Self)
        ensures
            r == self.spec_next(seen),
    {
        match self {
            Dequeue::Help { help } => match help.next(seen) {
                HelpHead::Done { node } => Dequeue::Next { head: node },
                h => Dequeue::Help { help: h },
            },
            Dequeue::Next { head } => {
                if seen == 0 {
                    Dequeue::Empty
                } else {
                    Dequeue::Again { head, next: seen }
                }
            },
            Dequeue::Again { head, next } => Dequeue::Advance { head, next, node: seen },
            Dequeue::Advance { head, node, .. } => {
                if seen == head {
                    Dequeue::Retire { head, node }
                } else {
                    Dequeue::new()
                }
            },
            Dequeue::Retire { node, .. } => Dequeue::Take { node },
            Dequeue::Take { .. } => Dequeue::Taken,
            Dequeue::Taken => self,
            Dequeue::Empty => self,
        }
    }

    /// Whether nothing is left to do, except for taking the item if there is one.
    pub open spec fn spec_is_over(self) -> bool {
        self is Take || self is Taken || self is Empty
    }

    /// Whether nothing is left to do, except for taking the item if there is one.
    #[verifier::when_used_as_spec(spec_is_over)]
    pub fn is_over(self) -> (b: bool)
        ensures
            b == (self is Take || self is Taken || self is Empty),
            b == self.spec_is_over(),
    {
        matches!(self, Dequeue::Take { .. } | Dequeue::Taken | Dequeue::Empty)
    }

    /// What the thread knows of the memory `s`, whatever other threads are doing.
    pub open spec fn inv<T>(self, s: State<T>) -> bool {
        match self {
            Dequeue::Help { help } => help.inv(s) && !(help is Done),
            Dequeue::Next { head } => s.chain.contains(head) && s.pos(head) <= s.hpos(),
            Dequeue::Again { head, next } => {
                &&& s.chain.contains(head)
                &&& s.pos(head) <= s.hpos()
                &&& s.chain.contains(next)
                &&& s.pos(next) == s.pos(head) + 1
            },
            Dequeue::Advance { head, next, node } => {
                &&& s.chain.contains(head)
                &&& s.pos(head) <= s.hpos()
                &&& s.chain.contains(next)
                &&& s.pos(next) == s.pos(head) + 1
                &&& node == next
            },
            Dequeue::Retire { head, node } => {
                &&& s.chain.contains(head)
                &&& s.chain.contains(node)
                &&& s.pos(node) == s.pos(head) + 1
                &&& s.pos(node) <= s.hpos()
                &&& s.node(node).item is Some
                &&& !s.retired.contains(head)
            },
            Dequeue::Take { node } => {
                &&& s.chain.contains(node)
                &&& s.pos(node) <= s.hpos()
                &&& s.node(node).item is Some
            },
            Dequeue::Taken => true,
            Dequeue::Empty => true,
        }
    }

    /// What belongs to the operation.
    pub open spec fn stake(self) -> Stake {
        match self {
            Dequeue::Retire { head, node } => Stake {
                items: set![node],
                retires: set![head],
                ..Stake::none()
            },
            Dequeue::Take { node } => Stake { items: set![node], ..Stake::none() },
            _ => Stake::none(),
        }
    }

    /// The items that the operation has removed from the queue and is yet to take.
    pub open spec fn due<T>(self, s: State<T>) -> Seq<T> {
        match self {
            Dequeue::Retire { head, node } => s.items_of(seq![node]),
            Dequeue::Take { node } => s.items_of(seq![node]),
            _ => Seq::empty(),
        }
    }

    /// The access comes too late to carry out the announcement that it is part of carrying out.
    pub open spec fn late<T>(self, s: State<T>) -> bool {
        self is Help && self->help.late(s)
    }

    /// The access moves the head.
    pub open spec fn removes<T>(self, s: State<T>) -> bool {
        self is Advance && s.head == self->Advance_head
    }

    /// The access finds that there is nothing to take.
    pub open spec fn finds_empty<T>(self, s: State<T>) -> bool {
        self is Next && s.node(self->Next_head).next == 0
    }

    /// The access links the batch of an announcement.
    pub open spec fn links<T>(self, s: State<T>) -> bool {
        self is Help && self->help.links(s)
    }

    /// The nodes of that batch.
    pub open spec fn batch<T>(self, s: State<T>) -> Seq<usize> {
        self->help.batch(s)
    }

    /// Every access that does not come late leaves the memory in order and spares what belongs to
    /// other operations. The one access that moves the head removes the oldest item from the queue,
    /// and it is the item that will be taken, out of a node that is not retired at that moment. The
    /// operation ends with nothing taken only if the queue was empty at the moment of one of its
    /// accesses: it comes to its end with an item that it has removed, or with an access at which
    /// the queue is empty. Besides, only announced batches are added. The thread goes on from a node in the
    /// head only with the access that confirms it, at a moment when it is not retired, and the node
    /// that it takes the item from is the one that it found, and protects, behind that one.
    pub proof fn step<T>(self, s: State<T>)
        requires
            s.wf(),
            self.inv(s),
            !self.late(s),
        ensures
            s.allows(self.access()),
            s.after(self.access()).wf(),
            self.next(s.seen(self.access())).inv(s.after(self.access())),
            s.moves_to(s.after(self.access()), self.stake()),
            self.next(s.seen(self.access())).stake().from(self.stake(), s, s.after(self.access())),
            s.after(self.access()).items() == if self.removes(s) {
                s.items().skip(1)
            } else if self.links(s) {
                s.items() + s.items_of(self.batch(s))
            } else {
                s.items()
            },
            self.removes(s) ==> s.items().len() > 0 && !s.retired.contains(self->Advance_node),
            self.next(s.seen(self.access())).due(s.after(self.access())) == if self.removes(s) {
                s.items().take(1)
            } else if self is Take {
                Seq::empty()
            } else {
                self.due(s)
            },
            self is Take ==> self.due(s) == seq![s.node(self->Take_node).item->0],
            self.finds_empty(s) <==> !(self is Empty) && self.next(
                s.seen(self.access()),
            ) is Empty,
            self.finds_empty(s) ==> s.items().len() == 0,
            !self.is_over() && self.next(s.seen(self.access())).is_over() ==> self.due(s).len() == 1
                || s.items().len() == 0,
            self.next(s.seen(self.access())) is Taken ==> self is Take || self is Taken,
            !(self is Next) && self.next(s.seen(self.access())) is Next ==> {
                &&& self is Help
                &&& self->help is Confirm
                &&& s.head == self->help->word
                &&& self.next(s.seen(self.access()))->Next_head == s.head
                &&& !marked(s.head)
                &&& !s.retired.contains(s.head)
            },
            !(self is Advance) && self.next(s.seen(self.access())) is Advance ==> {
                &&& self is Again
                &&& self.next(s.seen(self.access()))->Advance_node == s.node(
                    self->Again_head,
                ).next
            },
    {
        let s1 = s.after(self.access());
        s.places();
        match self {
            Dequeue::Help { help } => {
                help.step(s, self.stake());
            },
            Dequeue::Next { head } => {
                s.follows(head);
            },
            Dequeue::Again { head, next } => {
                s.follows(head);
            },
            Dequeue::Advance { head, next, node } => {
                if s.head == head {
                    assert(!marked(head));
                    s.head_advances(next, self.stake());
                    let h = s.hpos();
                    assert(s.chain.skip(h + 1)[0] == s.chain[h + 1]);
                    assert(s.node(s.chain[h + 1]).item is Some);
                    assert(!s.retired.contains(head));
                    assert(s1.items_of(seq![node]) =~= s.items().take(1));
                }
            },
            Dequeue::Retire { head, node } => {
                s.node_retires(head, self.stake());
            },
            Dequeue::Take { node } => {
                s.item_leaves(node, self.stake());
                assert(s.items_of(seq![node]) =~= seq![s.node(node).item->0]);
            },
            _ => {},
        }
    }

    /// What the thread knows stays true whatever another operation does, and so does what it is to
    /// take.
    pub proof fn undisturbed<T>(self, s: State<T>, s1: State<T>, theirs: Stake)
        requires
            s.wf(),
            s1.wf(),
            self.inv(s),
            s.moves_to(s1, theirs),
            theirs.apart(self.stake()),
        ensures
            self.inv(s1),
            self.due(s1) == self.due(s),
    {
        s.places();
        s.places_stay(s1);
        match self {
            Dequeue::Help { help } => {
                help.undisturbed(s, s1, theirs);
            },
            Dequeue::Retire { head, node } => {
                assert(self.stake().items.contains(node));
                assert(self.stake().retires.contains(head));
                assert(s1.node(node).item == s.node(node).item);
                assert(s1.items_of(seq![node]) =~= s.items_of(seq![node]));
            },
            Dequeue::Take { node } => {
                assert(self.stake().items.contains(node));
                assert(s1.node(node).item == s.node(node).item);
                assert(s1.items_of(seq![node]) =~= s.items_of(seq![node]));
            },
            _ => {},
        }
    }

    /// What the operation takes and retires, the head has passed.
    pub proof fn stake_within<T>(self, s: State<T>)
        requires
            self.inv(s),
        ensures
            self.stake().within(s),
    {
    }
}

} // verus!
