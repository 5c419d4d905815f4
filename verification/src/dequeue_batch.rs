//! Taking a batch of items out of the queue: the head moves over all of them at once, then they are
//! collected from the nodes that it has passed.
use crate::help_head::HelpHead;
use crate::moves::Stake;
use crate::state::{Access, State};
use crate::tag::marked;
use vstd::prelude::*;

verus! {

/// How far the batch has been taken: each stage awaits the outcome of one access.
#[derive(Clone, Copy)]
pub enum DequeueBatchStage {
    /// The node in the head is being looked for.
    Help { help: HelpHead },
    /// What is the count of `start`, the node in the head?
    Count { start: usize },
    /// `node` is `num` nodes behind `start`. Which node follows it?
    Walk { start: usize, count: usize, node: usize, num: usize },
    /// The count of `node`, which is `num` nodes behind `start`, is being set.
    SetCount { start: usize, count: usize, node: usize, num: usize },
    /// The head is being moved from `start` to `node`, which is `num` nodes behind it.
    Advance { start: usize, node: usize, num: usize },
    /// `left` items are still to be collected. Which node follows `node`?
    Next { node: usize, left: usize },
    /// An item is being taken out of `next`, which follows `node`.
    Take { node: usize, next: usize, left: usize },
    /// `node` is being retired.
    Retire { node: usize, next: usize, left: usize },
    /// All that was there has been taken.
    Done,
}

/// A thread that takes at most `max` items.
#[derive(Clone, Copy)]
pub struct DequeueBatch {
    pub max: usize,
    pub at: DequeueBatchStage,
}

/// Fills up `results` with `None` until there are `max_count` entries.
pub fn filled_up<T>(results: Vec<Option<T>>, max_count: usize) -> (filled: Vec<Option<T>>)
    ensures
        filled@.len() == if results@.len() < max_count {
            max_count as nat
        } else {
            results@.len()
        },
        forall|i: int| 0 <= i < results@.len() ==> #[trigger] filled@[i] == results@[i],
        forall|i: int| results@.len() <= i < filled@.len() ==> (#[trigger] filled@[i]) is None,
{
    let mut filled = results;
    while filled.len() < max_count
        invariant
            results@.len() <= filled@.len(),
            filled@.len() <= max_count || filled@.len() == results@.len(),
            forall|i: int| 0 <= i < results@.len() ==> #[trigger] filled@[i] == results@[i],
            forall|i: int| results@.len() <= i < filled@.len() ==> (#[trigger] filled@[i]) is None,
        decreases max_count - filled@.len(),
    {
        filled.push(None);
    }
    filled
}

impl DequeueBatch {
    /// A thread that is about to take at most `max` items.
    pub fn new(max: usize) -> (r: Self)
        ensures
            r == DequeueBatch::start(max),
    {
        DequeueBatch { max, at: DequeueBatchStage::Help { help: HelpHead::Load } }
    }

    /// A thread that is about to take at most `max` items.
    pub open spec fn start(max: usize) -> Self {
        DequeueBatch { max, at: DequeueBatchStage::Help { help: HelpHead::Load } }
    }

    /// A thread that has moved the head over `left` nodes behind `node` and is about to collect what
    /// they carry.
    pub fn collecting(max: usize, node: usize, left: usize) -> (r: Self)
        ensures
            r == (DequeueBatch { max, at: DequeueBatchStage::Next { node, left } }),
    {
        DequeueBatch { max, at: DequeueBatchStage::Next { node, left } }
    }

    /// The access that the stage calls for.
    pub open spec fn spec_access(self) -> Access {
        match self.at {
            DequeueBatchStage::Help { help } => help.access(),
            DequeueBatchStage::Count { start } => Access::LoadCount { node: start },
            DequeueBatchStage::Walk { start, count, node, num } => Access::LoadNext { node },
            DequeueBatchStage::SetCount { start, count, node, num } => Access::StoreCount {
                node,
                count,
            },
            DequeueBatchStage::Advance { start, node, num } => Access::CasHead {
                current: start,
                new: node,
            },
            DequeueBatchStage::Next { node, left } => Access::LoadNext { node },
            DequeueBatchStage::Take { node, next, left } => Access::TakeItem { node: next },
            DequeueBatchStage::Retire { node, next, left } => Access::Retire { node },
            DequeueBatchStage::Done => Access::Rest,
        }
    }

    /// The stage that follows once the access has observed `seen`.
    pub open spec fn spec_next(self, seen: usize) -> Self {
        let at = match self.at {
            DequeueBatchStage::Help { help } => match help.next(seen) {
                HelpHead::Done { node } => DequeueBatchStage::Count { start: node },
                h => DequeueBatchStage::Help { help: h },
            },
            DequeueBatchStage::Count { start } => if self.max == 0 {
                DequeueBatchStage::Done
            } else {
                DequeueBatchStage::Walk { start, count: seen, node: start, num: 0 }
            },
            DequeueBatchStage::Walk { start, count, node, num } => if seen != 0 {
                if num.wrapping_add(1) < self.max {
                    DequeueBatchStage::Walk { start, count, node: seen, num: num.wrapping_add(1) }
                } else {
                    DequeueBatchStage::SetCount {
                        start,
                        count: count.wrapping_add(num.wrapping_add(1)),
                        node: seen,
                        num: num.wrapping_add(1),
                    }
                }
            } else if num == 0 {
                DequeueBatchStage::Done
            } else {
                DequeueBatchStage::SetCount { start, count: count.wrapping_add(num), node, num }
            },
            DequeueBatchStage::SetCount { start, count, node, num } => DequeueBatchStage::Advance {
                start,
                node,
                num,
            },
            DequeueBatchStage::Advance { start, node, num } => if seen == start {
                DequeueBatchStage::Next { node: start, left: num }
            } else {
                DequeueBatchStage::Help { help: HelpHead::Load }
            },
            DequeueBatchStage::Next { node, left } => if seen != 0 {
                DequeueBatchStage::Take { node, next: seen, left }
            } else {
                DequeueBatchStage::Retire { node, next: 0, left }
            },
            DequeueBatchStage::Take { node, next, left } => DequeueBatchStage::Retire {
                node,
                next,
                left,
            },
            DequeueBatchStage::Retire { node, next, left } => if next == 0 || left <= 1 {
                DequeueBatchStage::Done
            } else {
                DequeueBatchStage::Next { node: next, left: (left - 1) as usize }
            },
            DequeueBatchStage::Done => DequeueBatchStage::Done,
        };
        DequeueBatch { max: self.max, at }
    }

    /// The access that the stage calls for.
    #[verifier::when_used_as_spec(spec_access)]
    pub fn access(self) -> (access: Access)
        ensures
            access == self.spec_access(),
    {
        match self.at {
            DequeueBatchStage::Help { help } => help.access(),
            DequeueBatchStage::Count { start } => Access::LoadCount { node: start },
            DequeueBatchStage::Walk { node, .. } => Access::LoadNext { node },
            DequeueBatchStage::SetCount { count, node, .. } => Access::StoreCount { node, count },
            DequeueBatchStage::Advance { start, node, .. } => Access::CasHead {
                current: start,
                new: node,
            },
            DequeueBatchStage::Next { node, .. } => Access::LoadNext { node },
            DequeueBatchStage::Take { next, .. } => Access::TakeItem { node: next },
            DequeueBatchStage::Retire { node, .. } => Access::Retire { node },
            DequeueBatchStage::Done => Access::Rest,
        }
    }

    /// The stage that follows once the access has observed `seen`.
    #[verifier::when_used_as_spec(spec_next)]
    pub fn next(self, seen: usize) -> (r: Self)
        ensures
            r == self.spec_next(seen),
    {
        let at = match self.at {
            DequeueBatchStage::Help { help } => match help.next(seen) {
                HelpHead::Done { node } => DequeueBatchStage::Count { start: node },
                h => DequeueBatchStage::Help { help: h },
            },
            DequeueBatchStage::Count { start } => {
                if self.max == 0 {
                    DequeueBatchStage::Done
                } else {
                    DequeueBatchStage::Walk { start, count: seen, node: start, num: 0 }
                }
            },
            DequeueBatchStage::Walk { start, count, node, num } => {
                if seen != 0 {
                    let num: usize = num.wrapping_add(1);
                    if num < self.max {
                        DequeueBatchStage::Walk { start, count, node: seen, num }
                    } else {
                        DequeueBatchStage::SetCount {
                            start,
                            count: count.wrapping_add(num),
                            node: seen,
                            num,
                        }
                    }
                } else if num == 0 {
                    DequeueBatchStage::Done
                } else {
                    DequeueBatchStage::SetCount { start, count: count.wrapping_add(num), node, num }
                }
            },
            DequeueBatchStage::SetCount { start, node, num, .. } => DequeueBatchStage::Advance {
                start,
                node,
                num,
            },
            DequeueBatchStage::Advance { start, num, .. } => {
                if seen == start {
                    DequeueBatchStage::Next { node: start, left: num }
                } else {
                    DequeueBatchStage::Help { help: HelpHead::Load }
                }
            },
            DequeueBatchStage::Next { node, left } => {
                if seen != 0 {
                    DequeueBatchStage::Take { node, next: seen, left }
                } else {
                    DequeueBatchStage::Retire { node, next: 0, left }
                }
            },
            DequeueBatchStage::Take { node, next, left } => DequeueBatchStage::Retire {
                node,
                next,
                left,
            },
            DequeueBatchStage::Retire { next, left, .. } => {
                if next == 0 || left <= 1 {
                    DequeueBatchStage::Done
                } else {
                    DequeueBatchStage::Next { node: next, left: left - 1 }
                }
            },
            DequeueBatchStage::Done => DequeueBatchStage::Done,
        };
        DequeueBatch { max: self.max, at }
    }

    /// Whether the head has been moved over the items, or there is nothing to move it over.
    pub fn has_moved(self) -> (b: bool)
        ensures
            b == (self.at is Next || self.at is Take || self.at is Retire || self.at is Done),
    {
        matches!(
            self.at,
            DequeueBatchStage::Next { .. } | DequeueBatchStage::Take { .. }
                | DequeueBatchStage::Retire { .. } | DequeueBatchStage::Done
        )
    }

    /// Whether nothing is left to do.
    pub open spec fn spec_is_done(self) -> bool {
        self.at is Done
    }

    /// Whether nothing is left to do.
    #[verifier::when_used_as_spec(spec_is_done)]
    pub fn is_done(self) -> (b: bool)
        ensures
            b == (self.at is Done),
            b == self.spec_is_done(),
    {
        matches!(self.at, DequeueBatchStage::Done)
    }

    /// The nodes at the places from `from` up to, not including, `to` carry items and the head has
    /// reached them.
    pub open spec fn laden<T>(s: State<T>, from: int, to: int) -> bool {
        &&& to <= s.hpos() + 1
        &&& forall|i: int| from <= i < to ==> (#[trigger] s.node(s.chain[i])).item is Some
    }

    /// The nodes at the places from `from` up to, not including, `to` are passed by the head and
    /// not retired.
    pub open spec fn unretired<T>(s: State<T>, from: int, to: int) -> bool {
        &&& to <= s.hpos()
        &&& forall|i: int| from <= i < to ==> !s.retired.contains(#[trigger] s.chain[i])
    }

    /// What the thread knows of the memory `s`, whatever other threads are doing.
    pub open spec fn inv<T>(self, s: State<T>) -> bool {
        match self.at {
            DequeueBatchStage::Help { help } => help.inv(s) && !(help is Done),
            DequeueBatchStage::Count { start } => s.chain.contains(start) && s.pos(start)
                <= s.hpos(),
            DequeueBatchStage::Walk { start, count, node, num } => {
                &&& s.chain.contains(start)
                &&& s.pos(start) <= s.hpos()
                &&& s.chain.contains(node)
                &&& s.pos(node) == s.pos(start) + num
                &&& num < self.max
            },
            DequeueBatchStage::SetCount { start, count, node, num } => {
                &&& s.chain.contains(start)
                &&& s.pos(start) <= s.hpos()
                &&& s.chain.contains(node)
                &&& s.pos(node) == s.pos(start) + num
                &&& 0 < num <= self.max
            },
            DequeueBatchStage::Advance { start, node, num } => {
                &&& s.chain.contains(start)
                &&& s.pos(start) <= s.hpos()
                &&& s.chain.contains(node)
                &&& s.pos(node) == s.pos(start) + num
                &&& 0 < num <= self.max
            },
            DequeueBatchStage::Next { node, left } => {
                let p = s.pos(node);
                &&& s.chain.contains(node)
                &&& left > 0
                &&& Self::laden(s, p + 1, p + 1 + left)
                &&& Self::unretired(s, p, p + left)
            },
            DequeueBatchStage::Take { node, next, left } => {
                let p = s.pos(node);
                &&& s.chain.contains(node)
                &&& s.chain.contains(next)
                &&& s.pos(next) == p + 1
                &&& left > 0
                &&& Self::laden(s, p + 1, p + 1 + left)
                &&& Self::unretired(s, p, p + left)
            },
            DequeueBatchStage::Retire { node, next, left } => {
                let p = s.pos(node);
                &&& s.chain.contains(node)
                &&& s.chain.contains(next)
                &&& s.pos(next) == p + 1
                &&& left > 0
                &&& Self::laden(s, p + 2, p + 1 + left)
                &&& Self::unretired(s, p, p + left)
            },
            DequeueBatchStage::Done => true,
        }
    }

    /// What belongs to the operation.
    pub open spec fn stake<T>(self, s: State<T>) -> Stake {
        match self.at {
            DequeueBatchStage::Next { node, left } => Stake {
                items: s.span(s.pos(node) + 1, s.pos(node) + 1 + left),
                retires: s.span(s.pos(node), s.pos(node) + left),
                ..Stake::none()
            },
            DequeueBatchStage::Take { node, next, left } => Stake {
                items: s.span(s.pos(node) + 1, s.pos(node) + 1 + left),
                retires: s.span(s.pos(node), s.pos(node) + left),
                ..Stake::none()
            },
            DequeueBatchStage::Retire { node, next, left } => Stake {
                items: s.span(s.pos(node) + 2, s.pos(node) + 1 + left),
                retires: s.span(s.pos(node), s.pos(node) + left),
                ..Stake::none()
            },
            _ => Stake::none(),
        }
    }

    /// The items that the operation has removed from the queue and is yet to take.
    pub open spec fn due<T>(self, s: State<T>) -> Seq<T> {
        match self.at {
            DequeueBatchStage::Next { node, left } => s.items_of(
                s.chain.subrange(s.pos(node) + 1, s.pos(node) + 1 + left),
            ),
            DequeueBatchStage::Take { node, next, left } => s.items_of(
                s.chain.subrange(s.pos(node) + 1, s.pos(node) + 1 + left),
            ),
            DequeueBatchStage::Retire { node, next, left } => s.items_of(
                s.chain.subrange(s.pos(node) + 2, s.pos(node) + 1 + left),
            ),
            _ => Seq::empty(),
        }
    }

    /// The operation has removed its items from the queue and is collecting them.
    pub open spec fn has_removed(self) -> bool {
        self.at is Next || self.at is Take || self.at is Retire
    }

    /// The access comes too late to carry out the announcement that it is part of carrying out.
    pub open spec fn late<T>(self, s: State<T>) -> bool {
        self.at is Help && self.at->help.late(s)
    }

    /// The access moves the head.
    pub open spec fn removes<T>(self, s: State<T>) -> bool {
        self.at is Advance && s.head == self.at->Advance_start
    }

    /// The access finds that there is nothing behind the nodes counted so far.
    pub open spec fn falls_short<T>(self, s: State<T>) -> bool {
        self.at is Walk && s.node(self.at->Walk_node).next == 0
    }

    /// The access links the batch of an announcement.
    pub open spec fn links<T>(self, s: State<T>) -> bool {
        self.at is Help && self.at->help.links(s)
    }

    /// The nodes of that batch.
    pub open spec fn batch<T>(self, s: State<T>) -> Seq<usize> {
        self.at->help.batch(s)
    }

    /// Every access that does not come late leaves the memory in order and spares what belongs to
    /// other operations. The one access that moves the head removes the oldest items from the
    /// queue, at most `max` of them, and these are the items that will be taken, in their order.
    /// Fewer than `max` are removed only if the queue held no more at the moment of one of the
    /// operation's accesses, and none at all only if that many were asked for or the queue was empty
    /// at that moment. Besides, only announced batches are added. The thread goes on from a
    /// node in the head only with the access that confirms it, at a moment when it is not retired.
    #[verifier::rlimit(30)]
    pub proof fn step<T>(self, s: State<T>)
        requires
            s.wf(),
            self.inv(s),
            !self.late(s),
        ensures
            s.allows(self.access()),
            s.after(self.access()).wf(),
            self.next(s.seen(self.access())).inv(s.after(self.access())),
            s.moves_to(s.after(self.access()), self.stake(s)),
            self.next(s.seen(self.access())).stake(s.after(self.access())).from(
                self.stake(s),
                s,
                s.after(self.access()),
            ),
            s.after(self.access()).items() == if self.removes(s) {
                s.items().skip(self.at->Advance_num as int)
            } else if self.links(s) {
                s.items() + s.items_of(self.batch(s))
            } else {
                s.items()
            },
            self.removes(s) ==> 0 < self.at->Advance_num <= self.max && self.at->Advance_num
                <= s.items().len(),
            self.falls_short(s) ==> s.items().len() <= self.at->Walk_num,
            self.next(s.seen(self.access())).due(s.after(self.access())) == if self.removes(s) {
                s.items().take(self.at->Advance_num as int)
            } else if self.at is Take {
                self.due(s).skip(1)
            } else {
                self.due(s)
            },
            !(self.at is Done) && self.next(s.seen(self.access())).at is Done ==> self.has_removed()
                || self.max == 0 || s.items().len() == 0,
            self.next(s.seen(self.access())).has_removed() ==> self.has_removed() || self.removes(
                s,
            ),
            self.at is Take ==> {
                &&& self.due(s).len() > 0
                &&& s.node(self.at->Take_next).item == Some(self.due(s)[0])
            },
            !(self.at is Count) && self.next(s.seen(self.access())).at is Count ==> {
                &&& self.at is Help
                &&& self.at->help is Confirm
                &&& s.head == self.at->help->word
                &&& self.next(s.seen(self.access())).at->Count_start == s.head
                &&& !marked(s.head)
                &&& !s.retired.contains(s.head)
            },
    {
        let s1 = s.after(self.access());
        let r1 = self.next(s.seen(self.access()));
        s.places();
        match self.at {
            DequeueBatchStage::Help { help } => {
                help.step(s, self.stake(s));
            },
            DequeueBatchStage::Count { start } => {},
            DequeueBatchStage::Walk { start, count, node, num } => {
                s.follows(node);
            },
            DequeueBatchStage::SetCount { start, count, node, num } => {
                s.count_changes(node, count, self.stake(s));
            },
            DequeueBatchStage::Advance { start, node, num } => {
                if s.head == start {
                    assert(!marked(start));
                    s.head_advances(node, self.stake(s));
                    let h = s.hpos();
                    assert(Self::laden(s1, h + 1, h + 1 + num)) by {
                        assert forall|i: int| h + 1 <= i < h + 1 + num implies (#[trigger] s1.node(
                            s1.chain[i],
                        )).item is Some by {
                            assert(s.node(s.chain[i]).item is Some);
                        }
                    }
                    assert(Self::unretired(s1, h, h + num)) by {
                        assert forall|i: int| h <= i < h + num implies !s1.retired.contains(
                            #[trigger] s1.chain[i],
                        ) by {
                            assert(s.pos(s.chain[i]) == i);
                        }
                    }
                    assert(r1.due(s1) =~= s.items().take(num as int)) by {
                        assert(s.chain.skip(h + 1).take(num as int) =~= s1.chain.subrange(
                            h + 1,
                            h + 1 + num,
                        ));
                    }
                }
            },
            DequeueBatchStage::Next { node, left } => {
                s.follows(node);
            },
            DequeueBatchStage::Take { node, next, left } => {
                let p = s.pos(node);
                s.item_leaves(next, self.stake(s));
                crate::moves::put_facts(
                    s.nodes,
                    next,
                    crate::node::Node { item: None, ..s.node(next) },
                );
                assert(s.node(s.chain[p + 1]).item is Some);
                assert forall|i: int| p + 2 <= i < p + 1 + left implies (#[trigger] s1.node(
                    s1.chain[i],
                )).item == s.node(s.chain[i]).item by {
                    assert(s.pos(s.chain[i]) == i);
                }
                assert(self.due(s)[0] == s.node(s.chain[p + 1]).item->0);
                assert(r1.due(s1) =~= self.due(s).skip(1)) by {
                    assert(s1.chain.subrange(p + 2, p + 1 + left) =~= s.chain.subrange(
                        p + 1,
                        p + 1 + left,
                    ).skip(1));
                }
            },
            DequeueBatchStage::Retire { node, next, left } => {
                let p = s.pos(node);
                assert(s.chain[p] == node);
                s.node_retires(node, self.stake(s));
                assert forall|i: int| p + 1 <= i < p + left implies !s1.retired.contains(
                    #[trigger] s1.chain[i],
                ) by {
                    assert(s.chain[i] != node);
                }
                if left <= 1 {
                    assert(self.due(s) =~= Seq::empty());
                }
            },
            DequeueBatchStage::Done => {},
        }
    }

    /// What the thread knows stays true whatever another operation does, and so does what belongs
    /// to it and what it is to take.
    pub proof fn undisturbed<T>(self, s: State<T>, s1: State<T>, theirs: Stake)
        requires
            s.wf(),
            s1.wf(),
            self.inv(s),
            s.moves_to(s1, theirs),
            theirs.apart(self.stake(s)),
        ensures
            self.inv(s1),
            self.stake(s1) == self.stake(s),
            self.due(s1) == self.due(s),
    {
        s.places();
        s1.places();
        s.places_stay(s1);
        match self.at {
            DequeueBatchStage::Help { help } => {
                help.undisturbed(s, s1, theirs);
            },
            DequeueBatchStage::Next { node, left } => {
                let p = s.pos(node);
                Self::claim_stays(s, s1, theirs, p + 1, p + 1 + left, p, p + left);
            },
            DequeueBatchStage::Take { node, next, left } => {
                let p = s.pos(node);
                Self::claim_stays(s, s1, theirs, p + 1, p + 1 + left, p, p + left);
            },
            DequeueBatchStage::Retire { node, next, left } => {
                let p = s.pos(node);
                Self::claim_stays(s, s1, theirs, p + 2, p + 1 + left, p, p + left);
            },
            _ => {},
        }
    }

    /// A stretch of the list that belongs to an operation stays what it is while others do not
    /// touch it.
    proof fn claim_stays<T>(
        s: State<T>,
        s1: State<T>,
        theirs: Stake,
        from: int,
        to: int,
        rfrom: int,
        rto: int,
    )
        requires
            s.wf(),
            s1.wf(),
            s.moves_to(s1, theirs),
            0 <= from,
            0 <= rfrom,
            from <= to,
            theirs.items.disjoint(s.span(from, to)),
            theirs.retires.disjoint(s.span(rfrom, rto)),
            Self::laden(s, from, to),
            Self::unretired(s, rfrom, rto),
        ensures
            Self::laden(s1, from, to),
            Self::unretired(s1, rfrom, rto),
            s1.span(from, to) == s.span(from, to),
            s1.span(rfrom, rto) == s.span(rfrom, rto),
            s1.items_of(s1.chain.subrange(from, to)) == s.items_of(s.chain.subrange(from, to)),
    {
        s.places();
        s1.places();
        s.places_stay(s1);
        assert forall|i: int| from <= i < to implies (#[trigger] s1.node(s1.chain[i])).item
            == s.node(s.chain[i]).item by {
            assert(s1.chain[i] == s.chain[i]);
            assert(s.pos(s.chain[i]) == i);
            assert(s.span(from, to).contains(s.chain[i]));
        }
        assert forall|i: int| from <= i < to implies (#[trigger] s1.node(
            s1.chain[i],
        )).item is Some by {
            assert(s.node(s.chain[i]).item is Some);
        }
        assert forall|i: int| rfrom <= i < rto implies !s1.retired.contains(
            #[trigger] s1.chain[i],
        ) by {
            assert(s1.chain[i] == s.chain[i]);
            assert(s.pos(s.chain[i]) == i);
            assert(s.span(rfrom, rto).contains(s.chain[i]));
        }
        Self::span_stays(s, s1, from, to);
        Self::span_stays(s, s1, rfrom, rto);
        assert(s1.items_of(s1.chain.subrange(from, to)) =~= s.items_of(s.chain.subrange(from, to)));
    }

    /// The nodes of a stretch of the list are the same ones when the list has grown.
    proof fn span_stays<T>(s: State<T>, s1: State<T>, from: int, to: int)
        requires
            s.wf(),
            s1.wf(),
            s.chain.is_prefix_of(s1.chain),
            to <= s.hpos() + 1,
        ensures
            s1.span(from, to) == s.span(from, to),
    {
        s.places();
        s1.places();
        s.places_stay(s1);
        assert forall|a: usize| s1.span(from, to).contains(a) implies s.span(from, to).contains(
            a,
        ) by {
            let i = s1.pos(a);
            assert(s1.chain[i] == s.chain[i]);
        }
        assert(s1.span(from, to) =~= s.span(from, to));
    }

    /// What the operation takes and retires, the head has passed.
    pub proof fn stake_within<T>(self, s: State<T>)
        requires
            s.wf(),
            self.inv(s),
        ensures
            self.stake(s).within(s),
    {
    }
}

} // verus!
