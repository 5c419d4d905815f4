//! The changes that the shared memory goes through, one by one, and what each of them leaves alone.
use crate::node::{Ann, InternalBatchRequest, Node};
use crate::state::{apart, at, lies_in, put, succ, Access, State};
use crate::tag::{address, mark, marked};
use vstd::prelude::*;

verus! {

/// The parts of the shared memory that belong to one operation for the time being.
pub struct Stake {
    /// The lists that only this operation adds to the queue, by their first node.
    pub drafts: Set<usize>,
    /// The announcements that only this operation publishes and retires.
    pub anns: Set<usize>,
    /// The nodes that only this operation takes the item out of.
    pub items: Set<usize>,
    /// The nodes that only this operation retires.
    pub retires: Set<usize>,
}

impl Stake {
    /// The stake of an operation that owns nothing.
    pub open spec fn none() -> Self {
        Stake {
            drafts: Set::empty(),
            anns: Set::empty(),
            items: Set::empty(),
            retires: Set::empty(),
        }
    }

    /// Nothing belongs to both.
    pub open spec fn apart(self, other: Self) -> bool {
        &&& self.drafts.disjoint(other.drafts)
        &&& self.anns.disjoint(other.anns)
        &&& self.items.disjoint(other.items)
        &&& self.retires.disjoint(other.retires)
    }

    /// The head has reached every node in the stake whose item is to be taken, and has passed every
    /// node in it that is to be retired.
    pub open spec fn within<T>(self, s: State<T>) -> bool {
        &&& forall|a: usize| #[trigger]
            self.items.contains(a) ==> s.chain.contains(a) && s.pos(a) <= s.hpos()
        &&& forall|a: usize| #[trigger]
            self.retires.contains(a) ==> s.chain.contains(a) && s.pos(a) < s.hpos()
    }

    /// What is in this stake was in `before`, or the head came to it when the memory changed from
    /// `s` to `s1`.
    pub open spec fn from<T>(self, before: Self, s: State<T>, s1: State<T>) -> bool {
        &&& self.drafts.subset_of(before.drafts)
        &&& self.anns.subset_of(before.anns)
        &&& forall|a: usize| #[trigger]
            self.items.contains(a) ==> before.items.contains(a) || (s1.chain.contains(a) && s.hpos()
                < s1.pos(a))
        &&& forall|a: usize| #[trigger]
            self.retires.contains(a) ==> before.retires.contains(a) || (s1.chain.contains(a)
                && s.hpos() <= s1.pos(a))
    }
}

/// Writing at one address leaves what lies at the others.
pub proof fn put_facts<V>(s: Seq<V>, a: usize, v: V)
    requires
        lies_in(s, a),
    ensures
        put(s, a, v).len() == s.len(),
        forall|b: usize| #[trigger] lies_in(put(s, a, v), b) == lies_in(s, b),
        forall|b: usize| lies_in(s, b) ==> #[trigger] at(put(s, a, v), b) == if b == a {
            v
        } else {
            at(s, b)
        },
{
}

impl<T> State<T> {
    /// Whether `f` is the first node of a batch whose announcement has been published.
    pub open spec fn announced(self, f: usize) -> bool {
        exists|a: usize| #[trigger]
            self.published.contains(a) && self.ann(a).batch_req.first_enq == f
    }

    /// Nothing that was once true of the memory for good has become false: the list only grows at
    /// its end, the head only moves towards it, and what an announcement says stays said.
    pub open spec fn grows_to(self, s: Self) -> bool {
        &&& self.nodes.len() <= s.nodes.len()
        &&& self.anns.len() <= s.anns.len()
        &&& self.chain.is_prefix_of(s.chain)
        &&& self.hpos() <= s.hpos()
        &&& self.published.subset_of(s.published)
        &&& forall|a: usize| #![trigger s.ann(a)]
            self.is_ann(a) ==> {
                &&& s.ann(a).batch_req == self.ann(a).batch_req
                &&& self.ann(a).old_tail_node != 0 ==> s.ann(a).old_tail_node == self.ann(
                    a,
                ).old_tail_node
            }
        &&& forall|a: usize| #[trigger]
            self.published.contains(a) ==> {
                &&& s.ann(a).old_head_node == self.ann(a).old_head_node
                &&& self.head != mark(a) ==> s.head != mark(a)
            }
    }

    /// A change from this memory to `s` touches nothing that belongs to operations other than the
    /// one with the stake `mine`.
    pub open spec fn spares(self, s: Self, mine: Stake) -> bool {
        &&& forall|f: usize| #[trigger]
            self.drafts.contains_key(f) && !mine.drafts.contains(f) && !self.announced(f) ==> {
                &&& s.drafts.contains_key(f)
                &&& s.drafts[f] == self.drafts[f]
            }
        &&& forall|a: usize| #![trigger s.ann(a)]
            self.is_ann(a) && !self.published.contains(a) && !mine.anns.contains(a) ==> {
                &&& s.ann(a) == self.ann(a)
                &&& !s.published.contains(a)
            }
        &&& forall|a: usize| #![trigger s.ann(a)]
            s.is_ann(a) && !self.is_ann(a) ==> mine.drafts.contains(s.ann(a).batch_req.first_enq)
        &&& forall|a: usize| #![trigger s.node(a)]
            self.is_node(a) && !mine.items.contains(a) && (self.chain.contains(a)
                || s.chain.contains(a)) ==> s.node(a).item == self.node(a).item
        &&& forall|a: usize| #[trigger]
            s.retired.contains(a) && !self.retired.contains(a) ==> mine.retires.contains(a)
        &&& forall|a: usize| #[trigger]
            s.retired_anns.contains(a) && !self.retired_anns.contains(a) ==> mine.anns.contains(a)
    }

    /// A change to `s` that an operation with the stake `mine` may make while others are under way.
    pub open spec fn moves_to(self, s: Self, mine: Stake) -> bool {
        self.grows_to(s) && self.spares(s, mine)
    }

    /// A place in the list and the node there determine each other.
    pub proof fn places(self)
        requires
            self.chain_ok(),
        ensures
            forall|i: int| 0 <= i < self.chain.len() ==> #[trigger] self.pos(self.chain[i]) == i,
            forall|i: int| 0 <= i < self.chain.len() ==> self.chain.contains(#[trigger] self.chain[i]),
            forall|a: usize| #![trigger self.pos(a)] #![trigger self.chain.contains(a)]
                self.chain.contains(a) ==> {
                    &&& 0 <= self.pos(a) < self.chain.len()
                    &&& self.chain[self.pos(a)] == a
                    &&& self.is_node(a)
                },
    {
    }

    /// What follows a node of the list is the node at the next place, and nothing follows only the
    /// last one.
    pub proof fn follows(self, a: usize)
        requires
            self.chain_ok(),
            self.chain.contains(a),
        ensures
            0 <= self.pos(a) < self.chain.len(),
            self.is_node(a),
            self.node(a).next == 0 <==> self.pos(a) == self.chain.len() - 1,
            self.node(a).next == 0 <==> a == self.chain.last(),
            self.node(a).next != 0 ==> {
                &&& self.chain.contains(self.node(a).next)
                &&& self.pos(self.node(a).next) == self.pos(a) + 1
                &&& self.chain[self.pos(a) + 1] == self.node(a).next
            },
    {
        let i = self.pos(a);
        assert(0 <= i < self.chain.len() && self.chain[i] == a);
        assert(self.node(self.chain[i]).next == succ(self.chain, i));
        if i + 1 < self.chain.len() {
            assert(self.is_node(self.chain[i + 1]));
            assert(self.chain.contains(self.chain[i + 1]));
        }
    }

    /// A node keeps its place when the list grows.
    pub proof fn places_stay(self, s: Self)
        requires
            self.chain_ok(),
            s.chain_ok(),
            self.chain.is_prefix_of(s.chain),
        ensures
            forall|a: usize| #[trigger] self.chain.contains(a) ==> {
                &&& s.chain.contains(a)
                &&& s.pos(a) == self.pos(a)
            },
    {
        self.places();
        s.places();
        assert forall|a: usize| #[trigger] self.chain.contains(a) implies {
            &&& s.chain.contains(a)
            &&& s.pos(a) == self.pos(a)
        } by {
            let i = self.pos(a);
            assert(s.chain[i] == self.chain[i]);
        }
    }

    /// The tail moves to another node of the list.
    pub proof fn tail_moves(self, new: usize, mine: Stake)
        requires
            self.wf(),
            self.chain.contains(new),
        ensures
            (State { tail: new, ..self }).wf(),
            self.moves_to(State { tail: new, ..self }, mine),
            (State { tail: new, ..self }).items() == self.items(),
    {
    }

    /// A node is handed over to be freed after the head has passed it.
    pub proof fn node_retires(self, node: usize, mine: Stake)
        requires
            self.wf(),
            self.chain.contains(node),
            self.pos(node) < self.hpos(),
            !self.retired.contains(node),
            mine.retires.contains(node),
        ensures
            self.after(Access::Retire { node }).wf(),
            self.moves_to(self.after(Access::Retire { node }), mine),
            self.after(Access::Retire { node }).items() == self.items(),
            forall|a: usize| #[trigger] self.after(Access::Retire { node }).retired.contains(a)
                <==> self.retired.contains(a) || a == node,
    {
        let s = self.after(Access::Retire { node });
        assert forall|a: usize| #[trigger] s.retired.contains(a) <==> self.retired.contains(a)
            || a == node by {
            if self.retired.contains(a) {
                let i = self.retired.index_of(a);
                assert(s.retired[i] == a);
            }
            if a == node {
                assert(s.retired[self.retired.len() as int] == a);
            }
        }
    }

    /// The count of a node changes.
    pub proof fn count_changes(self, node: usize, count: usize, mine: Stake)
        requires
            self.wf(),
            self.is_node(node),
        ensures
            self.after(Access::StoreCount { node, count }).wf(),
            self.moves_to(self.after(Access::StoreCount { node, count }), mine),
            self.after(Access::StoreCount { node, count }).items() == self.items(),
    {
        let s = self.after(Access::StoreCount { node, count });
        put_facts(self.nodes, node, Node { count, ..self.node(node) });
        self.places();
        self.items_stay(s);
    }

    /// The queue holds the same items as long as the list, the head and the items stay.
    pub proof fn items_stay(self, s: Self)
        requires
            self.chain_ok(),
            self.chain.contains(self.head_node()),
            s.chain == self.chain,
            s.head_node() == self.head_node(),
            forall|i: int|
                self.hpos() < i < self.chain.len() ==> #[trigger] s.node(self.chain[i]).item
                    == self.node(self.chain[i]).item,
        ensures
            s.items() == self.items(),
    {
        self.places();
        let h = self.hpos();
        assert forall|i: int| 0 <= i < self.items().len() implies s.items()[i] == self.items()[i] by {
            assert(self.chain.skip(h + 1)[i] == self.chain[h + 1 + i]);
            assert(s.node(self.chain[h + 1 + i]).item == self.node(self.chain[h + 1 + i]).item);
        }
        assert(s.items() =~= self.items());
    }

    /// An item is taken out of a node that the head has reached.
    pub proof fn item_leaves(self, node: usize, mine: Stake)
        requires
            self.wf(),
            self.chain.contains(node),
            self.pos(node) <= self.hpos(),
            mine.items.contains(node),
        ensures
            self.after(Access::TakeItem { node }).wf(),
            self.moves_to(self.after(Access::TakeItem { node }), mine),
            self.after(Access::TakeItem { node }).items() == self.items(),
    {
        let s = self.after(Access::TakeItem { node });
        put_facts(self.nodes, node, Node { item: None, ..self.node(node) });
        self.places();
        self.items_stay(s);
        assert forall|f: usize| #[trigger] s.drafts.contains_key(f) implies s.draft_ok(f) by {
            let d = self.drafts[f];
            assert forall|i: int| 0 <= i < d.len() implies #[trigger] d[i] != node by {
                assert(self.chain[self.pos(node)] != d[i]);
            }
        }
    }

    /// Linking a list that was built behind the last node keeps the order of the list.
    proof fn chain_grows(self, node: usize, new: usize)
        requires
            self.wf(),
            self.chain.contains(node),
            self.node(node).next == 0,
            self.drafts.contains_key(new),
        ensures
            self.after(Access::CasNext { node, new }).chain_ok(),
            self.after(Access::CasNext { node, new }).chain == self.chain + self.drafts[new],
            node == self.chain.last(),
    {
        let s = self.after(Access::CasNext { node, new });
        let d = self.drafts[new];
        let n = self.chain.len() as int;
        put_facts(self.nodes, node, Node { next: new, ..self.node(node) });
        self.follows(node);
        assert(self.draft_ok(new));
        assert(s.chain == self.chain + d);
        assert(apart(self.chain, d));
        assert forall|i: int| 0 <= i < s.chain.len() implies s.is_node(#[trigger] s.chain[i])
            && s.node(s.chain[i]).next == succ(s.chain, i) by {
            if i < n {
                assert(s.chain[i] == self.chain[i]);
                assert(self.node(self.chain[i]).next == succ(self.chain, i));
                if i < n - 1 {
                    assert(self.chain[i] != self.chain[n - 1]);
                }
            } else {
                assert(s.chain[i] == d[i - n]);
                assert(self.chain[n - 1] != d[i - n]);
                assert(self.node(d[i - n]).next == succ(d, i - n));
            }
        }
    }

    /// The lists that stay apart from the queue stay in order when another one is added to it.
    proof fn drafts_stay(self, node: usize, new: usize)
        requires
            self.wf(),
            self.chain.contains(node),
            self.node(node).next == 0,
            self.drafts.contains_key(new),
        ensures
            self.after(Access::CasNext { node, new }).drafts_ok(),
            self.after(Access::CasNext { node, new }).free_ok(),
    {
        let s = self.after(Access::CasNext { node, new });
        let d = self.drafts[new];
        let n = self.chain.len() as int;
        put_facts(self.nodes, node, Node { next: new, ..self.node(node) });
        self.chain_grows(node, new);
        assert forall|f: usize| #[trigger] s.drafts.contains_key(f) implies s.draft_ok(f) by {
            let e = self.drafts[f];
            assert(self.drafts.contains_key(f));
            assert(self.draft_ok(f));
            assert(apart(self.drafts[new], self.drafts[f]));
            assert forall|i: int, j: int| 0 <= i < s.chain.len() && 0 <= j < e.len() implies
                #[trigger] s.chain[i] != #[trigger] e[j] by {
                if i < n {
                    assert(self.chain[i] != e[j]);
                } else {
                    assert(d[i - n] != e[j]);
                }
            }
            assert forall|j: int| 0 <= j < e.len() implies #[trigger] e[j] != node by {
                assert(self.chain[n - 1] != e[j]);
            }
        }
        assert forall|i: int, j: int| 0 <= i < s.chain.len() && 0 <= j < s.free.len() implies
            #[trigger] s.chain[i] != #[trigger] s.free[j] by {
            if i < n {
                assert(self.chain[i] != self.free[j]);
            } else {
                assert(apart(self.drafts[new], self.free));
                assert(d[i - n] != self.free[j]);
            }
        }
    }

    /// The announcements stay in order when a list is added to the queue.
    proof fn anns_stay(self, node: usize, new: usize)
        requires
            self.wf(),
            self.chain.contains(node),
            self.node(node).next == 0,
            self.drafts.contains_key(new),
        ensures
            self.after(Access::CasNext { node, new }).anns_ok(),
    {
        let s = self.after(Access::CasNext { node, new });
        let d = self.drafts[new];
        let n = self.chain.len() as int;
        self.chain_grows(node, new);
        self.drafts_stay(node, new);
        self.places();
        s.places();
        self.places_stay(s);
        assert forall|a: usize| s.is_ann(a) implies s.ann_ok(#[trigger] s.ann(a)) by {
            let r = self.ann(a).batch_req;
            assert(self.ann_ok(self.ann(a)));
            if !self.chain.contains(r.first_enq) {
                if r.first_enq == new {
                    assert(self.draft_ok(new));
                    assert(s.chain[n] == new);
                    assert(s.chain[n + r.enqs_num - 1] == d.last());
                } else {
                    assert(s.drafts.contains_key(r.first_enq));
                    assert(!s.chain.contains(r.first_enq)) by {
                        assert(s.draft_ok(r.first_enq));
                        assert(self.drafts[r.first_enq][0] == r.first_enq);
                    }
                }
            } else {
                let p = self.pos(r.first_enq);
                assert(s.chain[p + r.enqs_num - 1] == self.chain[p + r.enqs_num - 1]);
                assert(s.chain[p - 1] == self.chain[p - 1]);
            }
        }
    }

    /// A list that was built is linked behind the last node and becomes the end of the list.
    pub proof fn list_grows(self, node: usize, new: usize, mine: Stake)
        requires
            self.wf(),
            self.chain.contains(node),
            self.node(node).next == 0,
            self.drafts.contains_key(new),
            mine.drafts.contains(new) || self.announced(new),
        ensures
            self.after(Access::CasNext { node, new }).wf(),
            self.moves_to(self.after(Access::CasNext { node, new }), mine),
            self.after(Access::CasNext { node, new }).chain == self.chain + self.drafts[new],
            self.after(Access::CasNext { node, new }).items() == self.items() + self.items_of(
                self.drafts[new],
            ),
            node == self.chain.last(),
    {
        let s = self.after(Access::CasNext { node, new });
        let d = self.drafts[new];
        let n = self.chain.len() as int;
        let h = self.hpos();
        put_facts(self.nodes, node, Node { next: new, ..self.node(node) });
        self.chain_grows(node, new);
        self.drafts_stay(node, new);
        self.anns_stay(node, new);
        self.places();
        self.places_stay(s);
        assert(s.head_node() == self.head_node());
        assert(self.draft_ok(new));
        assert forall|i: int| h < i < s.chain.len() implies (#[trigger] s.node(
            s.chain[i],
        )).item is Some by {
            if i < n {
                assert(self.node(self.chain[i]).item is Some);
            } else {
                assert(self.node(d[i - n]).item is Some);
            }
        }
        assert(s.ends_ok());
        assert(s.retired_ok());
        assert forall|i: int| 0 <= i < s.items().len() implies s.items()[i] == (self.items()
            + self.items_of(d))[i] by {
            assert(s.chain.skip(h + 1)[i] == s.chain[h + 1 + i]);
            if i < self.items().len() {
                assert(self.chain.skip(h + 1)[i] == self.chain[h + 1 + i]);
            }
        }
        assert(s.items() =~= self.items() + self.items_of(d));
    }

    /// The head moves from a node to one further down the list.
    pub proof fn head_advances(self, new: usize, mine: Stake)
        requires
            self.wf(),
            !marked(self.head),
            self.chain.contains(new),
            self.hpos() <= self.pos(new),
        ensures
            self.after(Access::CasHead { current: self.head, new }).wf(),
            self.moves_to(self.after(Access::CasHead { current: self.head, new }), mine),
            self.after(Access::CasHead { current: self.head, new }).hpos() == self.pos(new),
            self.after(Access::CasHead { current: self.head, new }).items() == self.items().skip(
                self.pos(new) - self.hpos(),
            ),
    {
        let s = self.after(Access::CasHead { current: self.head, new });
        self.places();
        let k = self.pos(new) - self.hpos();
        assert(self.chain.skip(self.hpos() + 1).skip(k) =~= self.chain.skip(self.pos(new) + 1));
        assert(s.items() =~= self.items().skip(k));
    }

    /// An announcement takes the place of the node in the head.
    pub proof fn ann_enters(self, ann: usize, mine: Stake)
        requires
            self.wf(),
            !marked(self.head),
            self.is_ann(ann),
            !self.published.contains(ann),
            mine.anns.contains(ann),
            self.drafts.contains_key(self.ann(ann).batch_req.first_enq),
            self.ann(ann).old_head_node == self.head,
        ensures
            self.after(Access::CasHead { current: self.head, new: mark(ann) }).wf(),
            self.moves_to(self.after(Access::CasHead { current: self.head, new: mark(ann) }), mine),
            self.after(Access::CasHead { current: self.head, new: mark(ann) }).items()
                == self.items(),
    {
        let s = self.after(Access::CasHead { current: self.head, new: mark(ann) });
        self.places();
        assert(address(mark(ann)) == ann);
        self.items_stay(s);
        assert(!self.chain.contains(self.ann(ann).batch_req.first_enq)) by {
            assert(self.draft_ok(self.ann(ann).batch_req.first_enq));
        }
    }

    /// The node that an announcement took the place of comes back into the head.
    pub proof fn ann_leaves(self, node: usize, mine: Stake)
        requires
            self.wf(),
            self.head_node() == node,
        ensures
            self.after(Access::CasHead { current: self.head, new: node }).wf(),
            self.moves_to(self.after(Access::CasHead { current: self.head, new: node }), mine),
            self.after(Access::CasHead { current: self.head, new: node }).items() == self.items(),
            self.after(Access::CasHead { current: self.head, new: node }).published
                == self.published,
    {
        let s = self.after(Access::CasHead { current: self.head, new: node });
        self.places();
        assert(!marked(node));
        self.items_stay(s);
    }

    /// What an announcement notes down besides its batch changes.
    pub proof fn ann_changes(self, ann: usize, n: Ann, mine: Stake)
        requires
            self.wf(),
            self.is_ann(ann),
            n.batch_req == self.ann(ann).batch_req,
            n.old_tail_node == self.ann(ann).old_tail_node || {
                &&& self.ann(ann).old_tail_node == 0
                &&& self.published.contains(ann)
                &&& self.chain.contains(n.batch_req.first_enq)
                &&& n.old_tail_node == self.chain[self.pos(n.batch_req.first_enq) - 1]
            },
            self.published.contains(ann) ==> n.old_head_node == self.ann(ann).old_head_node,
            self.published.contains(ann) || mine.anns.contains(ann),
        ensures
            self.with_ann(ann, n).wf(),
            self.moves_to(self.with_ann(ann, n), mine),
            self.with_ann(ann, n).items() == self.items(),
    {
        let s = self.with_ann(ann, n);
        put_facts(self.anns, ann, n);
        self.places();
        assert(s.head_node() == self.head_node());
        self.items_stay(s);
        assert forall|a: usize| s.is_ann(a) implies s.ann_ok(#[trigger] s.ann(a)) by {
            assert(self.ann_ok(self.ann(a)));
        }
    }

    /// An announcement is handed over to be freed after its batch was added and it left the head.
    pub proof fn ann_retires(self, ann: usize, mine: Stake)
        requires
            self.wf(),
            self.published.contains(ann),
            self.ann(ann).old_tail_node != 0,
            self.head != mark(ann),
            !self.retired_anns.contains(ann),
            mine.anns.contains(ann),
        ensures
            self.after(Access::RetireAnn { ann }).wf(),
            self.moves_to(self.after(Access::RetireAnn { ann }), mine),
            self.after(Access::RetireAnn { ann }).items() == self.items(),
    {
        let s = self.after(Access::RetireAnn { ann });
        assert forall|a: usize| #[trigger] s.retired_anns.contains(a) implies
            self.retired_anns.contains(a) || a == ann by {
            let i = s.retired_anns.index_of(a);
            if i < self.retired_anns.len() {
                assert(self.retired_anns[i] == a);
            }
        }
    }

    /// A node is built. Nobody but its builder knows of it.
    pub proof fn node_appears(self, item: T, mine: Stake)
        requires
            self.wf(),
            self.has_room(),
        ensures
            self.built(item).wf(),
            self.moves_to(self.built(item), mine),
            self.built(item).items() == self.items(),
            !self.drafts.contains_key(self.fresh()),
            self.built(item).node(self.fresh()) == (Node { item: Some(item), next: 0, count: 0 }),
            self.built(item).is_node(self.fresh()),
            self.built(item).unannounced(self.fresh()),
            forall|b: usize| self.is_node(b) && b != self.fresh() ==> #[trigger] self.built(
                item,
            ).node(b) == self.node(b),
    {
        let s = self.built(item);
        let a = self.fresh();
        let node = Node { item: Some(item), next: 0, count: 0 };
        self.places();
        if self.free.len() > 0 {
            put_facts(self.nodes, a, node);
        }
        assert(s.node(a) == node);
        assert forall|b: usize| self.is_node(b) && b != a implies #[trigger] s.node(b)
            == self.node(b) && s.is_node(b) by {}
        assert forall|i: int| 0 <= i < self.chain.len() implies #[trigger] self.chain[i] != a by {
            assert(self.is_node(self.chain[i]));
            if self.free.len() > 0 {
                assert(self.chain[i] != self.free[self.free.len() - 1]);
            }
        }
        assert forall|f: usize, i: int|
            self.drafts.contains_key(f) && 0 <= i < self.drafts[f].len() implies
            #[trigger] self.drafts[f][i] != a by {
            assert(self.draft_ok(f));
            if self.free.len() > 0 {
                assert(apart(self.drafts[f], self.free));
                assert(self.drafts[f][i] != self.free[self.free.len() - 1]);
            }
        }
        assert(!self.drafts.contains_key(a)) by {
            if self.drafts.contains_key(a) {
                assert(self.draft_ok(a));
                assert(self.drafts[a][0] == a);
            }
        }
        assert(s.chain_ok());
        assert forall|f: usize| #[trigger] s.drafts.contains_key(f) implies s.draft_ok(f) by {
            if f != a {
                assert(self.draft_ok(f));
            }
        }
        assert(s.drafts_ok());
        self.items_stay(s);
        assert forall|b: usize| s.is_ann(b) implies s.ann_ok(#[trigger] s.ann(b)) by {
            assert(self.ann_ok(self.ann(b)));
        }
        assert(s.unannounced(a)) by {
            assert forall|b: usize| s.is_ann(b) implies (#[trigger] s.ann(b)).batch_req.first_enq
                != a by {
                assert(self.ann_ok(self.ann(b)));
            }
        }
        assert(s.free_ok()) by {
            assert forall|f: usize| #[trigger] s.drafts.contains_key(f) implies apart(
                s.drafts[f],
                s.free,
            ) by {
                if f != a {
                    assert(apart(self.drafts[f], self.free));
                }
            }
        }
    }

    /// Two lists that are not part of the queue are joined by the one who built them.
    pub proof fn lists_join(self, first: usize, last: usize, new: usize, mine: Stake)
        requires
            self.wf(),
            self.drafts.contains_key(first),
            self.drafts.contains_key(new),
            first != new,
            self.drafts[first].last() == last,
            self.unannounced(first),
            self.unannounced(new),
            mine.drafts.contains(first),
            mine.drafts.contains(new),
        ensures
            self.joined(first, last, new).wf(),
            self.moves_to(self.joined(first, last, new), mine),
            self.joined(first, last, new).items() == self.items(),
            self.joined(first, last, new).unannounced(first),
            self.joined(first, last, new).items_of(
                self.joined(first, last, new).drafts[first],
            ) == self.items_of(self.drafts[first]) + self.items_of(self.drafts[new]),
    {
        let s = self.joined(first, last, new);
        let d = self.drafts[first];
        let e = self.drafts[new];
        let n = d.len() as int;
        assert(self.draft_ok(first));
        assert(self.draft_ok(new));
        assert(d[n - 1] == last);
        put_facts(self.nodes, last, Node { next: new, ..self.node(last) });
        self.places();
        assert forall|i: int| 0 <= i < self.chain.len() implies #[trigger] self.chain[i] != last by {
            assert(self.chain[i] != d[n - 1]);
        }
        assert(s.chain_ok());
        assert(apart(d, e));
        assert(s.drafts[first] == d + e);
        assert forall|f: usize| #[trigger] s.drafts.contains_key(f) implies s.draft_ok(f) by {
            if f == first {
                let g = d + e;
                assert forall|i: int| 0 <= i < g.len() implies {
                    &&& (#[trigger] s.node(g[i])).next == succ(g, i)
                    &&& s.node(g[i]).item is Some
                } by {
                    if i < n {
                        assert(self.node(d[i]).next == succ(d, i));
                    } else {
                        assert(self.node(e[i - n]).next == succ(e, i - n));
                        assert(d[n - 1] != e[i - n]);
                    }
                }
            } else {
                let g = self.drafts[f];
                assert(self.draft_ok(f));
                assert(apart(self.drafts[first], self.drafts[f]));
                assert forall|i: int| 0 <= i < g.len() implies #[trigger] g[i] != last by {
                    assert(d[n - 1] != g[i]);
                }
            }
        }
        assert(s.drafts_ok()) by {
            assert forall|f: usize, g: usize|
                #![trigger s.drafts[f], s.drafts[g]]
                s.drafts.contains_key(f) && s.drafts.contains_key(g) && f != g implies apart(
                s.drafts[f],
                s.drafts[g],
            ) by {
                if f == first {
                    assert(apart(self.drafts[first], self.drafts[g]));
                    assert(apart(self.drafts[new], self.drafts[g]));
                } else if g == first {
                    assert(apart(self.drafts[f], self.drafts[first]));
                    assert(apart(self.drafts[f], self.drafts[new]));
                } else {
                    assert(apart(self.drafts[f], self.drafts[g]));
                }
            }
        }
        self.items_stay(s);
        assert forall|b: usize| s.is_ann(b) implies s.ann_ok(#[trigger] s.ann(b)) by {
            assert(self.ann_ok(self.ann(b)));
        }
        assert(s.free_ok()) by {
            assert forall|f: usize| #[trigger] s.drafts.contains_key(f) implies apart(
                s.drafts[f],
                s.free,
            ) by {
                assert(apart(self.drafts[f], self.free));
                assert(apart(self.drafts[new], self.free));
            }
        }
        assert(s.items_of(d + e) =~= self.items_of(d) + self.items_of(e));
    }

    /// An announcement is written. Nobody but its author knows of it.
    pub proof fn ann_appears(self, batch_req: InternalBatchRequest, mine: Stake)
        requires
            self.wf(),
            2 * self.anns.len() + 2 <= usize::MAX,
            self.drafts.contains_key(batch_req.first_enq),
            self.unannounced(batch_req.first_enq),
            self.drafts[batch_req.first_enq].last() == batch_req.last_enq,
            self.drafts[batch_req.first_enq].len() == batch_req.enqs_num,
            mine.drafts.contains(batch_req.first_enq),
        ensures
            self.announcing(batch_req).wf(),
            self.moves_to(self.announcing(batch_req), mine),
            self.announcing(batch_req).items() == self.items(),
            self.announcing(batch_req).is_ann(self.fresh_ann()),
            self.announcing(batch_req).ann(self.fresh_ann()) == Ann::pending(batch_req),
            !self.announcing(batch_req).published.contains(self.fresh_ann()),
    {
        let s = self.announcing(batch_req);
        let a = self.fresh_ann();
        self.places();
        assert(self.draft_ok(batch_req.first_enq));
        assert forall|b: usize| s.is_ann(b) implies b == a || (self.is_ann(b) && #[trigger] s.ann(b)
            == self.ann(b)) by {}
        assert(!self.chain.contains(batch_req.first_enq)) by {
            assert(self.drafts[batch_req.first_enq][0] == batch_req.first_enq);
        }
        assert(s.ann(a) == Ann::pending(batch_req));
        assert(s.head_node() == self.head_node());
        self.items_stay(s);
        assert forall|b: usize| s.is_ann(b) implies s.ann_ok(#[trigger] s.ann(b)) by {
            if b != a {
                assert(self.ann_ok(self.ann(b)));
            }
        }
        assert(!self.published.contains(a));
    }

    /// The memory of an empty queue is in order.
    pub proof fn initial_in_order()
        ensures
            Self::initial().wf(),
            Self::initial().hpos() == 0,
            Self::initial().items() == Seq::<T>::empty(),
    {
        let s = Self::initial();
        assert(s.chain[0] == 2);
        s.places();
        assert(s.items() =~= Seq::<T>::empty());
    }

    /// When no operation is under way, what was handed over to be freed can be used anew.
    pub proof fn memory_reclaimed(self)
        requires
            self.wf(),
            !marked(self.head),
            self.drafts == Map::<usize, Seq<usize>>::empty(),
            self.hpos() <= self.pos(self.tail),
        ensures
            self.reclaimed().wf(),
            self.reclaimed().hpos() == 0,
            self.reclaimed().items() == self.items(),
    {
        let s = self.reclaimed();
        let h = self.hpos();
        self.places();
        assert forall|i: int| 0 <= i < s.chain.len() implies s.is_node(#[trigger] s.chain[i])
            && s.node(s.chain[i]).next == succ(s.chain, i) by {
            assert(s.chain[i] == self.chain[h + i]);
            assert(self.node(self.chain[h + i]).next == succ(self.chain, h + i));
        }
        assert(s.chain_ok());
        s.places();
        assert(s.chain[0] == self.head);
        assert(s.chain[self.pos(self.tail) - h] == self.tail);
        assert forall|i: int| 0 < i < s.chain.len() implies (#[trigger] s.node(
            s.chain[i],
        )).item is Some by {
            assert(self.node(self.chain[h + i]).item is Some);
        }
        assert(s.ends_ok());
        assert(s.free_ok()) by {
            assert forall|i: int, j: int| 0 <= i < s.chain.len() && 0 <= j < s.free.len() implies
                #[trigger] s.chain[i] != #[trigger] s.free[j] by {
                assert(s.chain[i] == self.chain[h + i]);
                if j < self.free.len() {
                    assert(self.chain[h + i] != self.free[j]);
                } else {
                    assert(self.pos(self.retired[j - self.free.len()]) < h);
                }
            }
            assert forall|i: int, j: int| 0 <= i < j < s.free.len() implies #[trigger] s.free[i]
                != #[trigger] s.free[j] by {
                if i < self.free.len() && j >= self.free.len() {
                    let r = self.retired[j - self.free.len()];
                    assert(self.chain.contains(r));
                    assert(self.chain[self.pos(r)] != self.free[i]);
                }
            }
            assert forall|i: int| 0 <= i < s.free.len() implies s.is_node(#[trigger] s.free[i]) by {
                if i >= self.free.len() {
                    assert(self.chain.contains(self.retired[i - self.free.len()]));
                }
            }
        }
        assert(s.chain.skip(1) =~= self.chain.skip(h + 1));
    }
}

} // verus!
