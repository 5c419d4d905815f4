//! The state of the shared memory, the accesses that threads make to it, and what holds of it
//! after every one of them.
use crate::node::{Ann, InternalBatchRequest, Node};
use crate::tag::{address, mark, marked};
use vstd::prelude::*;

verus! {

/// One access of a thread to the shared memory. Every access happens at a single moment and hands
/// back the one word that it observed.
#[derive(Clone, Copy)]
pub enum Access {
    /// Read the head.
    LoadHead,
    /// Protect what `word` is the address of, then read the head again.
    ConfirmHead { word: usize },
    /// Replace the head by `new` if it is `current`.
    CasHead { current: usize, new: usize },
    /// Protect the node at the tail and read the tail.
    LoadTail,
    /// Replace the tail by `new` if it is `current`.
    CasTail { current: usize, new: usize },
    /// Read which node follows `node`, and protect it.
    LoadNext { node: usize },
    /// Let `new` follow `node` if nothing does.
    CasNext { node: usize, new: usize },
    /// Read the count of `node`.
    LoadCount { node: usize },
    /// Set the count of `node`.
    StoreCount { node: usize, count: usize },
    /// Read the first node of the batch that `ann` announces.
    LoadFirst { ann: usize },
    /// Read the last node of the batch that `ann` announces.
    LoadLast { ann: usize },
    /// Read the length of the batch that `ann` announces.
    LoadNum { ann: usize },
    /// Read the node that `ann` took the place of.
    LoadOldHead { ann: usize },
    /// Write the node that `ann` is to take the place of, and its count.
    SetOldHead { ann: usize, head: usize, count: usize },
    /// Read which node the batch of `ann` was linked behind.
    LoadOldTail { ann: usize },
    /// Record which node the batch of `ann` was linked behind if none is recorded.
    CasOldTail { ann: usize, new: usize },
    /// Read the count recorded in `ann`.
    LoadOldTailCount { ann: usize },
    /// Record a count in `ann` if none is recorded.
    CasOldTailCount { ann: usize, new: usize },
    /// Take the item out of `node`.
    TakeItem { node: usize },
    /// Hand `node` over to be freed once nobody protects it.
    Retire { node: usize },
    /// Hand `ann` over to be freed once nobody protects it.
    RetireAnn { ann: usize },
    /// Touch nothing: the operation is over.
    Rest,
}

/// Whether `a` is the address of an entry of `s`. Entry 0 has the address 2, entry 1 the address 4,
/// and so on.
pub open spec fn lies_in<V>(s: Seq<V>, a: usize) -> bool {
    a != 0 && a % 2 == 0 && a / 2 - 1 < s.len()
}

/// The entry of `s` at the address `a`.
pub open spec fn at<V>(s: Seq<V>, a: usize) -> V {
    s[a / 2 - 1]
}

/// `s` with `v` at the address `a`.
pub open spec fn put<V>(s: Seq<V>, a: usize, v: V) -> Seq<V> {
    s.update(a / 2 - 1, v)
}

/// The element behind position `i` of `s`, or 0 at the end.
pub open spec fn succ(s: Seq<usize>, i: int) -> usize {
    if i + 1 < s.len() {
        s[i + 1]
    } else {
        0
    }
}

/// Two lists of nodes have no node in common.
pub open spec fn apart(a: Seq<usize>, b: Seq<usize>) -> bool {
    forall|i: int, j: int| 0 <= i < a.len() && 0 <= j < b.len() ==> #[trigger] a[i] != #[trigger] b[j]
}

/// The shared memory. The last three fields are bookkeeping about the others: they say which nodes
/// make up the list, which are linked up but not yet part of it, and which announcements have ever
/// stood in the head.
#[verifier::ext_equal]
pub struct State<T> {
    /// The node before the first item, or the announcement that stands in its place.
    pub head: usize,
    /// A node of the list, at or before its end.
    pub tail: usize,
    /// The nodes, by address.
    pub nodes: Seq<Node<T>>,
    /// The announcements, by address.
    pub anns: Seq<Ann>,
    /// The nodes handed over to be freed.
    pub retired: Seq<usize>,
    /// The announcements handed over to be freed.
    pub retired_anns: Seq<usize>,
    /// The nodes that can be used anew.
    pub free: Seq<usize>,
    /// The nodes of the list from the oldest one on, those before the head included.
    pub chain: Seq<usize>,
    /// The lists that have been built to be added, by their first node.
    pub drafts: Map<usize, Seq<usize>>,
    /// The announcements that stand in the head or have stood there.
    pub published: Set<usize>,
}

impl<T> State<T> {
    /// Whether `a` is the address of a node.
    #[verifier::inline]
    pub open spec fn is_node(self, a: usize) -> bool {
        lies_in(self.nodes, a)
    }

    /// The node at the address `a`.
    #[verifier::inline]
    pub open spec fn node(self, a: usize) -> Node<T> {
        at(self.nodes, a)
    }

    /// Whether `a` is the address of an announcement.
    #[verifier::inline]
    pub open spec fn is_ann(self, a: usize) -> bool {
        lies_in(self.anns, a)
    }

    /// The announcement at the address `a`.
    #[verifier::inline]
    pub open spec fn ann(self, a: usize) -> Ann {
        at(self.anns, a)
    }

    /// This memory with `n` at the address `a`.
    pub open spec fn with_node(self, a: usize, n: Node<T>) -> Self {
        State { nodes: put(self.nodes, a, n), ..self }
    }

    /// This memory with `n` at the address `a`.
    pub open spec fn with_ann(self, a: usize, n: Ann) -> Self {
        State { anns: put(self.anns, a, n), ..self }
    }

    /// The place of the node `a` in the list.
    #[verifier::inline]
    pub open spec fn pos(self, a: usize) -> int {
        self.chain.index_of(a)
    }

    /// The node before the first item.
    pub open spec fn head_node(self) -> usize {
        if marked(self.head) {
            self.ann(address(self.head)).old_head_node
        } else {
            self.head
        }
    }

    /// The place of the node before the first item.
    pub open spec fn hpos(self) -> int {
        self.pos(self.head_node())
    }

    /// What the nodes `s` carry.
    pub open spec fn items_of(self, s: Seq<usize>) -> Seq<T> {
        Seq::new(s.len(), |i: int| self.node(s[i]).item->0)
    }

    /// The contents of the queue, the oldest item first.
    pub open spec fn items(self) -> Seq<T> {
        self.items_of(self.chain.skip(self.hpos() + 1))
    }

    /// The nodes at the places from `from` up to, not including, `to`.
    pub open spec fn span(self, from: int, to: int) -> Set<usize> {
        Set::new(|a: usize| self.chain.contains(a) && from <= self.pos(a) < to)
    }

    /// Whether the addresses in `access` are addresses of nodes and announcements.
    pub open spec fn allows(self, access: Access) -> bool {
        match access {
            Access::LoadNext { node } => self.is_node(node),
            Access::CasNext { node, new } => self.is_node(node),
            Access::LoadCount { node } => self.is_node(node),
            Access::StoreCount { node, count } => self.is_node(node),
            Access::LoadFirst { ann } => self.is_ann(ann),
            Access::LoadLast { ann } => self.is_ann(ann),
            Access::LoadNum { ann } => self.is_ann(ann),
            Access::LoadOldHead { ann } => self.is_ann(ann),
            Access::SetOldHead { ann, head, count } => self.is_ann(ann),
            Access::LoadOldTail { ann } => self.is_ann(ann),
            Access::CasOldTail { ann, new } => self.is_ann(ann),
            Access::LoadOldTailCount { ann } => self.is_ann(ann),
            Access::CasOldTailCount { ann, new } => self.is_ann(ann),
            Access::TakeItem { node } => self.is_node(node),
            _ => true,
        }
    }

    /// The word that `access` observes.
    pub open spec fn seen(self, access: Access) -> usize {
        match access {
            Access::LoadHead => self.head,
            Access::ConfirmHead { word } => self.head,
            Access::CasHead { current, new } => self.head,
            Access::LoadTail => self.tail,
            Access::CasTail { current, new } => self.tail,
            Access::LoadNext { node } => self.node(node).next,
            Access::CasNext { node, new } => self.node(node).next,
            Access::LoadCount { node } => self.node(node).count,
            Access::LoadFirst { ann } => self.ann(ann).batch_req.first_enq,
            Access::LoadLast { ann } => self.ann(ann).batch_req.last_enq,
            Access::LoadNum { ann } => self.ann(ann).batch_req.enqs_num,
            Access::LoadOldHead { ann } => self.ann(ann).old_head_node,
            Access::LoadOldTail { ann } => self.ann(ann).old_tail_node,
            Access::CasOldTail { ann, new } => self.ann(ann).old_tail_node,
            Access::LoadOldTailCount { ann } => self.ann(ann).old_tail_count,
            Access::CasOldTailCount { ann, new } => self.ann(ann).old_tail_count,
            _ => 0,
        }
    }

    /// The memory after `access`.
    pub open spec fn after(self, access: Access) -> Self {
        match access {
            Access::CasHead { current, new } => if self.head == current {
                State {
                    head: new,
                    published: if marked(new) {
                        self.published.insert(address(new))
                    } else {
                        self.published
                    },
                    ..self
                }
            } else {
                self
            },
            Access::CasTail { current, new } => if self.tail == current {
                State { tail: new, ..self }
            } else {
                self
            },
            Access::CasNext { node, new } => if self.node(node).next == 0 {
                let linked = self.with_node(node, Node { next: new, ..self.node(node) });
                if node == self.chain.last() && self.drafts.contains_key(new) {
                    State {
                        chain: self.chain + self.drafts[new],
                        drafts: self.drafts.remove(new),
                        ..linked
                    }
                } else {
                    linked
                }
            } else {
                self
            },
            Access::StoreCount { node, count } => self.with_node(
                node,
                Node { count, ..self.node(node) },
            ),
            Access::SetOldHead { ann, head, count } => self.with_ann(
                ann,
                Ann { old_head_node: head, old_head_count: count, ..self.ann(ann) },
            ),
            Access::CasOldTail { ann, new } => if self.ann(ann).old_tail_node == 0 {
                self.with_ann(ann, Ann { old_tail_node: new, ..self.ann(ann) })
            } else {
                self
            },
            Access::CasOldTailCount { ann, new } => if self.ann(ann).old_tail_count == 0 {
                self.with_ann(ann, Ann { old_tail_count: new, ..self.ann(ann) })
            } else {
                self
            },
            Access::TakeItem { node } => self.with_node(
                node,
                Node { item: None, ..self.node(node) },
            ),
            Access::Retire { node } => State { retired: self.retired.push(node), ..self },
            Access::RetireAnn { ann } => State {
                retired_anns: self.retired_anns.push(ann),
                ..self
            },
            _ => self,
        }
    }

    /// The memory of an empty queue.
    pub open spec fn initial() -> Self {
        State {
            head: 2,
            tail: 2,
            nodes: seq![Node { item: None, next: 0, count: 0 }],
            anns: Seq::empty(),
            retired: Seq::empty(),
            retired_anns: Seq::empty(),
            free: Seq::empty(),
            chain: seq![2usize],
            drafts: Map::empty(),
            published: Set::empty(),
        }
    }

    /// The memory after the nodes that were handed over to be freed were freed, the nodes before the
    /// head were forgotten, and all announcements were dropped, handed over or not.
    pub open spec fn reclaimed(self) -> Self {
        State {
            anns: Seq::empty(),
            retired: Seq::empty(),
            retired_anns: Seq::empty(),
            free: self.free + self.retired,
            chain: self.chain.skip(self.hpos()),
            published: Set::empty(),
            ..self
        }
    }

    /// The address that the next node to be built gets.
    pub open spec fn fresh(self) -> usize {
        if self.free.len() > 0 {
            self.free.last()
        } else {
            (2 * self.nodes.len() + 2) as usize
        }
    }

    /// There is an address for one more node.
    pub open spec fn has_room(self) -> bool {
        self.free.len() > 0 || 2 * self.nodes.len() + 2 <= usize::MAX
    }

    /// The memory after a node with `item` was built.
    pub open spec fn built(self, item: T) -> Self {
        let a = self.fresh();
        let node = Node { item: Some(item), next: 0, count: 0 };
        if self.free.len() > 0 {
            State {
                nodes: put(self.nodes, a, node),
                free: self.free.drop_last(),
                drafts: self.drafts.insert(a, seq![a]),
                ..self
            }
        } else {
            State { nodes: self.nodes.push(node), drafts: self.drafts.insert(a, seq![a]), ..self }
        }
    }

    /// The memory after the list that starts at `new` was linked behind the one that starts at
    /// `first` and ends at `last`, neither of them part of the queue.
    pub open spec fn joined(self, first: usize, last: usize, new: usize) -> Self {
        State {
            drafts: self.drafts.insert(first, self.drafts[first] + self.drafts[new]).remove(new),
            ..self.with_node(last, Node { next: new, ..self.node(last) })
        }
    }

    /// The address that the next announcement to be written gets.
    pub open spec fn fresh_ann(self) -> usize {
        (2 * self.anns.len() + 2) as usize
    }

    /// The memory after an announcement of `batch_req` was written, which nobody knows of yet.
    pub open spec fn announcing(self, batch_req: InternalBatchRequest) -> Self {
        State { anns: self.anns.push(Ann::pending(batch_req)), ..self }
    }

    /// No announcement speaks of the list that starts at `f`.
    pub open spec fn unannounced(self, f: usize) -> bool {
        forall|a: usize| self.is_ann(a) ==> (#[trigger] self.ann(a)).batch_req.first_enq != f
    }

    /// The nodes of the list are linked in order, each stands in it once, and nothing follows the
    /// last one.
    pub open spec fn chain_ok(self) -> bool {
        &&& self.chain.len() > 0
        &&& self.chain.no_duplicates()
        &&& forall|i: int| 0 <= i < self.chain.len() ==> self.is_node(#[trigger] self.chain[i])
        &&& forall|i: int|
            0 <= i < self.chain.len() ==> (#[trigger] self.node(self.chain[i])).next == succ(
                self.chain,
                i,
            )
    }

    /// `self.drafts[f]` is a list that starts at `f`, is linked in order, carries items, and has no
    /// node in common with the list.
    pub open spec fn draft_ok(self, f: usize) -> bool {
        let d = self.drafts[f];
        &&& d.len() > 0
        &&& d[0] == f
        &&& d.no_duplicates()
        &&& apart(self.chain, d)
        &&& forall|i: int| 0 <= i < d.len() ==> self.is_node(#[trigger] d[i])
        &&& forall|i: int|
            0 <= i < d.len() ==> {
                &&& (#[trigger] self.node(d[i])).next == succ(d, i)
                &&& self.node(d[i]).item is Some
            }
    }

    /// The lists that have been built to be added are in order and apart from each other.
    pub open spec fn drafts_ok(self) -> bool {
        &&& forall|f: usize| #[trigger] self.drafts.contains_key(f) ==> self.draft_ok(f)
        &&& forall|f: usize, g: usize|
            #![trigger self.drafts[f], self.drafts[g]]
            self.drafts.contains_key(f) && self.drafts.contains_key(g) && f != g ==> apart(
                self.drafts[f],
                self.drafts[g],
            )
    }

    /// The head and the tail lead into the list, and every node behind the head carries an item.
    /// The batch of an announcement that stands in the head is behind the head, if it is linked.
    pub open spec fn ends_ok(self) -> bool {
        &&& self.chain.contains(self.tail)
        &&& marked(self.head) ==> self.published.contains(address(self.head))
        &&& self.chain.contains(self.head_node())
        &&& marked(self.head) && self.chain.contains(
            self.ann(address(self.head)).batch_req.first_enq,
        ) ==> self.hpos() < self.pos(self.ann(address(self.head)).batch_req.first_enq)
        &&& forall|i: int|
            self.hpos() < i < self.chain.len() ==> (#[trigger] self.node(self.chain[i])).item is Some
    }

    /// The batch that `n` announces is built and not yet added, or it stands in the list as a
    /// whole, and then the node recorded as the one before it is that node.
    pub open spec fn ann_ok(self, n: Ann) -> bool {
        let r = n.batch_req;
        &&& r.enqs_num > 0
        &&& if self.chain.contains(r.first_enq) {
            let p = self.pos(r.first_enq);
            &&& p > 0
            &&& p + r.enqs_num <= self.chain.len()
            &&& self.chain[p + r.enqs_num - 1] == r.last_enq
            &&& n.old_tail_node == 0 || n.old_tail_node == self.chain[p - 1]
        } else {
            &&& self.drafts.contains_key(r.first_enq)
            &&& self.drafts[r.first_enq].len() == r.enqs_num
            &&& self.drafts[r.first_enq].last() == r.last_enq
            &&& n.old_tail_node == 0
        }
    }

    /// Every announcement is in order, and no two of them announce the same batch.
    pub open spec fn anns_ok(self) -> bool {
        &&& forall|a: usize| #[trigger] self.published.contains(a) ==> self.is_ann(a)
        &&& forall|a: usize| self.is_ann(a) ==> self.ann_ok(#[trigger] self.ann(a))
        &&& forall|a: usize, b: usize|
            self.is_ann(a) && self.is_ann(b) && a != b ==> (#[trigger] self.ann(
                a,
            )).batch_req.first_enq != (#[trigger] self.ann(b)).batch_req.first_enq
    }

    /// What has been handed over to be freed was handed over once: nodes that the head has passed,
    /// and announcements whose batch is added and that have left the head.
    pub open spec fn retired_ok(self) -> bool {
        &&& self.retired.no_duplicates()
        &&& forall|i: int|
            0 <= i < self.retired.len() ==> {
                &&& self.chain.contains(#[trigger] self.retired[i])
                &&& self.pos(self.retired[i]) < self.hpos()
            }
        &&& self.retired_anns.no_duplicates()
        &&& forall|i: int|
            0 <= i < self.retired_anns.len() ==> {
                &&& self.published.contains(#[trigger] self.retired_anns[i])
                &&& self.ann(self.retired_anns[i]).old_tail_node != 0
                &&& self.head != mark(self.retired_anns[i])
            }
    }

    /// The nodes that can be used anew are nodes, each listed once, and are in no list.
    pub open spec fn free_ok(self) -> bool {
        &&& self.free.no_duplicates()
        &&& apart(self.chain, self.free)
        &&& forall|i: int| 0 <= i < self.free.len() ==> self.is_node(#[trigger] self.free[i])
        &&& forall|f: usize| #[trigger] self.drafts.contains_key(f) ==> apart(
            self.drafts[f],
            self.free,
        )
    }

    /// What holds of the memory at every moment.
    pub open spec fn wf(self) -> bool {
        &&& self.chain_ok()
        &&& self.drafts_ok()
        &&& self.ends_ok()
        &&& self.anns_ok()
        &&& self.retired_ok()
        &&& self.free_ok()
    }
}

} // verus!
