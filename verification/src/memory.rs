//! The shared memory as a value: nodes and announcements in arrays, with their places for
//! addresses.
use crate::node::{Ann, InternalBatchRequest, Node};
use crate::state::{lies_in, Access, State};
use crate::tag::{address, marked};
use std::mem::ManuallyDrop;
use vstd::prelude::*;

verus! {

/// The shared memory of a queue. A node does not drop the item that it carries: an item is either
/// taken out, or it is never dropped, also when the memory is.
pub struct Memory<T> {
    head: usize,
    tail: usize,
    nodes: Vec<Node<ManuallyDrop<T>>>,
    anns: Vec<Ann>,
    retired: Vec<usize>,
    retired_anns: Vec<usize>,
    free: Vec<usize>,
    chain: Ghost<Seq<usize>>,
    drafts: Ghost<Map<usize, Seq<usize>>>,
    published: Ghost<Set<usize>>,
}

/// The node `n`, as one that carries the item itself.
pub open spec fn laid_bare<T>(n: Node<ManuallyDrop<T>>) -> Node<T> {
    Node {
        item: match n.item {
            Some(item) => Some(item@),
            None => None,
        },
        next: n.next,
        count: n.count,
    }
}

impl<T> View for Memory<T> {
    type V = State<T>;

    closed spec fn view(&self) -> State<T> {
        State {
            head: self.head,
            tail: self.tail,
            nodes: self.nodes@.map_values(|n: Node<ManuallyDrop<T>>| laid_bare(n)),
            anns: self.anns@,
            retired: self.retired@,
            retired_anns: self.retired_anns@,
            free: self.free@,
            chain: self.chain@,
            drafts: self.drafts@,
            published: self.published@,
        }
    }
}

/// The place in the array of what has the address `a`.
fn slot(a: usize) -> (i: usize)
    requires
        a != 0,
        a % 2 == 0,
    ensures
        i == a / 2 - 1,
{
    a / 2 - 1
}

impl<T> Memory<T> {
    /// The memory of an empty queue.
    pub fn new() -> (m: Self)
        ensures
            m@ == State::<T>::initial(),
    {
        let mut nodes: Vec<Node<ManuallyDrop<T>>> = Vec::new();
        nodes.push(Node::empty());
        let ghost chain = seq![2usize];
        let m = Memory {
            head: 2,
            tail: 2,
            nodes,
            anns: Vec::new(),
            retired: Vec::new(),
            retired_anns: Vec::new(),
            free: Vec::new(),
            chain: Ghost(chain),
            drafts: Ghost(Map::empty()),
            published: Ghost(Set::empty()),
        };
        assert(m@ =~= State::<T>::initial());
        m
    }

    /// Makes `access` and hands back the word that it observed. An item that it takes is dropped.
    pub fn perform(&mut self, access: Access) -> (seen: usize)
        requires
            old(self)@.allows(access),
        ensures
            final(self)@ == old(self)@.after(access),
            seen == old(self)@.seen(access),
    {
        match access {
            Access::LoadHead => self.head,
            Access::ConfirmHead { .. } => self.head,
            Access::CasHead { current, new } => {
                let seen: usize = self.head;
                if seen == current {
                    self.head = new;
                    proof {
                        if marked(new) {
                            self.published@ = self.published@.insert(address(new));
                        }
                    }
                }
                seen
            },
            Access::LoadTail => self.tail,
            Access::CasTail { current, new } => {
                let seen: usize = self.tail;
                if seen == current {
                    self.tail = new;
                }
                seen
            },
            Access::LoadNext { node } => self.nodes[slot(node)].next,
            Access::CasNext { node, new } => {
                let seen: usize = self.nodes[slot(node)].next;
                if seen == 0 {
                    self.nodes[slot(node)].next = new;
                    proof {
                        if node == self.chain@.last() && self.drafts@.contains_key(new) {
                            self.chain@ = self.chain@ + self.drafts@[new];
                            self.drafts@ = self.drafts@.remove(new);
                        }
                    }
                }
                assert(self@ =~= old(self)@.after(access));
                seen
            },
            Access::LoadCount { node } => self.nodes[slot(node)].count,
            Access::StoreCount { node, count } => {
                self.nodes[slot(node)].count = count;
                assert(self@ =~= old(self)@.after(access));
                0
            },
            Access::LoadFirst { ann } => self.anns[slot(ann)].batch_req.first_enq,
            Access::LoadLast { ann } => self.anns[slot(ann)].batch_req.last_enq,
            Access::LoadNum { ann } => self.anns[slot(ann)].batch_req.enqs_num,
            Access::LoadOldHead { ann } => self.anns[slot(ann)].old_head_node,
            Access::SetOldHead { ann, head, count } => {
                let i: usize = slot(ann);
                self.anns[i].old_head_node = head;
                self.anns[i].old_head_count = count;
                0
            },
            Access::LoadOldTail { ann } => self.anns[slot(ann)].old_tail_node,
            Access::CasOldTail { ann, new } => {
                let seen: usize = self.anns[slot(ann)].old_tail_node;
                if seen == 0 {
                    self.anns[slot(ann)].old_tail_node = new;
                }
                seen
            },
            Access::LoadOldTailCount { ann } => self.anns[slot(ann)].old_tail_count,
            Access::CasOldTailCount { ann, new } => {
                let seen: usize = self.anns[slot(ann)].old_tail_count;
                if seen == 0 {
                    self.anns[slot(ann)].old_tail_count = new;
                }
                seen
            },
            Access::TakeItem { node } => {
                let _ = self.take_item(node);
                0
            },
            Access::Retire { node } => {
                self.retired.push(node);
                0
            },
            Access::RetireAnn { ann } => {
                self.retired_anns.push(ann);
                0
            },
            Access::Rest => 0,
        }
    }

    /// Takes the item out of `node`.
    pub fn take_item(&mut self, node: usize) -> (item: Option<T>)
        requires
            old(self)@.is_node(node),
        ensures
            final(self)@ == old(self)@.after(Access::TakeItem { node }),
            item == old(self)@.node(node).item,
    {
        let i: usize = slot(node);
        let item = self.nodes[i].item.take();
        assert(self@ =~= old(self)@.after(Access::TakeItem { node }));
        match item {
            Some(item) => Some(ManuallyDrop::into_inner(item)),
            None => None,
        }
    }

    /// Builds a node with `item` and hands back its address.
    pub fn build(&mut self, item: T) -> (node: usize)
        requires
            old(self)@.has_room(),
            old(self)@.wf(),
        ensures
            final(self)@ == old(self)@.built(item),
            node == old(self)@.fresh(),
    {
        match self.free.pop() {
            Some(node) => {
                assert(lies_in(old(self)@.nodes, node));
                self.nodes[slot(node)] = Node::new(ManuallyDrop::new(item));
                let ghost alone = seq![node];
                self.drafts = Ghost(self.drafts@.insert(node, alone));
                assert(self@ =~= old(self)@.built(item));
                node
            },
            None => {
                let node: usize = 2 * self.nodes.len() + 2;
                self.nodes.push(Node::new(ManuallyDrop::new(item)));
                let ghost alone = seq![node];
                self.drafts = Ghost(self.drafts@.insert(node, alone));
                assert(self@ =~= old(self)@.built(item));
                node
            },
        }
    }

    /// Links the list that starts at `new` behind the one that starts at `first` and ends at `last`.
    /// Neither of them is part of the queue.
    pub fn join(&mut self, first: usize, last: usize, new: usize)
        requires
            old(self)@.is_node(last),
        ensures
            final(self)@ == old(self)@.joined(first, last, new),
    {
        self.nodes[slot(last)].next = new;
        self.drafts = Ghost(
            self.drafts@.insert(first, self.drafts@[first] + self.drafts@[new]).remove(new),
        );
        assert(self@ =~= old(self)@.joined(first, last, new));
    }

    /// Writes an announcement of `batch_req` and hands back its address.
    pub fn announce(&mut self, batch_req: InternalBatchRequest) -> (ann: usize)
        requires
            2 * old(self)@.anns.len() + 2 <= usize::MAX,
        ensures
            final(self)@ == old(self)@.announcing(batch_req),
            ann == old(self)@.fresh_ann(),
    {
        let ann: usize = 2 * self.anns.len() + 2;
        self.anns.push(Ann::new(batch_req));
        assert(self@ =~= old(self)@.announcing(batch_req));
        ann
    }

    /// Frees the nodes that were handed over to be freed, and all announcements, those included that
    /// were not handed over. No operation may be under way.
    pub fn reclaim(&mut self)
        ensures
            final(self)@ == old(self)@.reclaimed(),
    {
        self.chain = Ghost(self.chain@.skip(self@.hpos()));
        self.published = Ghost(Set::empty());
        self.free.append(&mut self.retired);
        self.retired_anns.clear();
        self.anns.clear();
        assert(self@ =~= old(self)@.reclaimed());
    }
}

} // verus!
