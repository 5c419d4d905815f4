//! What the shared memory holds: the nodes of the list and the announcements of batches.
use vstd::prelude::*;

verus! {

/// A node of the list. The first node of the list is a dummy: what it held has been taken.
pub struct Node<T> {
    /// What the node carries, until it is taken.
    pub item: Option<T>,
    /// The address of the node after this one, or 0.
    pub next: usize,
    /// How many operations batches had counted when they last passed this node.
    pub count: usize,
}

impl<T> Node<T> {
    /// A node that carries `item` and is linked to nothing.
    pub fn new(item: T) -> (node: Self)
        ensures
            node == (Node { item: Some(item), next: 0, count: 0 }),
    {
        Node { item: Some(item), next: 0, count: 0 }
    }

    /// A node that carries nothing and is linked to nothing.
    pub fn empty() -> (node: Self)
        ensures
            node == (Node::<T> { item: None, next: 0, count: 0 }),
    {
        Node { item: None, next: 0, count: 0 }
    }
}

/// A list of nodes that is to be added to the queue as a whole.
#[derive(Clone, Copy)]
pub struct InternalBatchRequest {
    /// The address of the first node.
    pub first_enq: usize,
    /// The address of the last node.
    pub last_enq: usize,
    /// The number of nodes.
    pub enqs_num: usize,
}

impl InternalBatchRequest {
    /// A list without nodes.
    pub fn empty() -> (r: Self)
        ensures
            r == (InternalBatchRequest { first_enq: 0, last_enq: 0, enqs_num: 0 }),
    {
        InternalBatchRequest { first_enq: 0, last_enq: 0, enqs_num: 0 }
    }

    /// Puts `node` at the end of the list. Hands back the node that it is to be linked behind, or 0
    /// if it is the first one.
    pub fn append(&mut self, node: usize) -> (behind: usize)
        requires
            old(self).enqs_num < usize::MAX,
        ensures
            final(self).first_enq == if old(self).first_enq == 0 {
                node
            } else {
                old(self).first_enq
            },
            final(self).last_enq == node,
            final(self).enqs_num == old(self).enqs_num + 1,
            behind == if old(self).first_enq == 0 {
                0
            } else {
                old(self).last_enq
            },
    {
        let mut behind: usize = 0;
        if self.first_enq == 0 {
            self.first_enq = node;
        } else {
            behind = self.last_enq;
        }
        self.last_enq = node;
        self.enqs_num = self.enqs_num + 1;
        behind
    }
}

/// The announcement of a batch. While its marked address stands in the head of the queue, whoever
/// comes across it helps to carry it out.
#[derive(Clone, Copy)]
pub struct Ann {
    /// What is to be added.
    pub batch_req: InternalBatchRequest,
    /// The node that stood in the head before the announcement took its place.
    pub old_head_node: usize,
    /// The count of that node.
    pub old_head_count: usize,
    /// The node that the batch was linked behind, or 0 while none is recorded.
    pub old_tail_node: usize,
    /// The count of that node.
    pub old_tail_count: usize,
}

impl Ann {
    /// An announcement of `batch_req` that nothing has been done about.
    pub fn new(batch_req: InternalBatchRequest) -> (ann: Self)
        ensures
            ann == Ann::pending(batch_req),
    {
        Ann {
            batch_req,
            old_head_node: 0,
            old_head_count: 0,
            old_tail_node: 0,
            old_tail_count: 0,
        }
    }

    /// An announcement of `batch_req` that nothing has been done about.
    pub open spec fn pending(batch_req: InternalBatchRequest) -> Self {
        Ann {
            batch_req,
            old_head_node: 0,
            old_head_count: 0,
            old_tail_node: 0,
            old_tail_count: 0,
        }
    }
}

} // verus!
