//! A FIFO queue with single and batch operations, laid out as a linked list that threads share.
//!
//! An operation on the queue is a sequence of accesses to shared memory, each of which depends on
//! what the ones before it observed. The modules [`enqueue`], [`dequeue`], [`enqueue_batch`] and
//! [`dequeue_batch`], with [`help_head`] and [`execute_ann`] beneath them, decide which access
//! comes next; [`state`] says what an access does, [`moves`] what it leaves alone, [`interleaving`]
//! what holds when operations of many threads are under way at once, [`lists`] what enters the
//! queue then, [`endings`] what an operation has done or seen when it is over, [`protection`] what
//! it may rely on, and [`threads`] what comes of threads that add items one by one. [`helping`] and
//! [`outcomes`] say what one thread achieves when the others stand still, and [`progress`] that it
//! does so wherever they left it. [`memory`] is the shared memory as a value, [`queue`] runs the
//! operations on it, one after the other, and [`laws`] says what follows for calls in a row.
#![allow(unused_imports)]

pub mod dequeue;
pub mod dequeue_batch;
pub mod endings;
pub mod enqueue;
pub mod enqueue_batch;
pub mod execute_ann;
pub mod help_head;
pub mod helping;
pub mod interleaving;
pub mod laws;
pub mod lists;
pub mod memory;
pub mod moves;
pub mod node;
pub mod outcomes;
pub mod progress;
pub mod protection;
pub mod queue;
mod solo;
pub mod state;
pub mod tag;
pub mod threads;

pub use queue::BQueue;
