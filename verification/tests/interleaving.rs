use bqueue::dequeue::Dequeue;
use bqueue::dequeue_batch::{DequeueBatch, DequeueBatchStage};
use bqueue::enqueue::{Enqueue, EnqueueStage};
use bqueue::enqueue_batch::{EnqueueBatch, EnqueueBatchStage};
use bqueue::execute_ann::{AnnStage, ExecuteAnn};
use bqueue::help_head::HelpHead;
use bqueue::memory::Memory;
use bqueue::node::InternalBatchRequest;
use bqueue::state::Access;

fn step_enqueue(memory: &mut Memory<u32>, op: &mut Enqueue) {
    *op = op.next(memory.perform(op.access()));
}

fn finish_enqueue(memory: &mut Memory<u32>, op: &mut Enqueue) {
    while !op.is_done() {
        step_enqueue(memory, op);
    }
}

fn step_enqueue_batch(memory: &mut Memory<u32>, op: &mut EnqueueBatch) {
    *op = op.next(memory.perform(op.access()));
}

fn finish_enqueue_batch(memory: &mut Memory<u32>, op: &mut EnqueueBatch) {
    while !op.is_done() {
        step_enqueue_batch(memory, op);
    }
}

fn step_dequeue(memory: &mut Memory<u32>, op: &mut Dequeue) {
    *op = op.next(memory.perform(op.access()));
}

fn finish_dequeue(memory: &mut Memory<u32>, op: &mut Dequeue) -> Option<u32> {
    while !op.is_over() {
        step_dequeue(memory, op);
    }
    match *op {
        Dequeue::Take { node } => memory.take_item(node),
        _ => None,
    }
}

fn finish_dequeue_batch(memory: &mut Memory<u32>, op: &mut DequeueBatch) -> Vec<Option<u32>> {
    let mut results = Vec::new();
    while !op.is_done() {
        match op.at {
            DequeueBatchStage::Take { next, .. } => {
                results.push(memory.take_item(next));
                *op = op.next(0);
            }
            _ => *op = op.next(memory.perform(op.access())),
        }
    }
    results
}

fn enqueue(memory: &mut Memory<u32>, item: u32) -> Enqueue {
    Enqueue::new(memory.build(item))
}

fn enqueue_batch(memory: &mut Memory<u32>, items: Vec<u32>) -> EnqueueBatch {
    let mut first_enq = 0;
    let mut last_enq = 0;
    let enqs_num = items.len();
    for item in items {
        let node = memory.build(item);
        if first_enq == 0 {
            first_enq = node;
        } else {
            memory.join(first_enq, last_enq, node);
        }
        last_enq = node;
    }
    EnqueueBatch::new(memory.announce(InternalBatchRequest {
        first_enq,
        last_enq,
        enqs_num,
    }))
}

fn drain(memory: &mut Memory<u32>) -> Vec<u32> {
    let mut items = Vec::new();
    loop {
        match finish_dequeue(memory, &mut Dequeue::new()) {
            Some(item) => items.push(item),
            None => return items,
        }
    }
}

#[test]
fn of_two_that_add_at_once_the_second_goes_behind_the_first() {
    let mut memory = Memory::new();
    let mut a = enqueue(&mut memory, 1);
    let mut b = enqueue(&mut memory, 2);
    step_enqueue(&mut memory, &mut a);
    step_enqueue(&mut memory, &mut b);
    step_enqueue(&mut memory, &mut a);
    assert!(matches!(a.at, EnqueueStage::SwingTail { .. }));
    step_enqueue(&mut memory, &mut b);
    assert!(matches!(b.at, EnqueueStage::Head { .. }));
    step_enqueue(&mut memory, &mut b);
    assert!(matches!(b.at, EnqueueStage::AdvanceTail { .. }));
    finish_enqueue(&mut memory, &mut b);
    finish_enqueue(&mut memory, &mut a);
    assert_eq!(drain(&mut memory), vec![1, 2]);
}

#[test]
fn an_item_is_in_the_queue_once_its_node_is_linked() {
    let mut memory = Memory::new();
    let mut a = enqueue(&mut memory, 1);
    step_enqueue(&mut memory, &mut a);
    assert_eq!(drain(&mut memory), vec![]);
    step_enqueue(&mut memory, &mut a);
    assert_eq!(drain(&mut memory), vec![1]);
    finish_enqueue(&mut memory, &mut a);
    assert_eq!(drain(&mut memory), vec![]);
}

#[test]
fn of_two_that_take_at_once_each_gets_an_item_of_its_own() {
    let mut memory = Memory::new();
    let mut one = enqueue(&mut memory, 1);
    finish_enqueue(&mut memory, &mut one);
    let mut two = enqueue(&mut memory, 2);
    finish_enqueue(&mut memory, &mut two);
    let mut a = Dequeue::new();
    let mut b = Dequeue::new();
    while !matches!(a, Dequeue::Advance { .. }) {
        step_dequeue(&mut memory, &mut a);
    }
    while !matches!(b, Dequeue::Advance { .. }) {
        step_dequeue(&mut memory, &mut b);
    }
    step_dequeue(&mut memory, &mut b);
    assert!(matches!(b, Dequeue::Retire { .. }));
    step_dequeue(&mut memory, &mut a);
    assert!(matches!(a, Dequeue::Help { help: HelpHead::Load }));
    assert_eq!(finish_dequeue(&mut memory, &mut a), Some(2));
    assert_eq!(finish_dequeue(&mut memory, &mut b), Some(1));
    assert_eq!(finish_dequeue(&mut memory, &mut Dequeue::new()), None);
}

#[test]
fn a_batch_that_lost_the_race_for_the_head_starts_again() {
    let mut memory = Memory::new();
    let mut batch = enqueue_batch(&mut memory, vec![1, 2, 3]);
    finish_enqueue_batch(&mut memory, &mut batch);
    let mut a = DequeueBatch::new(2);
    while !matches!(a.at, DequeueBatchStage::Advance { .. }) {
        a = a.next(memory.perform(a.access()));
    }
    assert_eq!(finish_dequeue(&mut memory, &mut Dequeue::new()), Some(1));
    assert_eq!(finish_dequeue_batch(&mut memory, &mut a), vec![Some(2), Some(3)]);
    assert_eq!(drain(&mut memory), vec![]);
}

#[test]
fn a_batch_enters_the_queue_as_a_whole() {
    let mut memory = Memory::new();
    let mut batch = enqueue_batch(&mut memory, vec![1, 2, 3]);
    loop {
        if let EnqueueBatchStage::Execute { run, .. } = batch.at {
            if matches!(run.at, AnnStage::Link { .. }) {
                break;
            }
        }
        step_enqueue_batch(&mut memory, &mut batch);
    }
    let mut nine = enqueue(&mut memory, 9);
    finish_enqueue(&mut memory, &mut nine);
    finish_enqueue_batch(&mut memory, &mut batch);
    assert_eq!(drain(&mut memory), vec![9, 1, 2, 3]);
}

#[test]
fn one_that_adds_an_item_helps_with_the_batch_in_its_way() {
    let mut memory = Memory::new();
    let mut batch = enqueue_batch(&mut memory, vec![1, 2]);
    loop {
        if let EnqueueBatchStage::Execute { run, .. } = batch.at {
            if matches!(run.at, AnnStage::RecordTail { .. }) {
                break;
            }
        }
        step_enqueue_batch(&mut memory, &mut batch);
    }
    let mut three = enqueue(&mut memory, 3);
    let mut helped = false;
    while !three.is_done() {
        helped = helped || matches!(three.at, EnqueueStage::Help { .. });
        step_enqueue(&mut memory, &mut three);
    }
    assert!(helped);
    finish_enqueue_batch(&mut memory, &mut batch);
    assert_eq!(drain(&mut memory), vec![1, 2, 3]);
}

#[test]
fn one_that_takes_an_item_carries_out_the_announcement_in_the_head() {
    let mut memory = Memory::new();
    let mut batch = enqueue_batch(&mut memory, vec![5, 6]);
    while !matches!(batch.at, EnqueueBatchStage::Execute { .. }) {
        step_enqueue_batch(&mut memory, &mut batch);
    }
    assert_eq!(finish_dequeue(&mut memory, &mut Dequeue::new()), Some(5));
    assert_eq!(finish_dequeue(&mut memory, &mut Dequeue::new()), Some(6));
}

#[test]
fn one_thread_on_its_own_carries_out_an_announcement_that_was_left_in_the_head() {
    let mut memory = Memory::new();
    let old_head = memory.perform(Access::LoadHead);
    let mut one = enqueue(&mut memory, 1);
    while !matches!(one.at, EnqueueStage::SwingTail { .. }) {
        step_enqueue(&mut memory, &mut one);
    }
    let mut batch = enqueue_batch(&mut memory, vec![2, 3]);
    while !matches!(batch.at, EnqueueBatchStage::Execute { .. }) {
        step_enqueue_batch(&mut memory, &mut batch);
    }
    assert_ne!(memory.perform(Access::LoadHead), old_head);
    let mut helper = ExecuteAnn::new(batch.ann);
    let mut accesses = 0;
    while !matches!(helper.at, AnnStage::Done) {
        helper = helper.next(memory.perform(helper.access()));
        accesses += 1;
    }
    assert_eq!(accesses, 22);
    assert_eq!(memory.perform(Access::LoadHead), old_head);
    assert_eq!(
        memory.perform(Access::LoadTail),
        memory.perform(Access::LoadLast { ann: batch.ann })
    );
    assert_eq!(drain(&mut memory), vec![1, 2, 3]);
}

#[test]
fn a_late_thread_puts_back_a_node_that_the_head_has_left_behind() {
    let mut memory = Memory::new();
    let old_head = memory.perform(Access::LoadHead);
    let mut batch = enqueue_batch(&mut memory, vec![5, 6]);
    while !matches!(batch.at, EnqueueBatchStage::Execute { .. }) {
        step_enqueue_batch(&mut memory, &mut batch);
    }
    assert_eq!(finish_dequeue(&mut memory, &mut Dequeue::new()), Some(5));
    assert_ne!(memory.perform(Access::LoadHead), old_head);
    finish_enqueue_batch(&mut memory, &mut batch);
    assert_eq!(memory.perform(Access::LoadHead), old_head);
}

#[test]
fn a_late_thread_links_a_batch_behind_itself() {
    let mut memory = Memory::new();
    let mut batch = enqueue_batch(&mut memory, vec![5, 6]);
    while !matches!(batch.at, EnqueueBatchStage::Execute { .. }) {
        step_enqueue_batch(&mut memory, &mut batch);
    }
    let mut late = ExecuteAnn::new(batch.ann);
    late = late.next(memory.perform(late.access()));
    assert!(matches!(late.at, AnnStage::Tail));
    finish_enqueue_batch(&mut memory, &mut batch);
    let last = memory.perform(Access::LoadLast { ann: batch.ann });
    let first = memory.perform(Access::LoadFirst { ann: batch.ann });
    assert_eq!(memory.perform(Access::LoadNext { node: last }), 0);
    while !matches!(late.at, AnnStage::RecordTail { .. }) {
        late = late.next(memory.perform(late.access()));
    }
    assert_eq!(memory.perform(Access::LoadNext { node: last }), first);
}

#[test]
fn a_batch_counts_its_items_on_top_of_those_before_it() {
    let mut memory = Memory::new();
    let mut a = enqueue_batch(&mut memory, vec![1, 2, 3]);
    finish_enqueue_batch(&mut memory, &mut a);
    let last = memory.perform(Access::LoadTail);
    assert_eq!(memory.perform(Access::LoadCount { node: last }), 3);
    let mut b = enqueue_batch(&mut memory, vec![4, 5]);
    finish_enqueue_batch(&mut memory, &mut b);
    let last = memory.perform(Access::LoadTail);
    assert_eq!(memory.perform(Access::LoadCount { node: last }), 5);
    let mut c = enqueue(&mut memory, 6);
    finish_enqueue(&mut memory, &mut c);
    let last = memory.perform(Access::LoadTail);
    assert_eq!(memory.perform(Access::LoadCount { node: last }), 0);
}

#[test]
fn a_batch_that_takes_counts_what_it_took() {
    let mut memory = Memory::new();
    let mut a = enqueue_batch(&mut memory, vec![1, 2, 3]);
    finish_enqueue_batch(&mut memory, &mut a);
    let mut b = DequeueBatch::new(2);
    assert_eq!(finish_dequeue_batch(&mut memory, &mut b), vec![Some(1), Some(2)]);
    let head = memory.perform(Access::LoadHead);
    assert_eq!(memory.perform(Access::LoadCount { node: head }), 2);
}

#[test]
fn an_announcement_says_what_became_of_it() {
    let mut memory = Memory::new();
    let head = memory.perform(Access::LoadHead);
    let tail = memory.perform(Access::LoadTail);
    let mut a = enqueue_batch(&mut memory, vec![1, 2]);
    let ann = a.ann;
    assert_eq!(memory.perform(Access::LoadOldTail { ann }), 0);
    finish_enqueue_batch(&mut memory, &mut a);
    assert_eq!(a.old_head(), head);
    assert_eq!(memory.perform(Access::LoadOldHead { ann }), head);
    assert_eq!(memory.perform(Access::LoadOldTail { ann }), tail);
    assert_eq!(memory.perform(Access::LoadOldTailCount { ann }), 0);
    assert_eq!(memory.perform(Access::LoadNum { ann }), 2);
}

#[test]
fn a_batch_of_at_most_none_moves_nothing() {
    let mut memory = Memory::new();
    let mut a = enqueue(&mut memory, 1);
    finish_enqueue(&mut memory, &mut a);
    let mut b = DequeueBatch::new(0);
    assert_eq!(finish_dequeue_batch(&mut memory, &mut b), vec![]);
    assert_eq!(drain(&mut memory), vec![1]);
}

#[test]
fn freed_nodes_are_used_anew() {
    let mut memory = Memory::new();
    let mut a = enqueue(&mut memory, 1);
    finish_enqueue(&mut memory, &mut a);
    let old_head = memory.perform(Access::LoadHead);
    assert_eq!(finish_dequeue(&mut memory, &mut Dequeue::new()), Some(1));
    memory.reclaim();
    assert_eq!(memory.build(2), old_head);
}

fn announced(memory: &mut Memory<u32>, items: Vec<u32>) -> EnqueueBatch {
    let mut batch = enqueue_batch(memory, items);
    while !matches!(batch.at, EnqueueBatchStage::Execute { .. }) {
        step_enqueue_batch(memory, &mut batch);
    }
    batch
}

#[test]
fn carrying_out_an_announcement_a_second_time_changes_nothing() {
    let mut memory = Memory::new();
    let batch = announced(&mut memory, vec![1, 2]);
    let mut seen = Vec::new();
    for _ in 0..2 {
        let mut helper = ExecuteAnn::new(batch.ann);
        while !matches!(helper.at, AnnStage::Done) {
            helper = helper.next(memory.perform(helper.access()));
        }
        let last = memory.perform(Access::LoadLast { ann: batch.ann });
        seen.push((
            memory.perform(Access::LoadHead),
            memory.perform(Access::LoadTail),
            memory.perform(Access::LoadCount { node: last }),
            memory.perform(Access::LoadNext { node: last }),
            memory.perform(Access::LoadOldTail { ann: batch.ann }),
        ));
    }
    assert_eq!(seen[0], seen[1]);
    assert_eq!(drain(&mut memory), vec![1, 2]);
}

#[test]
fn whoever_looks_for_the_head_carries_out_the_announcement_there() {
    let mut memory = Memory::new();
    let old_head = memory.perform(Access::LoadHead);
    let batch = announced(&mut memory, vec![1, 2]);
    let mut help = HelpHead::Load;
    while !matches!(help, HelpHead::Done { .. }) {
        help = help.next(memory.perform(help.access()));
    }
    assert!(matches!(help, HelpHead::Done { node } if node == old_head));
    assert_eq!(
        memory.perform(Access::LoadTail),
        memory.perform(Access::LoadLast { ann: batch.ann })
    );
    assert_eq!(drain(&mut memory), vec![1, 2]);
}

#[test]
fn one_that_adds_an_item_at_the_end_leaves_the_announcement_standing() {
    let mut memory = Memory::new();
    let batch = announced(&mut memory, vec![1, 2]);
    let word = memory.perform(Access::LoadHead);
    let mut zero = enqueue(&mut memory, 0);
    finish_enqueue(&mut memory, &mut zero);
    assert_eq!(memory.perform(Access::LoadHead), word);
    assert_eq!(memory.perform(Access::LoadOldTail { ann: batch.ann }), 0);
    assert_eq!(drain(&mut memory), vec![0, 1, 2]);
}

#[test]
fn one_that_adds_an_item_moves_a_tail_that_lags_to_the_end() {
    let mut memory = Memory::new();
    for item in 1..4 {
        let mut op = enqueue(&mut memory, item);
        while !matches!(op.at, EnqueueStage::SwingTail { .. }) {
            step_enqueue(&mut memory, &mut op);
        }
    }
    let mut four = enqueue(&mut memory, 4);
    finish_enqueue(&mut memory, &mut four);
    assert_eq!(memory.perform(Access::LoadTail), four.node);
    assert_eq!(drain(&mut memory), vec![1, 2, 3, 4]);
}

#[test]
fn a_batch_goes_behind_one_that_is_announced_already() {
    let mut memory = Memory::new();
    let mut zero = enqueue(&mut memory, 0);
    finish_enqueue(&mut memory, &mut zero);
    let old_head = memory.perform(Access::LoadHead);
    announced(&mut memory, vec![1, 2]);
    let mut batch = enqueue_batch(&mut memory, vec![3, 4]);
    finish_enqueue_batch(&mut memory, &mut batch);
    assert_eq!(batch.old_head(), old_head);
    assert_eq!(memory.perform(Access::LoadHead), old_head);
    assert_eq!(
        memory.perform(Access::LoadTail),
        memory.perform(Access::LoadLast { ann: batch.ann })
    );
    assert_eq!(drain(&mut memory), vec![0, 1, 2, 3, 4]);
}

#[test]
fn one_that_takes_a_batch_takes_from_the_announced_one_too() {
    let mut memory = Memory::new();
    let mut zero = enqueue(&mut memory, 0);
    finish_enqueue(&mut memory, &mut zero);
    announced(&mut memory, vec![1, 2, 3]);
    let results = finish_dequeue_batch(&mut memory, &mut DequeueBatch::new(3));
    assert_eq!(results, vec![Some(0), Some(1), Some(2)]);
    assert_eq!(drain(&mut memory), vec![3]);
}

#[test]
fn lists_that_threads_add_at_once_keep_their_order() {
    let mut memory = Memory::new();
    let mut todo = vec![vec![1, 2, 3], vec![11, 12], vec![21, 22, 23, 24]];
    let mut ops: Vec<Option<Enqueue>> = vec![None, None, None];
    let mut turn = 1usize;
    while todo.iter().any(|list| !list.is_empty()) || ops.iter().any(|op| op.is_some()) {
        turn = (turn * 5 + 3) % 97;
        let i = turn % 3;
        match ops[i] {
            None => {
                if !todo[i].is_empty() {
                    let item = todo[i].remove(0);
                    ops[i] = Some(enqueue(&mut memory, item));
                }
            }
            Some(mut op) => {
                step_enqueue(&mut memory, &mut op);
                ops[i] = if op.is_done() { None } else { Some(op) };
            }
        }
    }
    let items = drain(&mut memory);
    assert_eq!(items.len(), 9);
    for (low, list) in [(0, vec![1, 2, 3]), (10, vec![11, 12]), (20, vec![21, 22, 23, 24])] {
        let own: Vec<u32> =
            items.iter().copied().filter(|item| low < *item && *item < low + 10).collect();
        assert_eq!(own, list);
    }
}

#[test]
fn batches_and_single_items_enter_as_a_whole_and_once_while_others_take() {
    let mut memory = Memory::new();
    let mut batch = enqueue_batch(&mut memory, vec![1, 2, 3]);
    let mut other = enqueue_batch(&mut memory, vec![11, 12]);
    let mut single = enqueue(&mut memory, 21);
    let mut taken = Vec::new();
    while !matches!(batch.at, EnqueueBatchStage::Execute { .. }) {
        step_enqueue_batch(&mut memory, &mut batch);
    }
    finish_enqueue_batch(&mut memory, &mut batch);
    while !(other.is_done() && single.is_done()) {
        if !other.is_done() {
            step_enqueue_batch(&mut memory, &mut other);
        }
        if !single.is_done() {
            step_enqueue(&mut memory, &mut single);
        }
        if taken.is_empty() {
            taken.extend(finish_dequeue(&mut memory, &mut Dequeue::new()));
        }
    }
    taken.extend(drain(&mut memory));
    assert_eq!(taken.len(), 6);
    assert_eq!(taken[..3], [1, 2, 3]);
    assert!(taken[3..] == [11, 12, 21] || taken[3..] == [21, 11, 12]);
}

#[test]
fn an_announcement_that_moved_on_is_not_taken_up() {
    let mut memory = Memory::new();
    let mut batch = announced(&mut memory, vec![1, 2]);
    let mut help = HelpHead::Load;
    help = help.next(memory.perform(help.access()));
    assert!(matches!(help, HelpHead::Confirm { .. }));
    finish_enqueue_batch(&mut memory, &mut batch);
    help = help.next(memory.perform(help.access()));
    assert!(matches!(help, HelpHead::Load));
}

#[test]
fn single_operations_go_on_after_a_batch_was_added() {
    let mut memory = Memory::new();
    let mut batch = enqueue_batch(&mut memory, vec![1, 2]);
    finish_enqueue_batch(&mut memory, &mut batch);
    let mut three = enqueue(&mut memory, 3);
    let mut four = enqueue(&mut memory, 4);
    let mut take = Dequeue::new();
    while !(three.is_done() && four.is_done() && take.is_over()) {
        for op in [&mut three, &mut four] {
            if !op.is_done() {
                step_enqueue(&mut memory, op);
            }
        }
        if !take.is_over() {
            step_dequeue(&mut memory, &mut take);
        }
    }
    assert_eq!(finish_dequeue(&mut memory, &mut take), Some(1));
    let items = drain(&mut memory);
    assert_eq!(items[0], 2);
    assert!(items[1..] == [3, 4] || items[1..] == [4, 3]);
}
