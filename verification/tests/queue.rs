use bqueue::BQueue;
use std::sync::Arc;

#[test]
fn new_queue_is_empty() {
    let mut q: BQueue<u32> = BQueue::new();
    assert_eq!(q.dequeue(), None);
    assert_eq!(q.dequeue(), None);
}

#[test]
fn items_come_out_in_the_order_they_went_in() {
    let mut q = BQueue::new();
    for i in 0..10u32 {
        q.enqueue(i);
    }
    for i in 0..10u32 {
        assert_eq!(q.dequeue(), Some(i));
    }
    assert_eq!(q.dequeue(), None);
}

#[test]
fn a_new_item_waits_behind_the_others() {
    let mut q = BQueue::new();
    q.enqueue("a");
    q.enqueue("b");
    assert_eq!(q.dequeue(), Some("a"));
    q.enqueue("c");
    assert_eq!(q.dequeue(), Some("b"));
    assert_eq!(q.dequeue(), Some("c"));
    assert_eq!(q.dequeue(), None);
}

#[test]
fn a_queue_can_be_filled_and_emptied_again_and_again() {
    let mut q = BQueue::new();
    for round in 0..100u64 {
        q.enqueue(round);
        q.enqueue_batch(vec![round + 1, round + 2]);
        assert_eq!(q.dequeue(), Some(round));
        assert_eq!(q.dequeue_batch(2), vec![Some(round + 1), Some(round + 2)]);
        assert_eq!(q.dequeue(), None);
    }
}

#[test]
fn a_batch_goes_in_as_its_items_one_by_one() {
    let mut batch = BQueue::new();
    let mut singles = BQueue::new();
    batch.enqueue(7u8);
    singles.enqueue(7u8);
    batch.enqueue_batch(vec![1, 2, 3]);
    for i in vec![1u8, 2, 3] {
        singles.enqueue(i);
    }
    for _ in 0..5 {
        assert_eq!(batch.dequeue(), singles.dequeue());
    }
}

#[test]
fn a_batch_comes_out_as_its_items_one_by_one() {
    let mut batch = BQueue::new();
    let mut singles = BQueue::new();
    for i in 0..4u8 {
        batch.enqueue(i);
        singles.enqueue(i);
    }
    let mut one_by_one = Vec::new();
    for _ in 0..3 {
        one_by_one.push(singles.dequeue());
    }
    assert_eq!(batch.dequeue_batch(3), one_by_one);
    assert_eq!(batch.dequeue(), Some(3));
    assert_eq!(singles.dequeue(), Some(3));
}

#[test]
fn an_empty_batch_changes_nothing() {
    let mut q = BQueue::new();
    q.enqueue(1u32);
    q.enqueue_batch(Vec::new());
    assert_eq!(q.dequeue_batch(2), vec![Some(1), None]);
}

#[test]
fn a_batch_of_none_takes_nothing() {
    let mut q = BQueue::new();
    q.enqueue(1u32);
    assert_eq!(q.dequeue_batch(0), Vec::new());
    assert_eq!(q.dequeue(), Some(1));
}

#[test]
fn a_batch_from_an_empty_queue_is_all_none() {
    let mut q: BQueue<u32> = BQueue::new();
    assert_eq!(q.dequeue_batch(3), vec![None, None, None]);
}

#[test]
fn a_batch_is_filled_up_with_none() {
    let mut q = BQueue::new();
    q.enqueue_batch(vec![1u32, 2]);
    assert_eq!(q.dequeue_batch(4), vec![Some(1), Some(2), None, None]);
    assert_eq!(q.dequeue(), None);
}

#[test]
fn a_batch_leaves_what_it_was_not_asked_for() {
    let mut q = BQueue::new();
    q.enqueue_batch(vec![1u32, 2, 3, 4, 5]);
    assert_eq!(q.dequeue_batch(2), vec![Some(1), Some(2)]);
    assert_eq!(q.dequeue(), Some(3));
    assert_eq!(q.dequeue_batch(2), vec![Some(4), Some(5)]);
    assert_eq!(q.dequeue_batch(1), vec![None]);
}

#[test]
fn what_a_batch_brought_in_a_batch_takes_out() {
    let mut q = BQueue::new();
    let items: Vec<String> = vec!["x".to_string(), "y".to_string(), "z".to_string()];
    q.enqueue_batch(items.clone());
    let out: Vec<Option<String>> = q.dequeue_batch(5);
    assert_eq!(out.len(), 5);
    for i in 0..3 {
        assert_eq!(out[i], Some(items[i].clone()));
    }
    assert_eq!(out[3], None);
    assert_eq!(out[4], None);
    assert_eq!(q.dequeue(), None);
}

#[test]
fn single_and_batch_operations_mix() {
    let mut q = BQueue::new();
    q.enqueue(1u32);
    q.enqueue_batch(vec![2, 3]);
    q.enqueue(4);
    q.enqueue_batch(vec![5]);
    assert_eq!(q.dequeue(), Some(1));
    assert_eq!(q.dequeue_batch(3), vec![Some(2), Some(3), Some(4)]);
    assert_eq!(q.dequeue(), Some(5));
    assert_eq!(q.dequeue(), None);
}

#[test]
fn what_went_in_is_what_came_out_and_what_is_left() {
    let mut q = BQueue::new();
    let mut went_in = Vec::new();
    let mut came_out = Vec::new();
    let mut next = 0u32;
    for round in 0..40u32 {
        match round % 4 {
            0 => {
                q.enqueue(next);
                went_in.push(next);
                next += 1;
            }
            1 => {
                let items = vec![next, next + 1, next + 2];
                went_in.extend(items.clone());
                q.enqueue_batch(items);
                next += 3;
            }
            2 => came_out.extend(q.dequeue()),
            _ => came_out.extend(q.dequeue_batch(2).into_iter().flatten()),
        }
    }
    assert_eq!(came_out.len(), 30);
    while let Some(item) = q.dequeue() {
        came_out.push(item);
    }
    assert_eq!(came_out, went_in);
}

#[test]
fn on_a_queue_with_an_item_adding_and_taking_commute() {
    let mut add_first = BQueue::new();
    let mut take_first = BQueue::new();
    add_first.enqueue(1u8);
    take_first.enqueue(1u8);
    add_first.enqueue(2);
    assert_eq!(add_first.dequeue(), Some(1));
    assert_eq!(take_first.dequeue(), Some(1));
    take_first.enqueue(2);
    assert_eq!(add_first.dequeue_batch(2), vec![Some(2), None]);
    assert_eq!(take_first.dequeue_batch(2), vec![Some(2), None]);
}

#[test]
fn a_batch_may_be_cut_in_two_on_its_way_in() {
    for cut in 0..=4usize {
        let mut whole = BQueue::new();
        let mut parts = BQueue::new();
        whole.enqueue_batch(vec![1u8, 2, 3, 4]);
        let (front, back) = (&[1u8, 2, 3, 4]).split_at(cut);
        parts.enqueue_batch(front.to_vec());
        parts.enqueue_batch(back.to_vec());
        assert_eq!(whole.dequeue_batch(5), parts.dequeue_batch(5));
    }
}

#[test]
fn queues_have_nothing_to_do_with_each_other() {
    let mut one = BQueue::new();
    let mut other = BQueue::new();
    one.enqueue(1u8);
    other.enqueue_batch(vec![7u8, 8]);
    assert_eq!(one.dequeue(), Some(1));
    assert_eq!(one.dequeue(), None);
    one.enqueue_batch(vec![2, 3]);
    assert_eq!(other.dequeue_batch(3), vec![Some(7), Some(8), None]);
    assert_eq!(one.dequeue(), Some(2));
}

#[test]
fn items_left_in_a_queue_are_not_dropped_with_it() {
    let item = Arc::new(5u8);
    let mut q = BQueue::new();
    q.enqueue(item.clone());
    q.enqueue_batch(vec![item.clone(), item.clone()]);
    assert_eq!(Arc::strong_count(&item), 4);
    drop(q.dequeue());
    assert_eq!(Arc::strong_count(&item), 3);
    drop(q);
    assert_eq!(Arc::strong_count(&item), 3);
}

#[test]
fn items_that_were_taken_are_dropped_once() {
    let item = Arc::new(5u8);
    let mut q = BQueue::new();
    for _ in 0..3 {
        q.enqueue_batch(vec![item.clone(), item.clone(), item.clone()]);
        q.enqueue(item.clone());
        let results = q.dequeue_batch(5);
        assert_eq!(results.iter().flatten().count(), 4);
        assert_eq!(Arc::strong_count(&item), 5);
        drop(results);
        assert_eq!(Arc::strong_count(&item), 1);
    }
    drop(q);
    assert_eq!(Arc::strong_count(&item), 1);
}
