use bqueue::dequeue_batch::filled_up;
use bqueue::node::{Ann, InternalBatchRequest, Node};
use bqueue::tag::{get_ann_ptr, get_node_ptr, is_ann, tag_ann, untag, ANN_TAG};

#[test]
fn a_tagged_address_is_told_apart_and_given_back() {
    for ann in vec![2usize, 4, 4096, usize::MAX - 1] {
        let word = tag_ann(ann);
        assert_eq!(word, ann + ANN_TAG);
        assert!(is_ann(word));
        assert!(!is_ann(ann));
        assert_eq!(untag(word), ann);
        assert_eq!(get_ann_ptr(word), ann);
        assert_eq!(get_node_ptr(ann), ann);
    }
}

#[test]
fn tagging_twice_is_tagging_once() {
    assert_eq!(tag_ann(tag_ann(8)), tag_ann(8));
    assert_eq!(untag(8), 8);
    assert_eq!(untag(0), 0);
    assert!(!is_ann(0));
}

#[test]
fn a_new_node_is_linked_to_nothing() {
    let node = Node::new(5u32);
    assert_eq!(node.item, Some(5));
    assert_eq!(node.next, 0);
    assert_eq!(node.count, 0);
    let node: Node<u32> = Node::empty();
    assert_eq!(node.item, None);
    assert_eq!(node.next, 0);
    assert_eq!(node.count, 0);
}

#[test]
fn a_new_announcement_has_nothing_noted_down() {
    let ann = Ann::new(InternalBatchRequest {
        first_enq: 4,
        last_enq: 8,
        enqs_num: 3,
    });
    assert_eq!(ann.batch_req.first_enq, 4);
    assert_eq!(ann.batch_req.last_enq, 8);
    assert_eq!(ann.batch_req.enqs_num, 3);
    assert_eq!(ann.old_head_node, 0);
    assert_eq!(ann.old_head_count, 0);
    assert_eq!(ann.old_tail_node, 0);
    assert_eq!(ann.old_tail_count, 0);
}

#[test]
fn a_node_of_a_batch_is_linked_behind_the_one_before_it() {
    let mut batch_req = InternalBatchRequest::empty();
    assert_eq!(batch_req.append(6), 0);
    assert_eq!(batch_req.append(2), 6);
    assert_eq!(batch_req.append(4), 2);
    assert_eq!(
        (batch_req.first_enq, batch_req.last_enq, batch_req.enqs_num),
        (6, 4, 3)
    );
}

#[test]
fn results_are_filled_up_to_the_number_asked_for() {
    assert_eq!(filled_up(vec![Some(1), Some(2)], 4), vec![Some(1), Some(2), None, None]);
    assert_eq!(filled_up(vec![Some(1)], 1), vec![Some(1)]);
    assert_eq!(filled_up(Vec::<Option<u8>>::new(), 2), vec![None, None]);
}
