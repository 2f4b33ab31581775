use flatdir::queue::{BoundedQueue, Offer, Take, DEFAULT_CAPACITY};

#[test]
fn queue_hands_items_out_in_the_order_put_in() {
    let mut q: BoundedQueue<u32> = BoundedQueue::new(4);
    assert!(matches!(q.offer(1), Offer::Accepted));
    assert!(matches!(q.offer(2), Offer::Accepted));
    assert!(matches!(q.offer(3), Offer::Accepted));
    assert!(matches!(q.take(), Take::Item(1)));
    assert!(matches!(q.offer(4), Offer::Accepted));
    assert!(matches!(q.take(), Take::Item(2)));
    assert!(matches!(q.take(), Take::Item(3)));
    assert!(matches!(q.take(), Take::Item(4)));
    assert!(matches!(q.take(), Take::Empty));
}

#[test]
fn queue_refuses_what_it_has_no_room_for() {
    let mut q: BoundedQueue<u32> = BoundedQueue::new(2);
    assert!(matches!(q.offer(1), Offer::Accepted));
    assert!(matches!(q.offer(2), Offer::Accepted));
    assert_eq!(q.len(), 2);
    assert!(matches!(q.offer(3), Offer::Full(3)));
    assert_eq!(q.len(), 2);
    assert!(matches!(q.take(), Take::Item(1)));
    assert!(matches!(q.offer(3), Offer::Accepted));
    assert!(matches!(q.take(), Take::Item(2)));
    assert!(matches!(q.take(), Take::Item(3)));
}

#[test]
fn queue_can_be_drained_after_it_is_closed() {
    let mut q: BoundedQueue<u32> = BoundedQueue::new(2);
    assert!(matches!(q.offer(7), Offer::Accepted));
    q.close();
    assert!(matches!(q.take(), Take::Item(7)));
    assert!(matches!(q.take(), Take::Finished));
    assert!(matches!(q.take(), Take::Finished));
}

#[test]
fn queue_is_empty_but_not_finished_while_open() {
    let mut q: BoundedQueue<u32> = BoundedQueue::new(1);
    assert!(matches!(q.take(), Take::Empty));
    q.close();
    assert!(matches!(q.take(), Take::Finished));
}

#[test]
fn queue_refuses_every_offer_once_disconnected() {
    let mut q: BoundedQueue<u32> = BoundedQueue::new(3);
    assert!(matches!(q.offer(1), Offer::Accepted));
    q.disconnect();
    assert_eq!(q.len(), 0);
    assert!(matches!(q.offer(2), Offer::Disconnected(2)));
    assert!(matches!(q.offer(3), Offer::Disconnected(3)));
}

#[test]
fn queue_with_room_for_one_alternates() {
    let mut q: BoundedQueue<u32> = BoundedQueue::new(1);
    for i in 0..10u32 {
        assert!(matches!(q.offer(i), Offer::Accepted));
        assert!(matches!(q.offer(i + 100), Offer::Full(_)));
        match q.take() {
            Take::Item(got) => assert_eq!(got, i),
            _ => panic!("an item was waiting"),
        }
    }
}

#[test]
fn default_capacity_is_generous() {
    assert_eq!(DEFAULT_CAPACITY, 1024);
    let mut q: BoundedQueue<usize> = BoundedQueue::new(DEFAULT_CAPACITY);
    for i in 0..DEFAULT_CAPACITY {
        assert!(matches!(q.offer(i), Offer::Accepted));
    }
    assert!(matches!(q.offer(0), Offer::Full(0)));
}
