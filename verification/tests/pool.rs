use engine_metal::experts::pool::{Hold, Pool, NONE};

#[test]
fn the_pool_evicts_least_recently_used_first() {
    let mut pool = Pool::new(3);
    // Never-used seats go first, in order.
    assert_eq!(pool.victim(), Some(0));
    pool.bump(0);
    assert_eq!(pool.victim(), Some(1));
    pool.bump(1);
    assert_eq!(pool.victim(), Some(2));
    pool.bump(2);
    // Now the list decides: 0 is the oldest.
    assert_eq!(pool.victim(), Some(0));
    pool.bump(0);
    assert_eq!(pool.victim(), Some(1));
    // A held head is skipped.
    pool.hold(1, Hold::Segment);
    assert_eq!(pool.victim(), Some(2));
    pool.hold(2, Hold::Segment);
    pool.hold(0, Hold::Segment);
    assert_eq!(pool.victim(), None);
    // Unlinking the tail and the middle keeps the list whole.
    pool.release(Hold::Segment);
    pool.unlink(0);
    pool.unlink(2);
    assert_eq!(pool.head, 1);
    assert_eq!(pool.tail, 1);
    pool.unlink(1);
    assert_eq!(pool.head, NONE);
    assert_eq!(pool.tail, NONE);
}

#[test]
fn a_seat_pushed_to_the_front_goes_next() {
    let mut pool = Pool::new(3);
    for seat in 0..3 {
        assert_eq!(pool.victim(), Some(seat));
        pool.bump(seat);
    }
    pool.unlink(2);
    pool.push_front(2);
    assert_eq!(pool.head, 2);
    assert_eq!(pool.tail, 1);
    assert_eq!(pool.victim(), Some(2));
}

#[test]
fn a_stripped_seat_is_empty_and_free() {
    let mut pool = Pool::new(2);
    assert_eq!(pool.victim(), Some(0));
    pool.bump(0);
    assert_eq!(pool.victim(), Some(1));
    pool.bump(1);
    pool.sit(1, Some((0, 7)));
    pool.hold(1, Hold::Fire);
    assert_eq!(pool.resident(), 1);
    pool.strip(1);
    assert_eq!(pool.resident(), 0);
    assert_eq!(pool.in_seat, vec![None, None]);
    assert_eq!(pool.holds, vec![Hold::Free, Hold::Free]);
    assert_eq!(pool.victim(), Some(1));
}

#[test]
fn releasing_one_hold_leaves_the_others() {
    let mut pool = Pool::new(3);
    pool.hold(0, Hold::Segment);
    pool.hold(1, Hold::Inflight);
    pool.hold(2, Hold::Fire);
    pool.release(Hold::Inflight);
    assert_eq!(pool.holds, vec![Hold::Segment, Hold::Free, Hold::Fire]);
    pool.clear();
    assert_eq!(pool.holds, vec![Hold::Free; 3]);
}

#[test]
fn a_pool_without_seats_has_no_victim() {
    let mut pool = Pool::new(0);
    assert_eq!(pool.victim(), None);
    assert_eq!(pool.resident(), 0);
}
