use qrs_detector::sliding::SlidingWindow;

#[test]
fn test_last_tracks_most_recent_push() {
    let mut w: SlidingWindow<i64> = SlidingWindow::new(vec![0; 3]);
    assert_eq!(w.last(), None);
    for i in 0..10i64 {
        w.push(i);
        assert_eq!(w.last(), Some(i));
    }
}

#[test]
fn test_overflowing_push_evicts_first_pushed() {
    let mut w: SlidingWindow<i64> = SlidingWindow::new(vec![0; 4]);
    assert_eq!(w.push(10), None);
    assert_eq!(w.push(11), None);
    assert_eq!(w.push(12), None);
    assert_eq!(w.push(13), None);
    // The fifth push exceeds the capacity and evicts exactly the first value.
    assert_eq!(w.push(14), Some(10));
    assert_eq!(w.push(15), Some(11));
}

#[test]
fn test_len_never_exceeds_capacity() {
    for capacity in 1..6usize {
        let mut w: SlidingWindow<i64> = SlidingWindow::new(vec![0; capacity]);
        assert_eq!(w.len(), 0);
        for i in 0..3 * capacity {
            w.push(i as i64);
            assert!(w.len() <= capacity);
            assert!(w.len() == (i + 1).min(capacity));
            assert_eq!(w.capacity(), capacity);
        }
        assert!(w.is_full());
    }
}

#[test]
fn test_clear_empties_but_keeps_capacity() {
    let mut w: SlidingWindow<i64> = SlidingWindow::new(vec![0; 2]);
    w.push(7);
    w.push(8);
    assert!(w.is_full());
    w.clear();
    assert!(w.is_empty());
    assert_eq!(w.len(), 0);
    assert_eq!(w.capacity(), 2);
    assert_eq!(w.last(), None);
    assert_eq!(w.push(9), None);
    assert_eq!(w.last(), Some(9));
}

#[test]
fn test_iter_unordered_holds_exactly_the_window() {
    let mut w: SlidingWindow<i64> = SlidingWindow::new(vec![0; 3]);
    w.push(1);
    w.push(2);
    assert_eq!(w.iter_unordered(), vec![1, 2]);
    w.push(3);
    w.push(4);
    // Storage order, not insertion order; the same multiset of elements.
    let mut items = w.iter_unordered();
    items.sort();
    assert_eq!(items, vec![2, 3, 4]);
    let total: i64 = w.iter_unordered().iter().sum();
    assert_eq!(total, 9);
}
