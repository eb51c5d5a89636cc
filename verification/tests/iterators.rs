use crust::cursor::{Cursor, MapCursor, RangeCursor, VecCursor};
use crust::flatten::{flatten, IteratorExt};

#[test]
fn empty() {
    assert_eq!(flatten(Vec::<Vec<()>>::new()).count(), 0)
}

#[test]
fn empty_wide() {
    assert_eq!(flatten(vec![Vec::<()>::new(), vec![], vec![]]).count(), 0);
}

#[test]
fn one() {
    assert_eq!(flatten(vec![vec!["a"]]).count(), 1)
}

#[test]
fn two() {
    assert_eq!(flatten(vec![vec!["a", "b"]]).count(), 2)
}

#[test]
fn two_wide() {
    assert_eq!(flatten(vec![vec!["a"], vec!["b"]]).count(), 2)
}

#[test]
fn reverse() {
    assert_eq!(flatten(vec![vec!["a", "b"]]).collect_rev(), vec!["b", "a"])
}

#[test]
fn reverse_wide() {
    assert_eq!(flatten(vec![vec!["a"], vec!["b"]]).collect_rev(), vec!["b", "a"])
}

#[test]
fn both_ends() {
    let mut iter = flatten(vec![vec!["a", "b"], vec!["c", "d"]]);
    assert_eq!(iter.next(), Some("a"));
    assert_eq!(iter.next_back(), Some("d"));
    assert_eq!(iter.next(), Some("b"));
    assert_eq!(iter.next_back(), Some("c"));
    assert_eq!(iter.next(), None);
    assert_eq!(iter.next_back(), None)
}

#[test]
fn inf() {
    let mut iter = flatten(MapCursor::new(RangeCursor::new(0, u64::MAX), |i| RangeCursor::new(0, i)));
    assert_eq!(iter.next(), Some(0));
    assert_eq!(iter.next(), Some(0));
    assert_eq!(iter.next(), Some(1));
}

#[test]
fn deep() {
    assert_eq!(flatten(flatten(vec![vec![vec![0, 1]]])).count(), 2)
}

#[test]
fn ext() {
    let iter = VecCursor::new(vec![vec![1, 2], vec![], vec![3]]).our_flatten();
    assert_eq!(iter.collect_vec(), vec![1, 2, 3]);
}

#[test]
fn forward_collects_in_order() {
    let iter = flatten(vec![vec![1, 2, 3], vec![], vec![4], vec![5, 6]]);
    assert_eq!(iter.collect_vec(), vec![1, 2, 3, 4, 5, 6]);
}

#[test]
fn ends_meet_in_one_inner() {
    let mut iter = flatten(vec![vec![1, 2, 3]]);
    assert_eq!(iter.next_back(), Some(3));
    assert_eq!(iter.next(), Some(1));
    assert_eq!(iter.next_back(), Some(2));
    assert_eq!(iter.next(), None);
    assert_eq!(iter.next_back(), None);
}

#[test]
fn back_then_front_across_empty_inners() {
    let mut iter = flatten(vec![vec![], vec![7], vec![], vec![8], vec![]]);
    assert_eq!(iter.next_back(), Some(8));
    assert_eq!(iter.next_back(), Some(7));
    assert_eq!(iter.next(), None);
}

#[test]
fn vec_cursor_both_ends() {
    let mut c = VecCursor::new(vec![10, 20, 30]);
    assert_eq!(c.next(), Some(10));
    assert_eq!(c.next_back(), Some(30));
    assert_eq!(c.count(), 1);
}

#[test]
fn range_and_map_cursors() {
    let mut r = RangeCursor::new(3, 6);
    assert_eq!(r.next_back(), Some(5));
    assert_eq!(r.collect_vec(), vec![3, 4]);
    assert_eq!(RangeCursor::new(6, 3).count(), 0);
    let doubled = MapCursor::new(RangeCursor::new(0, 4), |x| x * 2);
    assert_eq!(doubled.collect_rev(), vec![6, 4, 2, 0]);
}

#[test]
fn outer_is_read_only_as_far_as_needed() {
    let calls = std::cell::Cell::new(0u32);
    let mut iter = flatten(MapCursor::new(RangeCursor::new(0, 5), |i| {
        calls.set(calls.get() + 1);
        RangeCursor::new(0, i)
    }));
    assert_eq!(iter.next(), Some(0));
    assert_eq!(calls.get(), 2);
    assert_eq!(iter.next(), Some(0));
    assert_eq!(calls.get(), 3);
    assert_eq!(iter.next(), Some(1));
    assert_eq!(calls.get(), 3);
    assert_eq!(iter.next_back(), Some(3));
    assert_eq!(calls.get(), 4);
    assert_eq!(iter.next_back(), Some(2));
    assert_eq!(calls.get(), 4);
}
