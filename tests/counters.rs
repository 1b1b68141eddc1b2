use lisp::counters::{LimitedIterator, WrappingIterator};

#[test]
fn limited_iter() {
    let mut i = LimitedIterator::new(4);
    assert_eq!(Some(0), i.next());
    assert_eq!(Some(1), i.next());
    assert_eq!(Some(2), i.next());
    assert_eq!(Some(3), i.next());
    assert_eq!(None, i.next());
    assert_eq!(None, i.next());
}

#[test]
fn wrapping_iter() {
    let mut i = WrappingIterator::new(4);
    assert_eq!(Some(0), i.next());
    assert_eq!(Some(1), i.next());
    assert_eq!(Some(2), i.next());
    assert_eq!(Some(3), i.next());

    assert_eq!(Some(0), i.next());
    assert_eq!(Some(1), i.next());
    assert_eq!(Some(2), i.next());
    assert_eq!(Some(3), i.next());

    assert_eq!(Some(0), i.next());
    assert_eq!(Some(1), i.next());
    assert_eq!(Some(2), i.next());
    assert_eq!(Some(3), i.next());
}

#[test]
fn limited_iter_with_zero_limit_is_empty() {
    let mut i = LimitedIterator::new(0);
    assert_eq!(None, i.next());
}

#[test]
fn wrapping_iter_of_one_repeats_zero() {
    let mut i = WrappingIterator::new(1);
    assert_eq!(Some(0), i.next());
    assert_eq!(Some(0), i.next());
}

#[test]
fn wrapping_iter_with_negative_limit() {
    let mut i = WrappingIterator::new(-3);
    assert_eq!(Some(0), i.next());
    assert_eq!(Some(1), i.next());
    assert_eq!(Some(2), i.next());
    assert_eq!(Some(0), i.next());
}
