use bits::binding::{BoundSegment, BoundValue, PatternBindings};
use bits::Precedence;

fn value(sta: usize, end: usize) -> BoundValue {
    BoundValue { sta, end, ord: Precedence::OpAdd }
}

fn seg(sta: usize, end: usize, val: usize) -> BoundSegment {
    BoundSegment { sta, end, val, queued: true }
}

#[test]
fn contains_range_of_value() {
    let v = value(2, 8);
    assert!(v.contains_range(2, 8));
    assert!(v.contains_range(3, 5));
    assert!(!v.contains_range(1, 5));
    assert!(!v.contains_range(8, 8));
    assert!(!v.contains_range(5, 9));
}

#[test]
fn bind_fills_and_splits() {
    let mut b = PatternBindings::new();
    b.bind(value(0, 10));
    assert_eq!(b.segments(), &[seg(0, 10, 0)][..]);

    // a narrower binding inside a wider one takes its part
    b.bind(value(2, 5));
    assert_eq!(b.segments(), &[seg(0, 2, 0), seg(2, 5, 1), seg(5, 10, 0)][..]);

    // a binding that reaches past a value's range does not replace it
    b.bind(value(8, 15));
    assert_eq!(b.segments(), &[seg(0, 2, 0), seg(2, 5, 1), seg(5, 10, 0), seg(10, 15, 2)][..]);

    b.bind(value(3, 4));
    assert_eq!(
        b.segments(),
        &[seg(0, 2, 0), seg(2, 3, 1), seg(3, 4, 3), seg(4, 5, 1), seg(5, 10, 0), seg(10, 15, 2)][..]
    );
    assert_eq!(b.values().len(), 4);
}

#[test]
fn bind_empty_range_does_nothing() {
    let mut b = PatternBindings::new();
    b.bind(value(4, 4));
    b.bind(value(5, 2));
    assert!(b.segments().is_empty());
    assert!(b.values().is_empty());
}

#[test]
fn bind_fills_gaps_between_segments() {
    let mut b = PatternBindings::new();
    b.bind(value(2, 4));
    b.bind(value(6, 8));
    // covers both and the gaps around them; neither value holds 0..10
    b.bind(value(0, 10));
    assert_eq!(
        b.segments(),
        &[seg(0, 2, 2), seg(2, 4, 0), seg(4, 6, 2), seg(6, 8, 1), seg(8, 10, 2)][..]
    );
    // the same range again replaces the segments of the value that holds it
    b.bind(value(0, 10));
    assert_eq!(
        b.segments(),
        &[seg(0, 2, 3), seg(2, 4, 0), seg(4, 6, 3), seg(6, 8, 1), seg(8, 10, 3)][..]
    );
}
