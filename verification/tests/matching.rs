use bits::matching::{OpMatch, OpMatchCount, OpMatchItem};
use std::cmp::Ordering;

#[test]
fn exact_scores_end_exact() {
    let mut m = OpMatch::begin();
    m.set_output(OpMatchItem::Exact);
    m.add_input(OpMatchItem::Exact);
    m.add_input(OpMatchItem::Exact);
    assert!(matches!(m.end(), OpMatch::Exact));

    let mut m = OpMatch::begin();
    m.set_output(OpMatchItem::Exact);
    m.add_input(OpMatchItem::Convertible);
    assert!(matches!(m.end(), OpMatch::Score { .. }));

    let mut m = OpMatch::begin();
    m.fail();
    m.add_input(OpMatchItem::Exact);
    assert!(matches!(m.end(), OpMatch::Nothing));
}

#[test]
fn counts_compare_best_first() {
    let mut a = OpMatchCount::new();
    let mut b = OpMatchCount::new();
    a.add(OpMatchItem::Exact);
    b.add(OpMatchItem::Compatible);
    assert_eq!(a.get(OpMatchItem::Exact), 1);
    assert!(a.is_exact());
    assert!(!b.is_exact());
    assert_ne!(a.compare(&b), Ordering::Equal);
    assert_eq!(a.compare(&a), Ordering::Equal);
    b.add_ignored();
    assert_eq!(b.get(OpMatchItem::Any), 1);
}
