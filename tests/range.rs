use logmap::range::Range;

#[test]
fn range_new_keeps_bounds() {
    let r = Range::new(3, 7);
    assert_eq!(r.start(), 3);
    assert_eq!(r.end(), 7);
    assert_eq!(r.len(), 4);
    assert!(!r.is_empty());
}

#[test]
fn range_zero_is_empty() {
    let r = Range::zero(5);
    assert_eq!(r.start(), 5);
    assert_eq!(r.end(), 5);
    assert_eq!(r.len(), 0);
    assert!(r.is_empty());
}

#[test]
fn range_offset_moves_both_bounds() {
    let r = Range::new(2, 4).offset(10);
    assert_eq!(r, Range::new(12, 14));
}

#[test]
fn range_try_new_rejects_reversed_bounds() {
    assert_eq!(Range::try_new(5, 4), None);
    assert_eq!(Range::try_new(4, 4), Some(Range::zero(4)));
    assert_eq!(Range::try_new(0, 9), Some(Range::new(0, 9)));
}

#[test]
fn range_checked_offset_rejects_overflow() {
    let r = Range::new(1, 2);
    assert_eq!(r.checked_offset(usize::MAX), None);
    assert_eq!(r.checked_offset(usize::MAX - 2), Some(Range::new(usize::MAX - 1, usize::MAX)));
    assert_eq!(Range::zero(usize::MAX).checked_offset(1), None);
}
