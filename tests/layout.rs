use logmap::layout::{LayoutError, MapLayout};

#[test]
fn layout_aligns_offset_down() {
    let l = MapLayout::plan(4097, 10, 4096).unwrap();
    assert_eq!(l.len, 10);
    assert_eq!(l.delta, 1);
    assert_eq!(l.aligned_offset, 4096);
    assert_eq!(l.aligned_len, 11);
    assert_eq!(l.release_len(), 11);
}

#[test]
fn layout_aligned_offset_has_no_delta() {
    let l = MapLayout::plan(8192, 3, 4096).unwrap();
    assert_eq!(l.delta, 0);
    assert_eq!(l.aligned_offset, 8192);
    assert_eq!(l.aligned_len, 3);
}

#[test]
fn layout_release_undoes_view() {
    let l = MapLayout::plan(65541, 100, 65536).unwrap();
    assert_eq!(l.delta, 5);
    let base = 0x7000_0000usize;
    let view = l.view_start(base);
    assert_eq!(view, base + 5);
    assert_eq!(l.release_base(view), base);
}

#[test]
fn layout_rejects_zero_length() {
    assert_eq!(MapLayout::plan(0, 0, 4096), Err(LayoutError::ZeroLength));
    assert_eq!(MapLayout::plan(4096, 0, 4096), Err(LayoutError::ZeroLength));
    assert!(MapLayout::plan(1, 0, 4096).is_ok());
}

#[test]
fn layout_rejects_overflowing_length() {
    assert_eq!(MapLayout::plan(1, usize::MAX, 4096), Err(LayoutError::TooLong));
    assert!(MapLayout::plan(0, usize::MAX, 4096).is_ok());
}
