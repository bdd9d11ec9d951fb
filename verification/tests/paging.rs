use physmem::paging::{align_down, align_up, BASE_PAGE_SIZE};

#[test]
fn base_page_size_is_four_kibibytes() {
    assert_eq!(BASE_PAGE_SIZE, 4096);
}

#[test]
fn align_down_keeps_multiples() {
    assert_eq!(align_down(0, 0x1000), 0);
    assert_eq!(align_down(0x3000, 0x1000), 0x3000);
}

#[test]
fn align_down_rounds_towards_zero() {
    assert_eq!(align_down(0x3001, 0x1000), 0x3000);
    assert_eq!(align_down(0x3fff, 0x1000), 0x3000);
    assert_eq!(align_down(0xfff, 0x1000), 0);
}

#[test]
fn align_down_takes_any_positive_alignment() {
    assert_eq!(align_down(10, 3), 9);
    assert_eq!(align_down(9, 3), 9);
    assert_eq!(align_down(2, 3), 0);
    assert_eq!(align_down(77, 1), 77);
}

#[test]
fn align_up_keeps_multiples() {
    assert_eq!(align_up(0, 0x1000), Some(0));
    assert_eq!(align_up(0x3000, 0x1000), Some(0x3000));
}

#[test]
fn align_up_rounds_away_from_zero() {
    assert_eq!(align_up(1, 0x1000), Some(0x1000));
    assert_eq!(align_up(0x3001, 0x1000), Some(0x4000));
    assert_eq!(align_up(0x3fff, 0x1000), Some(0x4000));
}

#[test]
fn align_up_takes_any_positive_alignment() {
    assert_eq!(align_up(10, 3), Some(12));
    assert_eq!(align_up(12, 3), Some(12));
    assert_eq!(align_up(77, 1), Some(77));
}

#[test]
fn align_up_reports_overflow() {
    assert_eq!(align_up(usize::MAX, 0x1000), None);
    assert_eq!(align_up(usize::MAX - 0xffe, 0x1000), None);
    assert_eq!(align_up(usize::MAX - 0xfff, 0x1000), Some(usize::MAX - 0xfff));
}
