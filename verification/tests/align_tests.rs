use quallocator::align::{align_up, align_up_to};

#[test]
fn align_up_exact_values() {
    assert_eq!(align_up(0), 0);
    assert_eq!(align_up(1), 8);
    assert_eq!(align_up(7), 8);
    assert_eq!(align_up(8), 8);
    assert_eq!(align_up(9), 16);
    assert_eq!(align_up(52), 56);
    assert_eq!(align_up(i32::MAX - 7), i32::MAX - 7);
}

#[test]
fn align_up_is_idempotent_and_aligned() {
    for s in [0, 1, 5, 7, 8, 13, 52, 100, 12345] {
        let once = align_up(s);
        assert_eq!(once % 8, 0);
        assert!(s <= once && once < s + 8);
        assert_eq!(align_up(once), once);
    }
    for align in [1, 2, 4, 16, 4096] {
        for s in [0, 1, 13, 52, 4095, 4096] {
            let once = align_up_to(s, align);
            assert_eq!(once % align, 0);
            assert!(s <= once && once < s + align);
            assert_eq!(align_up_to(once, align), once);
        }
    }
}

#[test]
fn align_up_to_exact_values() {
    assert_eq!(align_up_to(13, 4), 16);
    assert_eq!(align_up_to(17, 1), 17);
    assert_eq!(align_up_to(1025, 1024), 2048);
}
