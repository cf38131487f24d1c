use atrl_core::prng::{accept_draw, accept_draw_u64};

#[test]
fn accepted_draws_fall_in_buckets() {
    // max 1: two buckets of 2147483647 draws each
    assert_eq!(accept_draw(0, 1), Some(0));
    assert_eq!(accept_draw(2147483646, 1), Some(0));
    assert_eq!(accept_draw(2147483647, 1), Some(1));
    assert_eq!(accept_draw(4294967293, 1), Some(1));
    assert_eq!(accept_draw(4294967294, 1), None);
    assert_eq!(accept_draw(u32::MAX, 1), None);
}

#[test]
fn accepted_draws_stay_in_range() {
    for max in [1u32, 2, 5, 9, 1000, u32::MAX - 1] {
        for x in [0u32, 1, 12345, 99999999, u32::MAX / 2, u32::MAX - 7, u32::MAX] {
            if let Some(v) = accept_draw(x, max) {
                assert!(v <= max);
            }
        }
    }
    assert_eq!(accept_draw(7, u32::MAX), None);
}

#[test]
fn accepted_u64_draws() {
    assert_eq!(accept_draw_u64(0, 2), Some(0));
    assert_eq!(accept_draw_u64(u64::MAX / 3, 2), Some(1));
    assert_eq!(accept_draw_u64(u64::MAX, 2), None);
    assert_eq!(accept_draw_u64(10, u64::MAX), None);
}
