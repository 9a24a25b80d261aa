use json_tree::viewport::{clamp_scroll, scroll_after_down, scroll_after_up};

#[test]
fn scrolls_down_past_lower_band() {
    // height 30: lower threshold 20 + scroll
    assert_eq!(scroll_after_down(0, 25, 30, 100), 5);
    assert_eq!(scroll_after_down(0, 15, 30, 100), 0);
}

#[test]
fn scrolls_up_past_upper_band() {
    // height 30, scroll 10: upper threshold 20
    assert_eq!(scroll_after_up(10, 15, 30, 100), 5);
    assert_eq!(scroll_after_up(10, 25, 30, 100), 10);
    assert_eq!(scroll_after_up(3, 0, 30, 100), 0);
}

#[test]
fn lower_band_uses_two_thirds_of_height() {
    // height 5: lower threshold is 10 / 3 = 3, so line 3 does not scroll
    assert_eq!(scroll_after_down(0, 3, 5, 100), 0);
    assert_eq!(scroll_after_down(0, 4, 5, 100), 1);
}

#[test]
fn scroll_is_clamped_to_document() {
    assert_eq!(scroll_after_down(0, 90, 30, 40), 10);
    assert_eq!(clamp_scroll(50, 40, 30), 10);
    assert_eq!(clamp_scroll(5, 10, 30), 0);
}
