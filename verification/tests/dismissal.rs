use prtoolbar::dismissal::{closes_on_key_down, dismiss_on_mouse_down, ClickTarget};

#[test]
fn outside_click_closes_even_when_the_popover_never_gained_focus() {
    assert!(dismiss_on_mouse_down(true, ClickTarget::Elsewhere));
    assert!(!dismiss_on_mouse_down(false, ClickTarget::Elsewhere));
}

#[test]
fn anchor_mouse_down_must_not_close_before_the_mouse_up_toggle() {
    assert!(!dismiss_on_mouse_down(true, ClickTarget::TrayIcon));
    // Visibility remains true until the button action toggles it to false.
    assert!(!dismiss_on_mouse_down(true, ClickTarget::Popover));
}

#[test]
fn a_hidden_popover_is_never_dismissed() {
    assert!(!dismiss_on_mouse_down(false, ClickTarget::TrayIcon));
    assert!(!dismiss_on_mouse_down(false, ClickTarget::Popover));
}

#[test]
fn escape_closes_a_shown_popover_and_other_keys_do_not() {
    assert!(closes_on_key_down(true, 53));
    assert!(!closes_on_key_down(false, 53));
    assert!(!closes_on_key_down(true, 36));
}
