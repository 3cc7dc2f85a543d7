//! Event policy for a tray popover. The anchor is handled on mouse-up only.

use vstd::prelude::*;

verus! {

/// Where a mouse-down landed.
#[derive(Debug, Clone, Copy, PartialEq, Eq, Structural)]
pub enum ClickTarget {
    Popover,
    TrayIcon,
    Elsewhere,
}

/// A mouse-down closes the popover only when it is shown and the click
/// landed outside both the popover and its tray icon; the tray icon's own
/// mouse-up toggles it.
pub fn dismiss_on_mouse_down(shown: bool, target: ClickTarget) -> (dismiss: bool)
    ensures
        dismiss == (shown && target == ClickTarget::Elsewhere),
{
    shown && target == ClickTarget::Elsewhere
}

/// The virtual key code of the Escape key.
pub const ESCAPE_KEY_CODE: u16 = 53;

/// A key press closes the popover only when it is shown and the key is
/// Escape; the press is then consumed.
pub fn closes_on_key_down(shown: bool, key_code: u16) -> (close: bool)
    ensures
        close == (shown && key_code == ESCAPE_KEY_CODE),
{
    shown && key_code == ESCAPE_KEY_CODE
}

} // verus!
