//! Text helpers for the tray title and error messages. The app has one popup.

use vstd::prelude::*;
use crate::github::opt_string_view;
use crate::model::Snapshot;
use crate::text::{decimal, push_char, push_decimal};

verus! {

/// The PR count part of the tooltip: `shown` PRs on screen out of `total`.
pub open spec fn count_text(shown: nat, total: nat) -> Seq<char> {
    if shown == 0 {
        "No open pull requests"@
    } else if shown == 1 && total == 1 {
        "1 open pull request"@
    } else if total > shown {
        decimal(shown) + " of "@ + decimal(total) + " open pull requests"@
    } else {
        decimal(shown) + " open pull requests"@
    }
}

/// The tooltip: the last error if there is one, a loading note before the
/// first success, and otherwise the count and the time of the last update.
pub open spec fn tooltip_text(
    shown: nat,
    total: nat,
    updated_at: Option<Seq<char>>,
    error: Option<Seq<char>>,
) -> Seq<char> {
    match error {
        Some(e) => "Refresh failed: "@ + e,
        None => match updated_at {
            None => "Loading pull requests…"@,
            Some(u) => count_text(shown, total) + " · Updated "@ + u,
        },
    }
}

/// Hover text for the menu bar icon.
///
/// The menu bar shows the glyph alone — no count, no badge — so this is the
/// only place the numbers appear outside the popup.
pub fn tray_tooltip(snapshot: &Snapshot) -> (text: String)
    ensures
        text@ == tooltip_text(
            snapshot.prs@.len(),
            snapshot.total as nat,
            opt_string_view(snapshot.updated_at),
            opt_string_view(snapshot.error),
        ),
{
    match &snapshot.error {
        Some(error) => {
            let mut text = String::from_str("Refresh failed: ");
            text.append(error.as_str());
            return text;
        },
        None => {},
    }
    let updated = match &snapshot.updated_at {
        Some(u) => u,
        None => {
            return String::from_str("Loading pull requests…");
        },
    };
    let shown = snapshot.prs.len();
    let total = snapshot.total;
    let mut text = if shown == 0 {
        String::from_str("No open pull requests")
    } else if shown == 1 && total == 1 {
        String::from_str("1 open pull request")
    } else if total > shown {
        let mut t = String::new();
        push_decimal(&mut t, shown as u64);
        t.append(" of ");
        push_decimal(&mut t, total as u64);
        t.append(" open pull requests");
        t
    } else {
        let mut t = String::new();
        push_decimal(&mut t, shown as u64);
        t.append(" open pull requests");
        t
    };
    assert(text@ == count_text(shown as nat, total as nat));
    text.append(" · Updated ");
    text.append(updated.as_str());
    text
}

/// The longest refresh error kept for display, in characters.
pub const MAX_ERROR_CHARS: usize = 100;

/// `text` cut to at most `max_chars` characters, the last one an ellipsis
/// when something was cut.
pub open spec fn truncated(text: Seq<char>, max_chars: nat) -> Seq<char> {
    if text.len() <= max_chars {
        text
    } else {
        text.take(max_chars - 1).push('…')
    }
}

/// Truncation never exceeds the limit, keeps text that fits unchanged, and
/// keeps a prefix of what it cuts.
pub proof fn lemma_truncated_fits(text: Seq<char>, max_chars: nat)
    requires
        max_chars >= 1,
    ensures
        truncated(text, max_chars).len() <= max_chars,
        text.len() <= max_chars ==> truncated(text, max_chars) == text,
        text.len() > max_chars ==> truncated(text, max_chars).take(max_chars - 1) == text.take(
            max_chars - 1,
        ),
{
    if text.len() > max_chars {
        assert(truncated(text, max_chars).take(max_chars - 1) =~= text.take(max_chars - 1));
    }
}

/// Shorten `text` to `max_chars` characters, counting Unicode scalar values.
pub fn truncate(text: &str, max_chars: usize) -> (out: String)
    requires
        text@.len() <= max_chars || max_chars >= 1,
    ensures
        out@ == truncated(text@, max_chars as nat),
{
    let n = text.unicode_len();
    if n <= max_chars {
        return String::from_str(text);
    }
    let mut out = String::from_str(text.substring_char(0, max_chars - 1));
    push_char(&mut out, '…');
    assert(text@.subrange(0, max_chars - 1) =~= text@.take(max_chars - 1));
    out
}

} // verus!
