# prtoolbar

A macOS menu bar app that lists your open GitHub pull requests, with their
status, their review participants and their native stacks.

The decisions the app makes are a library verified with Verus; the AppKit
window, the network, the clock and the image drawing are a thin program
around it.

| Path | What |
|---|---|
| `src/model.rs` | Domain types, the status rule, merging of participants, the snapshot the UI shows. |
| `src/github.rs` | The decoded GraphQL response and its mapping into pull requests; HTTP status messages. |
| `src/tree.rs` | The repository/stack table: its ordering, and the laws that it lists each PR once and each group once. |
| `src/outline.rs` | Keys, parentage, titles, labels, heading and footer of the outline view; which groups a refresh expands; the laws that keys are unique and parents come first. |
| `src/menu.rs` | Tray tooltip and truncation. |
| `src/auth.rs` | Choosing a token. |
| `src/avatars.rs` | Which avatar URLs to download, and the avatar cache. |
| `src/worker.rs` | The refresh interval, the avatar URLs of a refresh, and the refresh loop's next step. |
| `src/dismissal.rs` | Outside-click policy of the popover. |
| `src/text.rs`, `src/order.rs`, `src/count.rs` | Strings, byte order of repository names, counting. |
| `tests/` | Tests of the library. |
| `app/` | `main`, AppKit, HTTP, token lookup through `gh`, image decoding and drawing. |
