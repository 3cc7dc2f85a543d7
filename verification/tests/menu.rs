use prtoolbar::menu::{tray_tooltip, truncate};
use prtoolbar::model::{
    CiState, PullRequest, ReviewDecision, ReviewState, Reviewer, Snapshot,
};

/// The two pull requests of the recorded search response.
fn two_prs() -> Vec<PullRequest> {
    vec![
        PullRequest {
            repo: "acme/widgets".into(),
            number: 42,
            title: "Fix the flaky integration test".into(),
            url: "https://github.com/acme/widgets/pull/42".into(),
            is_draft: false,
            ci: CiState::Success,
            decision: ReviewDecision::Approved,
            reviewers: vec![
                Reviewer {
                    login: "alice".into(),
                    avatar_url: "https://avatars.githubusercontent.com/u/1?s=64&v=4".into(),
                    state: ReviewState::Pending,
                },
                Reviewer {
                    login: "platform-team".into(),
                    avatar_url: "https://avatars.githubusercontent.com/t/9?s=64&v=4".into(),
                    state: ReviewState::Pending,
                },
                Reviewer {
                    login: "bob".into(),
                    avatar_url: "https://avatars.githubusercontent.com/u/2?s=64&v=4".into(),
                    state: ReviewState::Approved,
                },
            ],
            stack: None,
        },
        PullRequest {
            repo: "acme/tools".into(),
            number: 3,
            title: "WIP: rewrite everything".into(),
            url: "https://github.com/acme/tools/pull/3".into(),
            is_draft: true,
            ci: CiState::NoChecks,
            decision: ReviewDecision::NotRequired,
            reviewers: Vec::new(),
            stack: None,
        },
    ]
}

#[test]
fn tooltip_carries_the_count_the_menu_bar_no_longer_shows() {
    let mut snapshot = Snapshot::default();
    snapshot.loaded(two_prs(), 2, "12:00".into());
    assert_eq!(
        tray_tooltip(&snapshot),
        "2 open pull requests · Updated 12:00"
    );
}

#[test]
fn tooltip_reports_the_true_total_past_the_display_cap() {
    let mut snapshot = Snapshot::default();
    snapshot.loaded(two_prs(), 137, "12:00".into());
    assert_eq!(
        tray_tooltip(&snapshot),
        "2 of 137 open pull requests · Updated 12:00"
    );
}

#[test]
fn tooltip_covers_loading_empty_singular_and_failed() {
    let mut snapshot = Snapshot::default();
    assert_eq!(tray_tooltip(&snapshot), "Loading pull requests…");

    snapshot.loaded(Vec::new(), 0, "12:00".into());
    assert_eq!(
        tray_tooltip(&snapshot),
        "No open pull requests · Updated 12:00"
    );

    snapshot.loaded(two_prs().into_iter().take(1).collect(), 1, "12:00".into());
    assert_eq!(
        tray_tooltip(&snapshot),
        "1 open pull request · Updated 12:00"
    );

    snapshot.failed("GitHub rejected the token (401)".into());
    assert_eq!(
        tray_tooltip(&snapshot),
        "Refresh failed: GitHub rejected the token (401)"
    );
}

#[test]
fn truncate_keeps_unicode_and_only_shortens_past_the_limit() {
    assert_eq!(truncate("äbc", 3), "äbc");
    assert_eq!(truncate("äbcd", 3), "äb…");
    assert_eq!(truncate("anything", 1), "…");
}

#[test]
fn one_shown_of_a_larger_total_names_both() {
    let mut snapshot = Snapshot::default();
    snapshot.loaded(two_prs().into_iter().take(1).collect(), 60, "09:05".into());
    assert_eq!(
        tray_tooltip(&snapshot),
        "1 of 60 open pull requests · Updated 09:05"
    );
}

#[test]
fn truncate_of_empty_text_with_no_room_is_empty() {
    assert_eq!(truncate("", 0), "");
    assert_eq!(truncate("€€€€€", 100), "€€€€€");
}
