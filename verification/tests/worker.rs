use std::time::Duration;

use prtoolbar::model::{CiState, PullRequest, ReviewDecision, ReviewState, Reviewer};
use prtoolbar::worker::{
    Delivery, RefreshAction, RefreshEvent, WaitEnd, avatar_urls, interval_from_env, interval_secs,
    next_action,
};

#[test]
fn interval_defaults_to_sixty_seconds() {
    assert_eq!(interval_from_env(None), Duration::from_secs(60));
}

#[test]
fn interval_is_parsed_and_clamped() {
    assert_eq!(interval_from_env(Some("120")), Duration::from_secs(120));
    assert_eq!(interval_from_env(Some("3")), Duration::from_secs(15));
    assert_eq!(interval_from_env(Some("abc")), Duration::from_secs(60));
    assert_eq!(interval_from_env(Some("")), Duration::from_secs(60));
}

#[test]
fn interval_accepts_surrounding_whitespace_a_plus_sign_and_rejects_overflow() {
    assert_eq!(interval_secs(Some(" 90\n")), 90);
    assert_eq!(interval_secs(Some("+45")), 45);
    assert_eq!(interval_secs(Some("+")), 60);
    assert_eq!(interval_secs(Some("-20")), 60);
    assert_eq!(interval_secs(Some("18446744073709551615")), u64::MAX);
    assert_eq!(interval_secs(Some("18446744073709551616")), 60);
    assert_eq!(interval_secs(Some("0015")), 15);
    assert_eq!(interval_secs(Some("1 5")), 60);
}

fn pr(logins: &[&str]) -> PullRequest {
    PullRequest {
        repo: "a/repo".into(),
        number: 1,
        title: "t".into(),
        url: "u".into(),
        is_draft: false,
        ci: CiState::Success,
        decision: ReviewDecision::Approved,
        reviewers: logins
            .iter()
            .map(|login| Reviewer {
                login: (*login).into(),
                avatar_url: format!("https://avatars/{login}"),
                state: ReviewState::Pending,
            })
            .collect(),
        stack: None,
    }
}

#[test]
fn avatar_urls_follow_prs_then_reviewers() {
    let urls = avatar_urls(&[pr(&["a", "b"]), pr(&[]), pr(&["a"])]);
    assert_eq!(
        urls,
        ["https://avatars/a", "https://avatars/b", "https://avatars/a"]
    );
}

#[test]
fn a_refresh_cycle_reports_then_fetches_avatars_then_waits() {
    let mut action = RefreshAction::Fetch;
    let mut seen = vec![action];
    for event in [
        RefreshEvent::Fetched(true),
        RefreshEvent::Delivered { what: Delivery::Loaded, taken: true },
        RefreshEvent::AvatarsFetched(true),
        RefreshEvent::Delivered { what: Delivery::Avatars, taken: true },
        RefreshEvent::WaitEnded(WaitEnd::TimedOut),
    ] {
        action = next_action(event);
        seen.push(action);
    }
    assert_eq!(
        seen,
        [
            RefreshAction::Fetch,
            RefreshAction::DeliverLoaded,
            RefreshAction::FetchAvatars,
            RefreshAction::DeliverAvatars,
            RefreshAction::Wait,
            RefreshAction::Fetch,
        ]
    );
}

#[test]
fn a_failed_fetch_is_reported_and_the_loop_keeps_going() {
    assert_eq!(next_action(RefreshEvent::Fetched(false)), RefreshAction::DeliverFailed);
    assert_eq!(
        next_action(RefreshEvent::Delivered { what: Delivery::Failed, taken: true }),
        RefreshAction::Wait
    );
    assert_eq!(next_action(RefreshEvent::AvatarsFetched(false)), RefreshAction::Wait);
    assert_eq!(
        next_action(RefreshEvent::WaitEnded(WaitEnd::Requested)),
        RefreshAction::Fetch
    );
}

#[test]
fn the_loop_stops_once_the_ui_is_gone() {
    for what in [Delivery::Loaded, Delivery::Failed, Delivery::Avatars] {
        assert_eq!(
            next_action(RefreshEvent::Delivered { what, taken: false }),
            RefreshAction::Stop
        );
    }
    assert_eq!(
        next_action(RefreshEvent::WaitEnded(WaitEnd::Disconnected)),
        RefreshAction::Stop
    );
}
