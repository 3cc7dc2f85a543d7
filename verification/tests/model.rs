use prtoolbar::model::{
    merge_reviewers, CiState, PullRequest, ReviewDecision, ReviewState, Reviewer, Snapshot, Status,
};

fn pr(is_draft: bool, ci: CiState, decision: ReviewDecision) -> PullRequest {
    PullRequest {
        repo: "acme/widgets".into(),
        number: 7,
        title: "Add thing".into(),
        url: "https://github.com/acme/widgets/pull/7".into(),
        is_draft,
        ci,
        decision,
        reviewers: Vec::new(),
        stack: None,
    }
}

fn reviewer(login: &str, state: ReviewState) -> Reviewer {
    Reviewer {
        login: login.into(),
        avatar_url: format!("https://avatars.example/{login}"),
        state,
    }
}

#[test]
fn draft_wins_over_everything() {
    assert_eq!(
        Status::derive(&pr(true, CiState::Failure, ReviewDecision::Approved)),
        Status::Draft
    );
}

#[test]
fn failing_ci_is_blocked() {
    assert_eq!(
        Status::derive(&pr(false, CiState::Failure, ReviewDecision::Approved)),
        Status::Blocked
    );
}

#[test]
fn changes_requested_is_blocked() {
    assert_eq!(
        Status::derive(&pr(false, CiState::Success, ReviewDecision::ChangesRequested)),
        Status::Blocked
    );
}

#[test]
fn approved_and_green_is_ready() {
    assert_eq!(
        Status::derive(&pr(false, CiState::Success, ReviewDecision::Approved)),
        Status::Ready
    );
}

#[test]
fn nothing_configured_is_ready() {
    assert_eq!(
        Status::derive(&pr(false, CiState::NoChecks, ReviewDecision::NotRequired)),
        Status::Ready
    );
}

#[test]
fn pending_ci_is_waiting() {
    assert_eq!(
        Status::derive(&pr(false, CiState::Pending, ReviewDecision::Approved)),
        Status::Waiting
    );
}

#[test]
fn review_required_is_waiting() {
    assert_eq!(
        Status::derive(&pr(false, CiState::Success, ReviewDecision::Required)),
        Status::Waiting
    );
}

#[test]
fn merge_keeps_requested_order_and_dedups_by_login() {
    let requested = vec![
        reviewer("alice", ReviewState::Pending),
        reviewer("bob", ReviewState::Pending),
    ];
    let reviewed = vec![
        reviewer("bob", ReviewState::Approved),
        reviewer("carol", ReviewState::Commented),
    ];
    let merged = merge_reviewers(requested, reviewed);
    let summary: Vec<(&str, ReviewState)> =
        merged.iter().map(|r| (r.login.as_str(), r.state)).collect();
    assert_eq!(
        summary,
        vec![
            ("alice", ReviewState::Pending),
            ("bob", ReviewState::Pending),
            ("carol", ReviewState::Commented),
        ]
    );
}

#[test]
fn a_successful_fetch_replaces_the_list_and_clears_the_error() {
    let mut snapshot = Snapshot {
        prs: vec![pr(false, CiState::Success, ReviewDecision::Approved)],
        total: 1,
        updated_at: Some("11:00".into()),
        error: Some("boom".into()),
    };

    snapshot.loaded(Vec::new(), 0, "12:00".into());

    assert!(snapshot.prs.is_empty(), "the new list wins, even when empty");
    assert_eq!(snapshot.total, 0);
    assert_eq!(snapshot.updated_at.as_deref(), Some("12:00"));
    assert_eq!(snapshot.error, None, "a success clears the previous error");
}

#[test]
fn a_failed_fetch_keeps_the_last_good_list_and_timestamp() {
    let mut snapshot = Snapshot::default();
    snapshot.loaded(
        vec![pr(false, CiState::Success, ReviewDecision::Approved)],
        9,
        "12:00".into(),
    );

    snapshot.failed("GitHub rejected the token (401)".into());

    assert_eq!(snapshot.prs.len(), 1, "the stale list stays on screen");
    assert_eq!(snapshot.total, 9);
    assert_eq!(snapshot.updated_at.as_deref(), Some("12:00"));
    assert_eq!(
        snapshot.error.as_deref(),
        Some("GitHub rejected the token (401)")
    );
}

#[test]
fn rerequested_review_is_pending_despite_a_previous_review() {
    let requested = vec![reviewer("bob", ReviewState::Pending)];
    let reviewed = vec![reviewer("bob", ReviewState::ChangesRequested)];
    let merged = merge_reviewers(requested, reviewed);
    assert_eq!(merged.len(), 1);
    assert_eq!(merged[0].state, ReviewState::Pending);
}

#[test]
fn merge_of_nothing_is_empty() {
    assert!(merge_reviewers(Vec::new(), Vec::new()).is_empty());
}

#[test]
fn merge_keeps_the_first_submitted_review_of_each_unrequested_login() {
    let reviewed = vec![
        reviewer("dave", ReviewState::Commented),
        reviewer("erin", ReviewState::Approved),
        reviewer("dave", ReviewState::Approved),
    ];
    let merged = merge_reviewers(vec![reviewer("erin", ReviewState::Pending)], reviewed);
    let summary: Vec<(&str, ReviewState)> =
        merged.iter().map(|r| (r.login.as_str(), r.state)).collect();
    assert_eq!(
        summary,
        vec![("erin", ReviewState::Pending), ("dave", ReviewState::Commented)]
    );
    assert_eq!(merged[1].avatar_url, "https://avatars.example/dave");
}

#[test]
fn a_failure_before_any_success_keeps_the_empty_list() {
    let mut snapshot = Snapshot::default();
    snapshot.failed("GitHub HTTP 500".into());
    assert!(snapshot.prs.is_empty());
    assert_eq!(snapshot.updated_at, None);
    assert_eq!(snapshot.error.as_deref(), Some("GitHub HTTP 500"));
}
