use prtoolbar::github::{
    ci_state, response_to_prs, review_decision, review_state, status_error, Actor, Commit,
    CommitNode, Data, GraphQlError, GraphQlResponse, Nodes, PrNode, Repository, Review,
    ReviewRequest, Rollup, SearchResult, Stack, StackEntry,
};
use prtoolbar::model::{CiState, PullRequest, ReviewDecision, ReviewState, StackMembership};

fn actor(login: Option<&str>, name: Option<&str>, avatar: Option<&str>) -> Actor {
    Actor {
        login: login.map(str::to_owned),
        name: name.map(str::to_owned),
        avatar_url: avatar.map(str::to_owned),
    }
}

fn first_node() -> PrNode {
    PrNode {
        number: 42,
        title: "Fix the flaky integration test".into(),
        url: "https://github.com/acme/widgets/pull/42".into(),
        is_draft: false,
        repository: Repository {
            name_with_owner: "acme/widgets".into(),
        },
        review_decision: Some("APPROVED".into()),
        commits: Nodes {
            nodes: vec![CommitNode {
                commit: Commit {
                    status_check_rollup: Some(Rollup {
                        state: "SUCCESS".into(),
                    }),
                },
            }],
        },
        review_requests: Nodes {
            nodes: vec![
                ReviewRequest {
                    requested_reviewer: Some(actor(
                        Some("alice"),
                        None,
                        Some("https://avatars.githubusercontent.com/u/1?s=64&v=4"),
                    )),
                },
                ReviewRequest {
                    requested_reviewer: Some(actor(
                        None,
                        Some("platform-team"),
                        Some("https://avatars.githubusercontent.com/t/9?s=64&v=4"),
                    )),
                },
                ReviewRequest {
                    requested_reviewer: None,
                },
            ],
        },
        latest_reviews: Nodes {
            nodes: vec![
                Review {
                    state: "APPROVED".into(),
                    author: Some(actor(
                        Some("bob"),
                        None,
                        Some("https://avatars.githubusercontent.com/u/2?s=64&v=4"),
                    )),
                },
                Review {
                    state: "DISMISSED".into(),
                    author: Some(actor(
                        Some("dave"),
                        None,
                        Some("https://avatars.githubusercontent.com/u/4?s=64&v=4"),
                    )),
                },
            ],
        },
        stack_entry: None,
    }
}

fn second_node() -> PrNode {
    PrNode {
        number: 3,
        title: "WIP: rewrite everything".into(),
        url: "https://github.com/acme/tools/pull/3".into(),
        is_draft: true,
        repository: Repository {
            name_with_owner: "acme/tools".into(),
        },
        review_decision: None,
        commits: Nodes {
            nodes: vec![CommitNode {
                commit: Commit {
                    status_check_rollup: None,
                },
            }],
        },
        review_requests: Nodes { nodes: vec![] },
        latest_reviews: Nodes { nodes: vec![] },
        stack_entry: None,
    }
}

fn response(nodes: Vec<Option<PrNode>>, issue_count: u64) -> GraphQlResponse {
    GraphQlResponse {
        data: Some(Data {
            search: SearchResult { issue_count, nodes },
        }),
        errors: None,
    }
}

#[test]
fn ci_state_mapping() {
    assert_eq!(ci_state("SUCCESS"), CiState::Success);
    assert_eq!(ci_state("FAILURE"), CiState::Failure);
    assert_eq!(ci_state("ERROR"), CiState::Failure);
    assert_eq!(ci_state("PENDING"), CiState::Pending);
    assert_eq!(ci_state("EXPECTED"), CiState::Pending);
}

#[test]
fn review_decision_mapping() {
    assert_eq!(review_decision(Some("APPROVED")), ReviewDecision::Approved);
    assert_eq!(
        review_decision(Some("CHANGES_REQUESTED")),
        ReviewDecision::ChangesRequested
    );
    assert_eq!(
        review_decision(Some("REVIEW_REQUIRED")),
        ReviewDecision::Required
    );
    assert_eq!(review_decision(None), ReviewDecision::NotRequired);
    assert_eq!(
        review_decision(Some("SOMETHING_NEW")),
        ReviewDecision::NotRequired,
        "an unknown decision must not block the PR"
    );
}

#[test]
fn only_submitted_reviews_become_reviewer_states() {
    assert_eq!(review_state("APPROVED"), Some(ReviewState::Approved));
    assert_eq!(
        review_state("CHANGES_REQUESTED"),
        Some(ReviewState::ChangesRequested)
    );
    assert_eq!(review_state("COMMENTED"), Some(ReviewState::Commented));
    assert_eq!(review_state("DISMISSED"), None, "dismissed is not shown");
    assert_eq!(review_state("PENDING"), None, "unsubmitted is not shown");
}

#[test]
fn status_error_mapping() {
    assert!(status_error(200).is_none());
    assert_eq!(
        status_error(401).unwrap().to_string(),
        "GitHub rejected the token (401)"
    );
    assert_eq!(
        status_error(403).unwrap().to_string(),
        "GitHub rate limited (HTTP 403)"
    );
    assert_eq!(
        status_error(429).unwrap().to_string(),
        "GitHub rate limited (HTTP 429)"
    );
    assert_eq!(status_error(500).unwrap().to_string(), "GitHub HTTP 500");
}

#[test]
fn parses_fixture_into_pull_requests() {
    let (prs, total) =
        response_to_prs(response(vec![Some(first_node()), Some(second_node())], 2)).unwrap();
    assert_eq!(prs.len(), 2);
    assert_eq!(total, 2);

    let first = &prs[0];
    assert_eq!(first.repo, "acme/widgets");
    assert_eq!(first.number, 42);
    assert_eq!(first.url, "https://github.com/acme/widgets/pull/42");
    assert!(!first.is_draft);
    assert_eq!(first.ci, CiState::Success);
    assert_eq!(first.decision, ReviewDecision::Approved);
    let reviewers: Vec<(&str, ReviewState)> = first
        .reviewers
        .iter()
        .map(|r| (r.login.as_str(), r.state))
        .collect();
    assert_eq!(
        reviewers,
        vec![
            ("alice", ReviewState::Pending),
            ("platform-team", ReviewState::Pending),
            ("bob", ReviewState::Approved),
        ],
        "a null request and a DISMISSED review are dropped"
    );
    assert_eq!(
        first.reviewers[1].avatar_url,
        "https://avatars.githubusercontent.com/t/9?s=64&v=4"
    );

    let second = &prs[1];
    assert!(second.is_draft);
    assert_eq!(second.ci, CiState::NoChecks);
    assert_eq!(second.decision, ReviewDecision::NotRequired);
    assert!(second.reviewers.is_empty());
}

#[test]
fn graphql_errors_become_an_error() {
    let parsed = GraphQlResponse {
        data: None,
        errors: Some(vec![
            GraphQlError {
                message: "Bad credentials".into(),
            },
            GraphQlError {
                message: "nope".into(),
            },
        ]),
    };
    assert_eq!(
        response_to_prs(parsed).unwrap_err(),
        "GitHub: Bad credentials; nope"
    );
}

#[test]
fn missing_data_is_an_error() {
    let parsed = GraphQlResponse {
        data: None,
        errors: None,
    };
    assert_eq!(response_to_prs(parsed).unwrap_err(), "GitHub returned no data");
    let parsed = GraphQlResponse {
        data: None,
        errors: Some(Vec::new()),
    };
    assert_eq!(
        response_to_prs(parsed).unwrap_err(),
        "GitHub returned no data",
        "an empty error list is no error"
    );
}

#[test]
fn a_malformed_node_is_skipped_not_fatal() {
    let (prs, _) = response_to_prs(response(vec![None], 0)).unwrap();
    assert_eq!(prs, Vec::<PullRequest>::new());
    let (prs, _) = response_to_prs(response(vec![None, Some(second_node())], 0)).unwrap();
    assert_eq!(prs.len(), 1);
    assert_eq!(prs[0].number, 3);
}

#[test]
fn no_nodes_is_an_empty_list() {
    let (prs, _) = response_to_prs(response(Vec::new(), 0)).unwrap();
    assert_eq!(prs, Vec::<PullRequest>::new());
}

#[test]
fn the_total_is_the_search_count_not_the_node_count() {
    let (prs, total) = response_to_prs(response(Vec::new(), 137)).unwrap();
    assert!(prs.is_empty());
    assert_eq!(total, 137, "the count past the 50-PR cap stays truthful");
}

#[test]
fn stack_metadata_preserves_the_full_stack_size() {
    let mut node = first_node();
    node.stack_entry = Some(StackEntry {
        position: 4,
        stack: Some(Stack { number: 7, size: 20 }),
    });
    let (prs, _) = response_to_prs(response(vec![Some(node), Some(second_node())], 2)).unwrap();
    assert_eq!(
        prs[0].stack,
        Some(StackMembership {
            number: 7,
            position: 4,
            size: 20
        })
    );
    assert_eq!(prs[1].stack, None);

    let mut node = first_node();
    node.stack_entry = Some(StackEntry {
        position: 4,
        stack: None,
    });
    let (prs, _) = response_to_prs(response(vec![Some(node), Some(second_node())], 2)).unwrap();
    assert_eq!(prs[0].stack, None);
}

#[test]
fn an_actor_with_neither_login_nor_name_is_no_reviewer() {
    assert!(actor(None, None, Some("x")).into_reviewer(ReviewState::Pending).is_none());
    let team = actor(None, Some("core"), None)
        .into_reviewer(ReviewState::Commented)
        .unwrap();
    assert_eq!(team.login, "core");
    assert_eq!(team.avatar_url, "");
    assert_eq!(team.state, ReviewState::Commented);
}

#[test]
fn a_failing_or_missing_commit_rollup_sets_ci() {
    let mut node = second_node();
    node.commits.nodes = vec![CommitNode {
        commit: Commit {
            status_check_rollup: Some(Rollup {
                state: "ERROR".into(),
            }),
        },
    }];
    assert_eq!(PullRequest::from_node(node).ci, CiState::Failure);
    let mut node = second_node();
    node.commits.nodes = Vec::new();
    assert_eq!(PullRequest::from_node(node).ci, CiState::NoChecks);
}
