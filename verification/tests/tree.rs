use prtoolbar::model::{CiState, PullRequest, ReviewDecision, StackMembership};
use prtoolbar::tree::{rows, GroupId, Row};

fn pr(repo: &str, number: u64, stack: Option<(u64, u64, u64)>) -> PullRequest {
    PullRequest {
        repo: repo.into(),
        number,
        title: format!("PR {number}"),
        url: format!("https://github.com/{repo}/pull/{number}"),
        is_draft: false,
        ci: CiState::Success,
        decision: ReviewDecision::Approved,
        reviewers: Vec::new(),
        stack: stack.map(|(number, position, size)| StackMembership {
            number,
            position,
            size,
        }),
    }
}

fn labels(rows: &[Row<'_>]) -> Vec<String> {
    rows.iter()
        .map(|row| match row {
            Row::Repository { repo, count, .. } => format!("repo:{repo}:{count}"),
            Row::Stack {
                number,
                shown,
                total,
                ..
            } => format!("stack:{number}:{shown}/{total}"),
            Row::PullRequest { pr, in_stack } => {
                format!("pr:{}:{in_stack}", pr.number)
            }
        })
        .collect()
}

#[test]
fn mixed_stacks_keep_dependency_order_at_their_latest_activity_position() {
    let prs = vec![
        pr("z/repo", 1, None),
        pr("a/repo", 30, Some((7, 3, 3))),
        pr("a/repo", 99, None),
        pr("a/repo", 50, Some((8, 2, 2))),
        pr("a/repo", 10, Some((7, 1, 3))),
        pr("a/repo", 40, Some((8, 1, 2))),
        pr("a/repo", 20, Some((7, 2, 3))),
    ];
    assert_eq!(
        labels(&rows(&prs, &[])),
        [
            "repo:a/repo:6",
            "stack:7:3/3",
            "pr:10:true",
            "pr:20:true",
            "pr:30:true",
            "pr:99:false",
            "stack:8:2/2",
            "pr:40:true",
            "pr:50:true",
            "repo:z/repo:1",
            "pr:1:false",
        ]
    );
}

#[test]
fn collapsed_stack_is_scoped_to_its_repository_and_keeps_its_header() {
    let prs = vec![
        pr("a/repo", 1, Some((7, 1, 1))),
        pr("b/repo", 2, Some((7, 1, 1))),
        pr("a/repo", 3, None),
    ];
    let collapsed = [GroupId::Stack {
        repo: "a/repo".into(),
        number: 7,
    }];
    assert_eq!(
        labels(&rows(&prs, &collapsed)),
        [
            "repo:a/repo:2",
            "stack:7:1/1",
            "pr:3:false",
            "repo:b/repo:1",
            "stack:7:1/1",
            "pr:2:true",
        ]
    );
}

#[test]
fn collapsed_repository_hides_both_stack_headers_and_prs() {
    let prs = vec![
        pr("a/repo", 1, Some((7, 1, 1))),
        pr("b/repo", 2, None),
        pr("a/repo", 3, None),
    ];
    let collapsed = [GroupId::Repo("a/repo".into())];
    assert_eq!(
        labels(&rows(&prs, &collapsed)),
        ["repo:a/repo:2", "repo:b/repo:1", "pr:2:false",]
    );
}

#[test]
fn partial_stack_retains_full_total() {
    let prs = vec![
        pr("a/repo", 15, Some((7, 15, 20))),
        pr("a/repo", 3, Some((7, 3, 20))),
    ];
    assert_eq!(
        labels(&rows(&prs, &[])),
        ["repo:a/repo:2", "stack:7:2/20", "pr:3:true", "pr:15:true",]
    );
}

#[test]
fn large_stacks_are_siblings_in_dependency_order() {
    let prs: Vec<_> = (1..=20)
        .rev()
        .map(|n| pr("a/repo", n, Some((7, n, 20))))
        .collect();
    let visible = rows(&prs, &[]);
    assert_eq!(visible.len(), 22);
    for (index, row) in visible[2..].iter().enumerate() {
        let Row::PullRequest { pr, in_stack } = row else {
            panic!("expected sibling PR")
        };
        assert_eq!(pr.number, index as u64 + 1);
        assert!(*in_stack);
    }
}

#[test]
fn group_ids_survive_refreshed_members_and_empty_snapshots() {
    let before = vec![pr("a/repo", 1, Some((7, 1, 2)))];
    let after = vec![pr("a/repo", 2, Some((7, 2, 3)))];
    let ids = |prs: &[PullRequest]| -> Vec<GroupId> {
        rows(prs, &[])
            .into_iter()
            .filter_map(|row| match row {
                Row::Repository { id, .. } | Row::Stack { id, .. } => Some(id),
                Row::PullRequest { .. } => None,
            })
            .collect()
    };
    assert_eq!(ids(&before), ids(&after));
    let collapsed = [GroupId::Stack {
        repo: "a/repo".into(),
        number: 7,
    }];
    assert!(rows(&[], &collapsed).is_empty());
    assert_eq!(
        labels(&rows(&after, &collapsed)),
        ["repo:a/repo:1", "stack:7:1/3"]
    );
}

#[test]
fn repositories_sort_by_bytes_and_stack_ties_keep_activity_order() {
    let prs = vec![
        pr("b/repo", 1, Some((4, 2, 2))),
        pr("B/repo", 2, None),
        pr("b/repo", 3, Some((4, 2, 2))),
        pr("b/repo", 4, Some((4, 1, 2))),
        pr("äx/repo", 5, None),
    ];
    assert_eq!(
        labels(&rows(&prs, &[])),
        [
            "repo:B/repo:1",
            "pr:2:false",
            "repo:b/repo:3",
            "stack:4:3/2",
            "pr:4:true",
            "pr:1:true",
            "pr:3:true",
            "repo:äx/repo:1",
            "pr:5:false",
        ]
    );
}

#[test]
fn every_pr_appears_exactly_once_when_nothing_is_collapsed() {
    let prs = vec![
        pr("c/repo", 1, Some((1, 2, 2))),
        pr("a/repo", 2, None),
        pr("c/repo", 3, None),
        pr("c/repo", 4, Some((1, 1, 2))),
        pr("a/repo", 5, Some((9, 1, 1))),
    ];
    let visible = rows(&prs, &[]);
    let mut numbers: Vec<u64> = visible
        .iter()
        .filter_map(|row| match row {
            Row::PullRequest { pr, .. } => Some(pr.number),
            _ => None,
        })
        .collect();
    numbers.sort();
    assert_eq!(numbers, [1, 2, 3, 4, 5]);
}

#[test]
fn group_rows_never_share_an_identity() {
    let prs = vec![
        pr("b/repo", 1, Some((7, 2, 2))),
        pr("a/repo", 2, Some((7, 1, 1))),
        pr("b/repo", 3, Some((8, 1, 1))),
        pr("b/repo", 4, Some((7, 1, 2))),
        pr("a/repo", 5, None),
    ];
    let ids: Vec<GroupId> = rows(&prs, &[])
        .into_iter()
        .filter_map(|row| match row {
            Row::Repository { id, .. } | Row::Stack { id, .. } => Some(id),
            Row::PullRequest { .. } => None,
        })
        .collect();
    assert_eq!(ids.len(), 5);
    for (i, a) in ids.iter().enumerate() {
        for b in &ids[i + 1..] {
            assert_ne!(a, b);
        }
    }
}

#[test]
fn collapsing_only_removes_the_rows_under_collapsed_groups() {
    let prs = vec![
        pr("z/repo", 1, None),
        pr("a/repo", 30, Some((7, 3, 3))),
        pr("a/repo", 99, None),
        pr("a/repo", 50, Some((8, 2, 2))),
        pr("a/repo", 10, Some((7, 1, 3))),
        pr("a/repo", 40, Some((8, 1, 2))),
        pr("a/repo", 20, Some((7, 2, 3))),
    ];
    let full = labels(&rows(&prs, &[]));
    let collapsed = [
        GroupId::Stack { repo: "a/repo".into(), number: 7 },
        GroupId::Repo("z/repo".into()),
        GroupId::Repo("nowhere/repo".into()),
    ];
    let expected: Vec<String> = full
        .iter()
        .filter(|label| !["pr:10:true", "pr:20:true", "pr:30:true", "pr:1:false"].contains(&label.as_str()))
        .cloned()
        .collect();
    assert_eq!(labels(&rows(&prs, &collapsed)), expected);
}
