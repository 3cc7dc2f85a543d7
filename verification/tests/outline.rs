use prtoolbar::model::{
    CiState, PullRequest, ReviewDecision, ReviewState, Reviewer, Snapshot, StackMembership,
};
use prtoolbar::outline::{
    checks_label, decision_label, footer, group_key, groups_to_expand, heading, number_label,
    outline_entries,
    overflow_label, pr_title, review_label, reviewer_line, reviewers_tooltip, stack_title,
};
use prtoolbar::tree::GroupId;

fn pr(repo: &str, number: u64, position: u64) -> PullRequest {
    PullRequest {
        repo: repo.into(),
        number,
        title: format!("PR {number}"),
        url: format!("https://github.com/{repo}/pull/{number}"),
        is_draft: false,
        ci: CiState::Success,
        decision: ReviewDecision::Approved,
        reviewers: vec![],
        stack: (position > 0).then_some(StackMembership {
            number: 7,
            position,
            size: 20,
        }),
    }
}

#[test]
fn native_outline_has_real_repo_stack_and_pr_parentage() {
    let tip = pr("a/repo", 3, 3);
    let base = pr("a/repo", 1, 1);
    let standalone = pr("a/repo", 99, 0);
    let other_repo = pr("b/repo", 8, 1);
    let prs = [tip.clone(), standalone.clone(), other_repo, base.clone()];
    let entries = outline_entries(&prs);
    let summary: Vec<(String, Option<String>)> = entries
        .iter()
        .map(|e| (e.key.clone(), e.parent.clone()))
        .collect();
    assert_eq!(
        summary,
        [
            ("repo:a/repo".to_owned(), None),
            ("repo:a/repo:stack:7".to_owned(), Some("repo:a/repo".to_owned())),
            (base.url.clone(), Some("repo:a/repo:stack:7".to_owned())),
            (tip.url.clone(), Some("repo:a/repo:stack:7".to_owned())),
            (standalone.url.clone(), Some("repo:a/repo".to_owned())),
            ("repo:b/repo".to_owned(), None),
            ("repo:b/repo:stack:7".to_owned(), Some("repo:b/repo".to_owned())),
            (
                "https://github.com/b/repo/pull/8".to_owned(),
                Some("repo:b/repo:stack:7".to_owned())
            ),
        ]
    );
    assert_eq!(entries[1].title, "Stack #7 · 2 of 20 PRs");
    assert_eq!(entries[0].title, "a/repo  (3)");
    assert_eq!(entries[2].pr, Some(&base));
    assert!(entries[0].pr.is_none());
}

#[test]
fn group_keys_name_repository_and_stack() {
    assert_eq!(group_key(&GroupId::Repo("a/b".into())), "repo:a/b");
    assert_eq!(
        group_key(&GroupId::Stack {
            repo: "a/b".into(),
            number: 12
        }),
        "repo:a/b:stack:12"
    );
}

#[test]
fn titles_and_labels() {
    let mut draft = pr("a/repo", 5, 0);
    draft.is_draft = true;
    assert_eq!(pr_title(&draft), "PR 5 (draft)");
    assert_eq!(pr_title(&pr("a/repo", 5, 0)), "PR 5");
    assert_eq!(stack_title(3, 1, 10), "Stack #3 · 1 of 10 PRs");
    assert_eq!(number_label(123), "● #123");
    assert_eq!(heading(0), "Pull requests · 0 open");
    assert_eq!(checks_label(CiState::Failure), "✕ Failing");
    assert_eq!(checks_label(CiState::NoChecks), "—");
    assert_eq!(decision_label(ReviewDecision::Required), "◷ Review required");
    assert_eq!(review_label(ReviewState::Commented), "· Commented");
    assert_eq!(overflow_label(4), None);
    assert_eq!(overflow_label(7).as_deref(), Some("+3"));
}

#[test]
fn reviewers_tooltip_has_one_line_each() {
    let reviewers = vec![
        Reviewer {
            login: "alice".into(),
            avatar_url: String::new(),
            state: ReviewState::Approved,
        },
        Reviewer {
            login: "bob".into(),
            avatar_url: String::new(),
            state: ReviewState::Pending,
        },
    ];
    assert_eq!(
        reviewers_tooltip(&reviewers),
        "alice: ✓ Approved\nbob: ◷ Pending"
    );
    assert_eq!(reviewers_tooltip(&Vec::new()), "");
    assert_eq!(reviewer_line(&reviewers[1]), "bob: ◷ Pending");
}

#[test]
fn footer_covers_loading_cap_empty_and_error() {
    let mut snapshot = Snapshot::default();
    assert_eq!(footer(&snapshot), "Loading…");
    snapshot.loaded(Vec::new(), 0, "12:00".into());
    assert_eq!(footer(&snapshot), "No open pull requests · Updated 12:00");
    snapshot.loaded(vec![pr("a/repo", 1, 0)], 80, "12:01".into());
    assert_eq!(footer(&snapshot), "Updated 12:01 · Showing 1 of 80");
    snapshot.loaded(vec![pr("a/repo", 1, 0)], 1, "12:02".into());
    assert_eq!(footer(&snapshot), "Updated 12:02");
    snapshot.failed("GitHub HTTP 502".into());
    assert_eq!(footer(&snapshot), "GitHub HTTP 502");
}

#[test]
fn a_refresh_expands_every_group_but_the_collapsed_ones() {
    let prs = [
        pr("a/repo", 3, 3),
        pr("a/repo", 99, 0),
        pr("b/repo", 8, 1),
        pr("a/repo", 1, 1),
    ];
    let entries = outline_entries(&prs);
    assert_eq!(
        groups_to_expand(&entries, &[]),
        ["repo:a/repo", "repo:a/repo:stack:7", "repo:b/repo", "repo:b/repo:stack:7"]
    );
    let collapsed = ["repo:a/repo:stack:7".to_owned(), "repo:c/repo".to_owned()];
    assert_eq!(
        groups_to_expand(&entries, &collapsed),
        ["repo:a/repo", "repo:b/repo", "repo:b/repo:stack:7"]
    );
}

#[test]
fn group_keys_of_different_groups_differ() {
    let keys = [
        group_key(&GroupId::Repo("a/repo".into())),
        group_key(&GroupId::Repo("b/repo".into())),
        group_key(&GroupId::Stack { repo: "a/repo".into(), number: 7 }),
        group_key(&GroupId::Stack { repo: "b/repo".into(), number: 7 }),
        group_key(&GroupId::Stack { repo: "a/repo".into(), number: 17 }),
    ];
    for (i, a) in keys.iter().enumerate() {
        for b in &keys[i + 1..] {
            assert_ne!(a, b);
        }
    }
    assert_eq!(keys[4], "repo:a/repo:stack:17");
}

#[test]
fn group_keys_survive_a_refresh_of_their_members() {
    let group_keys = |prs: &[PullRequest]| -> Vec<String> {
        outline_entries(prs)
            .into_iter()
            .filter(|e| e.pr.is_none())
            .map(|e| e.key)
            .collect()
    };
    let before = [pr("a/repo", 1, 1)];
    let after = [pr("a/repo", 2, 2)];
    assert_eq!(group_keys(&before), ["repo:a/repo", "repo:a/repo:stack:7"]);
    assert_eq!(group_keys(&before), group_keys(&after));
}

#[test]
fn every_parent_is_an_earlier_group_item() {
    let prs = [
        pr("b/repo", 5, 2),
        pr("a/repo", 3, 0),
        pr("b/repo", 4, 1),
        pr("a/repo", 9, 1),
    ];
    let entries = outline_entries(&prs);
    for (k, entry) in entries.iter().enumerate() {
        if let Some(parent) = &entry.parent {
            assert!(entries[..k]
                .iter()
                .any(|earlier| earlier.pr.is_none() && &earlier.key == parent));
        }
    }
}

#[test]
fn every_outline_item_has_its_own_key() {
    let prs = [
        pr("b/repo", 5, 2),
        pr("a/repo", 3, 0),
        pr("b/repo", 4, 1),
        pr("a/repo", 9, 1),
        pr("a/repo", 7, 2),
    ];
    let entries = outline_entries(&prs);
    assert_eq!(entries.len(), 9);
    for (i, a) in entries.iter().enumerate() {
        for b in &entries[i + 1..] {
            assert_ne!(a.key, b.key);
        }
    }
}
