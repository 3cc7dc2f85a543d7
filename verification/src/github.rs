//! The GitHub search response, decoded into plain values, and its mapping
//! into `model`. Reading the HTTP body into these values is the caller's
//! part; everything after that happens here.

use vstd::prelude::*;
use crate::model::{
    status_of, Status, first_per_login, merge_reviewers, reviewer_views, CiState, PullRequest, ReviewDecision,
    ReviewState, Reviewer, ReviewerView, StackMembership,
};
use crate::text::{decimal, push_decimal, str_eq};

verus! {

/// The top level of a GraphQL response.
pub struct GraphQlResponse {
    pub data: Option<Data>,
    pub errors: Option<Vec<GraphQlError>>,
}

/// One entry of the GraphQL `errors` list.
pub struct GraphQlError {
    pub message: String,
}

/// The `data` object.
pub struct Data {
    pub search: SearchResult,
}

/// The search result: the total match count and one entry per node, `None`
/// for a node that does not have the shape of a pull request.
pub struct SearchResult {
    pub issue_count: u64,
    pub nodes: Vec<Option<PrNode>>,
}

/// A GraphQL connection's `nodes` list.
pub struct Nodes<T> {
    pub nodes: Vec<T>,
}

/// One pull request node.
pub struct PrNode {
    pub number: u64,
    pub title: String,
    pub url: String,
    pub is_draft: bool,
    pub repository: Repository,
    pub review_decision: Option<String>,
    pub commits: Nodes<CommitNode>,
    pub review_requests: Nodes<ReviewRequest>,
    pub latest_reviews: Nodes<Review>,
    pub stack_entry: Option<StackEntry>,
}

/// Stack membership of a node.
pub struct StackEntry {
    pub position: u64,
    pub stack: Option<Stack>,
}

/// A native GitHub stack.
pub struct Stack {
    pub number: u64,
    pub size: u64,
}

/// The repository of a node.
pub struct Repository {
    pub name_with_owner: String,
}

/// An entry of the `commits` connection.
pub struct CommitNode {
    pub commit: Commit,
}

/// A commit and its combined check state.
pub struct Commit {
    pub status_check_rollup: Option<Rollup>,
}

/// The combined check state of a commit.
pub struct Rollup {
    pub state: String,
}

/// An entry of the `reviewRequests` connection.
pub struct ReviewRequest {
    pub requested_reviewer: Option<Actor>,
}

/// An entry of the `latestReviews` connection.
pub struct Review {
    pub state: String,
    pub author: Option<Actor>,
}

/// A `User` (has `login`), a `Team` (has `name`), or something else (neither).
pub struct Actor {
    pub login: Option<String>,
    pub name: Option<String>,
    pub avatar_url: Option<String>,
}

/// The CI state named by a status-check rollup state.
pub open spec fn ci_state_of(state: Seq<char>) -> CiState {
    if state == "SUCCESS"@ {
        CiState::Success
    } else if state == "FAILURE"@ || state == "ERROR"@ {
        CiState::Failure
    } else {
        CiState::Pending
    }
}

/// Map a status-check rollup state: success, failure (`FAILURE`, `ERROR`),
/// and pending for everything else.
pub fn ci_state(state: &str) -> (ci: CiState)
    ensures
        ci == ci_state_of(state@),
{
    if str_eq(state, "SUCCESS") {
        CiState::Success
    } else if str_eq(state, "FAILURE") || str_eq(state, "ERROR") {
        CiState::Failure
    } else {
        CiState::Pending
    }
}

/// The review decision named by GitHub's `reviewDecision`; an absent or
/// unknown decision is `NotRequired`, so it never blocks the PR.
pub open spec fn review_decision_of(decision: Option<Seq<char>>) -> ReviewDecision {
    match decision {
        Some(d) => if d == "APPROVED"@ {
            ReviewDecision::Approved
        } else if d == "CHANGES_REQUESTED"@ {
            ReviewDecision::ChangesRequested
        } else if d == "REVIEW_REQUIRED"@ {
            ReviewDecision::Required
        } else {
            ReviewDecision::NotRequired
        },
        None => ReviewDecision::NotRequired,
    }
}

/// The view of an optional string slice.
pub open spec fn opt_str_view(s: Option<&str>) -> Option<Seq<char>> {
    match s {
        Some(t) => Some(t@),
        None => None,
    }
}

/// Map GitHub's review decision.
pub fn review_decision(decision: Option<&str>) -> (d: ReviewDecision)
    ensures
        d == review_decision_of(opt_str_view(decision)),
{
    match decision {
        Some(d) => if str_eq(d, "APPROVED") {
            ReviewDecision::Approved
        } else if str_eq(d, "CHANGES_REQUESTED") {
            ReviewDecision::ChangesRequested
        } else if str_eq(d, "REVIEW_REQUIRED") {
            ReviewDecision::Required
        } else {
            ReviewDecision::NotRequired
        },
        None => ReviewDecision::NotRequired,
    }
}

/// The participant state of a submitted review; `DISMISSED`, `PENDING` (an
/// unsubmitted review) and anything unknown give none.
pub open spec fn review_state_of(state: Seq<char>) -> Option<ReviewState> {
    if state == "APPROVED"@ {
        Some(ReviewState::Approved)
    } else if state == "CHANGES_REQUESTED"@ {
        Some(ReviewState::ChangesRequested)
    } else if state == "COMMENTED"@ {
        Some(ReviewState::Commented)
    } else {
        None
    }
}

/// `DISMISSED` and `PENDING` (an unsubmitted review) are not shown.
pub fn review_state(state: &str) -> (s: Option<ReviewState>)
    ensures
        s == review_state_of(state@),
{
    if str_eq(state, "APPROVED") {
        Some(ReviewState::Approved)
    } else if str_eq(state, "CHANGES_REQUESTED") {
        Some(ReviewState::ChangesRequested)
    } else if str_eq(state, "COMMENTED") {
        Some(ReviewState::Commented)
    } else {
        None
    }
}

/// The CI mapping, state by state: `SUCCESS` passes, `FAILURE` and `ERROR`
/// fail, and every other rollup state (`PENDING`, `EXPECTED`, ...) is
/// pending; a rollup state never reads as "no checks".
pub proof fn lemma_ci_state_mapping(state: Seq<char>)
    ensures
        (ci_state_of(state) == CiState::Success) == (state == "SUCCESS"@),
        (ci_state_of(state) == CiState::Failure) == (state == "FAILURE"@ || state == "ERROR"@),
        (ci_state_of(state) == CiState::Pending) == (state != "SUCCESS"@ && state != "FAILURE"@ && state != "ERROR"@),
        ci_state_of(state) != CiState::NoChecks,
{
    reveal_strlit("SUCCESS");
    reveal_strlit("FAILURE");
    reveal_strlit("ERROR");
    assert("SUCCESS"@[0] == 'S' && "FAILURE"@[0] == 'F' && "ERROR"@[0] == 'E');
}

/// The review decision mapping: the three known decisions map to their
/// own values, and an absent or unknown decision means no review is
/// required.
pub proof fn lemma_review_decision_mapping(decision: Option<Seq<char>>)
    ensures
        (review_decision_of(decision) == ReviewDecision::Approved) == (decision == Some("APPROVED"@)),
        (review_decision_of(decision) == ReviewDecision::ChangesRequested) == (decision == Some("CHANGES_REQUESTED"@)),
        (review_decision_of(decision) == ReviewDecision::Required) == (decision == Some("REVIEW_REQUIRED"@)),
{
    reveal_strlit("APPROVED");
    reveal_strlit("CHANGES_REQUESTED");
    reveal_strlit("REVIEW_REQUIRED");
    assert("APPROVED"@.len() == 8);
    assert("CHANGES_REQUESTED"@.len() == 17);
    assert("REVIEW_REQUIRED"@.len() == 15);
}

/// An unknown or absent review decision never blocks a PR: with passing
/// checks, a non-draft PR whose decision GitHub reports as anything but the
/// three known values is ready.
pub proof fn lemma_unknown_decision_never_blocks(decision: Option<Seq<char>>)
    requires
        decision != Some("APPROVED"@),
        decision != Some("CHANGES_REQUESTED"@),
        decision != Some("REVIEW_REQUIRED"@),
    ensures
        review_decision_of(decision) == ReviewDecision::NotRequired,
        status_of(false, CiState::Success, review_decision_of(decision)) == Status::Ready,
{
}

/// The message shown for an HTTP status, or none for 200.
pub open spec fn status_message(status: u16) -> Option<Seq<char>> {
    if status == 200 {
        None
    } else if status == 401 {
        Some("GitHub rejected the token (401)"@)
    } else if status == 403 || status == 429 {
        Some("GitHub rate limited (HTTP "@ + decimal(status as nat) + ")"@)
    } else {
        Some("GitHub HTTP "@ + decimal(status as nat))
    }
}

/// The view of an optional string.
pub open spec fn opt_string_view(s: Option<String>) -> Option<Seq<char>> {
    match s {
        Some(t) => Some(t@),
        None => None,
    }
}

/// Map an HTTP status code to the error shown in the menu, or `None` for 200.
pub fn status_error(status: u16) -> (message: Option<String>)
    ensures
        opt_string_view(message) == status_message(status),
{
    if status == 200 {
        None
    } else if status == 401 {
        Some(String::from_str("GitHub rejected the token (401)"))
    } else if status == 403 || status == 429 {
        let mut m = String::from_str("GitHub rate limited (HTTP ");
        push_decimal(&mut m, status as u64);
        m.append(")");
        Some(m)
    } else {
        let mut m = String::from_str("GitHub HTTP ");
        push_decimal(&mut m, status as u64);
        Some(m)
    }
}

/// The participant an actor stands for: a user by login, a team by name, and
/// nothing for an actor with neither. A missing avatar URL is empty.
pub open spec fn actor_reviewer(a: Actor, state: ReviewState) -> Option<ReviewerView> {
    let avatar = match a.avatar_url {
        Some(u) => u@,
        None => Seq::empty(),
    };
    match a.login {
        Some(l) => Some(ReviewerView { login: l@, avatar_url: avatar, state }),
        None => match a.name {
            Some(n) => Some(ReviewerView { login: n@, avatar_url: avatar, state }),
            None => None,
        },
    }
}

/// The view of an optional participant.
pub open spec fn opt_reviewer_view(r: Option<Reviewer>) -> Option<ReviewerView> {
    match r {
        Some(x) => Some(x@),
        None => None,
    }
}

impl Actor {
    /// The participant this actor stands for, in the given state.
    pub fn into_reviewer(self, state: ReviewState) -> (r: Option<Reviewer>)
        ensures
            opt_reviewer_view(r) == actor_reviewer(self, state),
    {
        let avatar_url = match self.avatar_url {
            Some(u) => u,
            None => String::new(),
        };
        let login = match self.login {
            Some(l) => l,
            None => match self.name {
                Some(n) => n,
                None => {
                    return None;
                },
            },
        };
        Some(Reviewer { login, avatar_url, state })
    }
}

/// The pending participant a review request names, if any.
pub open spec fn requested_of(r: ReviewRequest) -> Option<ReviewerView> {
    match r.requested_reviewer {
        Some(a) => actor_reviewer(a, ReviewState::Pending),
        None => None,
    }
}

/// The participant a submitted review names, if the review is shown.
pub open spec fn submitted_of(r: Review) -> Option<ReviewerView> {
    match review_state_of(r.state@) {
        Some(st) => match r.author {
            Some(a) => actor_reviewer(a, st),
            None => None,
        },
        None => None,
    }
}

/// Which submitted reviews are shown: an approval, a request for changes or
/// a comment by a user or team gives that participant (by login, else team
/// name) in that state; a review in any other state (`DISMISSED`,
/// `PENDING`, ...) or without an author is dropped.
pub proof fn lemma_submitted_reviews_shown(r: Review)
    ensures
        r.state@ == "APPROVED"@ && r.author is Some && (r.author.unwrap().login is Some || r.author.unwrap().name is Some)
            ==> (submitted_of(r) is Some && submitted_of(r).unwrap().state == ReviewState::Approved
            && submitted_of(r).unwrap().login == (if r.author.unwrap().login is Some {
            r.author.unwrap().login.unwrap()@
        } else {
            r.author.unwrap().name.unwrap()@
        })),
        r.state@ == "CHANGES_REQUESTED"@ && r.author is Some && (r.author.unwrap().login is Some || r.author.unwrap().name is Some)
            ==> (submitted_of(r) is Some && submitted_of(r).unwrap().state == ReviewState::ChangesRequested
            && submitted_of(r).unwrap().login == (if r.author.unwrap().login is Some {
            r.author.unwrap().login.unwrap()@
        } else {
            r.author.unwrap().name.unwrap()@
        })),
        r.state@ == "COMMENTED"@ && r.author is Some && (r.author.unwrap().login is Some || r.author.unwrap().name is Some)
            ==> (submitted_of(r) is Some && submitted_of(r).unwrap().state == ReviewState::Commented
            && submitted_of(r).unwrap().login == (if r.author.unwrap().login is Some {
            r.author.unwrap().login.unwrap()@
        } else {
            r.author.unwrap().name.unwrap()@
        })),
        submitted_of(r) is Some ==> (r.state@ == "APPROVED"@ || r.state@ == "CHANGES_REQUESTED"@ || r.state@
            == "COMMENTED"@) && r.author is Some,
{
    reveal_strlit("APPROVED");
    reveal_strlit("CHANGES_REQUESTED");
    reveal_strlit("COMMENTED");
    assert("APPROVED"@.len() == 8);
    assert("COMMENTED"@.len() == 9);
    assert("CHANGES_REQUESTED"@.len() == 17);
}

/// Every shown submitted review of a node yields its participant among the
/// node's submitted participants.
pub proof fn lemma_shown_review_listed(reviews: Seq<Review>, k: int)
    requires
        0 <= k < reviews.len(),
        submitted_of(reviews[k]) is Some,
    ensures
        reviews.filter_map(|r: Review| submitted_of(r)).contains(submitted_of(reviews[k]).unwrap()),
    decreases reviews.len(),
{
    let f = |r: Review| submitted_of(r);
    let rest = reviews.drop_last();
    if k == reviews.len() - 1 {
        let out = rest.filter_map(f) + seq![submitted_of(reviews[k]).unwrap()];
        assert(reviews.filter_map(f) == out);
        assert(out[out.len() - 1] == submitted_of(reviews[k]).unwrap());
    } else {
        assert(rest[k] == reviews[k]);
        lemma_shown_review_listed(rest, k);
        let inner = rest.filter_map(f);
        let q = choose|q: int| 0 <= q < inner.len() && inner[q] == submitted_of(reviews[k]).unwrap();
        match f(reviews.last()) {
            Some(x) => {
                assert(reviews.filter_map(f) == inner + seq![x]);
                assert((inner + seq![x])[q] == inner[q]);
            },
            None => {},
        }
    }
}

/// The CI state of a node: that of its last commit's rollup, or no checks.
pub open spec fn node_ci(commits: Seq<CommitNode>) -> CiState {
    if commits.len() == 0 {
        CiState::NoChecks
    } else {
        match commits[0].commit.status_check_rollup {
            Some(r) => ci_state_of(r.state@),
            None => CiState::NoChecks,
        }
    }
}

/// The stack membership of a node: present only with both an entry and a stack.
pub open spec fn node_stack(entry: Option<StackEntry>) -> Option<StackMembership> {
    match entry {
        Some(e) => match e.stack {
            Some(s) => Some(StackMembership { number: s.number, position: e.position, size: s.size }),
            None => None,
        },
        None => None,
    }
}

/// `pr` is what `node` maps to: the same repository, number, title, URL and
/// draft flag; CI, decision and stack as mapped above; and participants the
/// requested ones (pending) merged with the shown submitted reviews.
pub open spec fn maps_to(node: PrNode, pr: PullRequest) -> bool {
    &&& pr.repo == node.repository.name_with_owner
    &&& pr.number == node.number
    &&& pr.title == node.title
    &&& pr.url == node.url
    &&& pr.is_draft == node.is_draft
    &&& pr.ci == node_ci(node.commits.nodes@)
    &&& pr.decision == review_decision_of(opt_string_view(node.review_decision))
    &&& reviewer_views(pr.reviewers@) == first_per_login(
        node.review_requests.nodes@.filter_map(|r: ReviewRequest| requested_of(r))
            + node.latest_reviews.nodes@.filter_map(|r: Review| submitted_of(r)),
    )
    &&& pr.stack == node_stack(node.stack_entry)
}

fn requested_reviewers(requests: Vec<ReviewRequest>) -> (out: Vec<Reviewer>)
    ensures
        reviewer_views(out@) == requests@.filter_map(|r: ReviewRequest| requested_of(r)),
{
    let ghost all = requests@;
    let ghost f = |r: ReviewRequest| requested_of(r);
    let n = requests.len();
    let mut rest = requests;
    let mut out: Vec<Reviewer> = Vec::new();
    let mut i: usize = 0;
    assert(all.take(0).filter_map(f) =~= Seq::<ReviewerView>::empty());
    while rest.len() > 0
        invariant
            f == (|r: ReviewRequest| requested_of(r)),
            i + rest@.len() == all.len(),
            n == all.len(),
            rest@ == all.skip(i as int),
            reviewer_views(out@) == all.take(i as int).filter_map(f),
        decreases rest@.len(),
    {
        let request = rest.remove(0);
        assert(request == all[i as int]);
        assert(rest@ =~= all.skip(i as int + 1));
        proof {
            all.lemma_filter_map_take_succ(f, i as int);
        }
        match request.requested_reviewer {
            Some(actor) => {
                match actor.into_reviewer(ReviewState::Pending) {
                    Some(r) => {
                        out.push(r);
                        assert(reviewer_views(out@) =~= all.take(i as int).filter_map(f).push(r@));
                    },
                    None => {},
                }
            },
            None => {},
        }
        proof {
            assert(reviewer_views(out@) =~= all.take(i as int + 1).filter_map(f));
        }
        i = i + 1;
    }
    assert(all.take(all.len() as int) =~= all);
    out
}

fn submitted_reviewers(reviews: Vec<Review>) -> (out: Vec<Reviewer>)
    ensures
        reviewer_views(out@) == reviews@.filter_map(|r: Review| submitted_of(r)),
{
    let ghost all = reviews@;
    let ghost f = |r: Review| submitted_of(r);
    let n = reviews.len();
    let mut rest = reviews;
    let mut out: Vec<Reviewer> = Vec::new();
    let mut i: usize = 0;
    assert(all.take(0).filter_map(f) =~= Seq::<ReviewerView>::empty());
    while rest.len() > 0
        invariant
            f == (|r: Review| submitted_of(r)),
            i + rest@.len() == all.len(),
            n == all.len(),
            rest@ == all.skip(i as int),
            reviewer_views(out@) == all.take(i as int).filter_map(f),
        decreases rest@.len(),
    {
        let review = rest.remove(0);
        assert(review == all[i as int]);
        assert(rest@ =~= all.skip(i as int + 1));
        proof {
            all.lemma_filter_map_take_succ(f, i as int);
        }
        match review_state(review.state.as_str()) {
            Some(state) => {
                match review.author {
                    Some(actor) => {
                        match actor.into_reviewer(state) {
                            Some(r) => {
                                out.push(r);
                                assert(reviewer_views(out@) =~= all.take(i as int).filter_map(f).push(r@));
                            },
                            None => {},
                        }
                    },
                    None => {},
                }
            },
            None => {},
        }
        proof {
            assert(reviewer_views(out@) =~= all.take(i as int + 1).filter_map(f));
        }
        i = i + 1;
    }
    assert(all.take(all.len() as int) =~= all);
    out
}

impl PullRequest {
    /// Map one search node into a pull request.
    pub fn from_node(node: PrNode) -> (pr: PullRequest)
        ensures
            maps_to(node, pr),
    {
        let ci = if node.commits.nodes.len() > 0 {
            match &node.commits.nodes[0].commit.status_check_rollup {
                Some(rollup) => ci_state(rollup.state.as_str()),
                None => CiState::NoChecks,
            }
        } else {
            CiState::NoChecks
        };
        let decision = match &node.review_decision {
            Some(d) => review_decision(Some(d.as_str())),
            None => review_decision(None),
        };
        let stack = match &node.stack_entry {
            Some(entry) => match &entry.stack {
                Some(s) => Some(StackMembership { number: s.number, position: entry.position, size: s.size }),
                None => None,
            },
            None => None,
        };
        let PrNode { number, title, url, is_draft, repository, commits, review_requests, latest_reviews, .. } = node;
        let requested = requested_reviewers(review_requests.nodes);
        let reviewed = submitted_reviewers(latest_reviews.nodes);
        let reviewers = merge_reviewers(requested, reviewed);
        PullRequest {
            repo: repository.name_with_owner,
            number,
            title,
            url,
            is_draft,
            ci,
            decision,
            reviewers,
            stack,
        }
    }
}

/// `parts` joined with `sep` between neighbours.
pub open spec fn joined(parts: Seq<Seq<char>>, sep: Seq<char>) -> Seq<char>
    decreases parts.len(),
{
    if parts.len() == 0 {
        Seq::empty()
    } else if parts.len() == 1 {
        parts[0]
    } else {
        joined(parts.drop_last(), sep) + sep + parts.last()
    }
}

/// The error shown for a response that carries GraphQL errors.
pub open spec fn graphql_error_message(errors: Seq<GraphQlError>) -> Seq<char> {
    "GitHub: "@ + joined(errors.map_values(|e: GraphQlError| e.message@), "; "@)
}

/// The response carries at least one GraphQL error.
pub open spec fn reports_errors(parsed: GraphQlResponse) -> bool {
    match parsed.errors {
        Some(errors) => errors@.len() > 0,
        None => false,
    }
}

/// The nodes that have the shape of a pull request, in order.
pub open spec fn present_nodes(nodes: Seq<Option<PrNode>>) -> Seq<PrNode> {
    nodes.filter_map(|node: Option<PrNode>| node)
}

/// `prs` maps `nodes` one to one, in order.
pub open spec fn maps_all(nodes: Seq<PrNode>, prs: Seq<PullRequest>) -> bool {
    &&& nodes.len() == prs.len()
    &&& forall|k: int| 0 <= k < nodes.len() ==> maps_to(#[trigger] nodes[k], prs[k])
}

fn join_messages(errors: &Vec<GraphQlError>) -> (text: String)
    ensures
        text@ == graphql_error_message(errors@),
{
    let ghost parts = errors@.map_values(|e: GraphQlError| e.message@);
    let mut text = String::from_str("GitHub: ");
    let mut i: usize = 0;
    assert(parts.take(0) =~= Seq::<Seq<char>>::empty());
    while i < errors.len()
        invariant
            parts == errors@.map_values(|e: GraphQlError| e.message@),
            i <= errors@.len(),
            text@ == "GitHub: "@ + joined(parts.take(i as int), "; "@),
        decreases errors@.len() - i,
    {
        assert(parts.take(i as int + 1).drop_last() =~= parts.take(i as int));
        if i > 0 {
            text.append("; ");
        }
        text.append(errors[i].message.as_str());
        proof {
            if i == 0 {
                assert(parts.take(1) =~= seq![parts[0]]);
            }
            assert(text@ =~= "GitHub: "@ + joined(parts.take(i as int + 1), "; "@));
        }
        i = i + 1;
    }
    assert(parts.take(errors@.len() as int) =~= parts);
    text
}

/// Turn a decoded GraphQL response into pull requests and the total count.
///
/// GraphQL errors win; a response without data is an error; otherwise every
/// node that has the shape of a pull request is mapped, and the others are
/// skipped.
pub fn response_to_prs(parsed: GraphQlResponse) -> (res: Result<(Vec<PullRequest>, u64), String>)
    ensures
        reports_errors(parsed) ==> (res matches Err(e) && e@ == graphql_error_message(
            parsed.errors.unwrap()@,
        )),
        !reports_errors(parsed) && parsed.data is None ==> (res matches Err(e) && e@
            == "GitHub returned no data"@),
        !reports_errors(parsed) && parsed.data is Some ==> (res matches Ok((prs, total)) && total
            == parsed.data.unwrap().search.issue_count && maps_all(
            present_nodes(parsed.data.unwrap().search.nodes@),
            prs@,
        )),
{
    let GraphQlResponse { data, errors } = parsed;
    match &errors {
        Some(list) => {
            if list.len() > 0 {
                return Err(join_messages(list));
            }
        },
        None => {},
    }
    let data = match data {
        Some(d) => d,
        None => {
            return Err(String::from_str("GitHub returned no data"));
        },
    };
    let total = data.search.issue_count;
    let ghost all = data.search.nodes@;
    let ghost f = |node: Option<PrNode>| node;
    let n = data.search.nodes.len();
    let mut rest = data.search.nodes;
    let mut prs: Vec<PullRequest> = Vec::new();
    let mut i: usize = 0;
    assert(all.take(0).filter_map(f) =~= Seq::<PrNode>::empty());
    while rest.len() > 0
        invariant
            f == (|node: Option<PrNode>| node),
            n == all.len(),
            i + rest@.len() == all.len(),
            rest@ == all.skip(i as int),
            maps_all(all.take(i as int).filter_map(f), prs@),
        decreases rest@.len(),
    {
        let entry = rest.remove(0);
        assert(entry == all[i as int]);
        assert(rest@ =~= all.skip(i as int + 1));
        proof {
            all.lemma_filter_map_take_succ(f, i as int);
        }
        let ghost before = all.take(i as int).filter_map(f);
        match entry {
            Some(node) => {
                let ghost given = node;
                let pr = PullRequest::from_node(node);
                prs.push(pr);
                proof {
                    let after = all.take(i as int + 1).filter_map(f);
                    assert(after =~= before.push(given));
                    assert forall|k: int| 0 <= k < after.len() implies maps_to(#[trigger] after[k], prs@[k]) by {
                        if k < before.len() {
                            assert(after[k] == before[k]);
                        }
                    }
                }
            },
            None => {
                assert(all.take(i as int + 1).filter_map(f) =~= before);
            },
        }
        i = i + 1;
    }
    assert(all.take(all.len() as int) =~= all);
    Ok((prs, total))
}

} // verus!
