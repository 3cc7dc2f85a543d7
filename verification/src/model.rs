//! Domain types and the rules that turn GitHub data into a status.

use vstd::prelude::*;

verus! {

/// Combined CI result of the PR's head commit.
#[derive(Debug, Clone, Copy, PartialEq, Eq, Structural)]
pub enum CiState {
    Success,
    Failure,
    Pending,
    /// No checks are configured.
    NoChecks,
}

/// GitHub's overall review decision for the PR.
#[derive(Debug, Clone, Copy, PartialEq, Eq, Structural)]
pub enum ReviewDecision {
    Approved,
    ChangesRequested,
    /// Reviews are required but not complete.
    Required,
    /// The repository does not require reviews.
    NotRequired,
}

/// Where one participant stands.
#[derive(Debug, Clone, Copy, PartialEq, Eq, Structural)]
pub enum ReviewState {
    Pending,
    Approved,
    ChangesRequested,
    Commented,
}

/// A person or team that was asked to review, or that has reviewed.
#[derive(Debug, Clone, PartialEq, Eq)]
pub struct Reviewer {
    /// User login or team name.
    pub login: String,
    pub avatar_url: String,
    pub state: ReviewState,
}

/// What a participant record holds.
pub struct ReviewerView {
    pub login: Seq<char>,
    pub avatar_url: Seq<char>,
    pub state: ReviewState,
}

impl View for Reviewer {
    type V = ReviewerView;

    open spec fn view(&self) -> ReviewerView {
        ReviewerView { login: self.login@, avatar_url: self.avatar_url@, state: self.state }
    }
}

/// The views of a list of participants.
pub open spec fn reviewer_views(s: Seq<Reviewer>) -> Seq<ReviewerView> {
    s.map_values(|r: Reviewer| r@)
}

/// Native GitHub stack membership. Position is one-based, starting at the base.
#[derive(Debug, Clone, Copy, PartialEq, Eq, Structural)]
pub struct StackMembership {
    /// Stack number, unique within the repository.
    pub number: u64,
    pub position: u64,
    /// Full stack size, including PRs outside the currently fetched list.
    pub size: u64,
}

/// One open pull request authored by the user.
#[derive(Debug, Clone, PartialEq, Eq)]
pub struct PullRequest {
    /// `owner/name`.
    pub repo: String,
    pub number: u64,
    pub title: String,
    pub url: String,
    pub is_draft: bool,
    pub ci: CiState,
    pub decision: ReviewDecision,
    pub reviewers: Vec<Reviewer>,
    pub stack: Option<StackMembership>,
}

/// The single colour shown next to a PR.
#[derive(Debug, Clone, Copy, PartialEq, Eq, Hash, Structural)]
pub enum Status {
    /// Green: nothing is holding it back.
    Ready,
    /// Red: CI failed or changes were requested.
    Blocked,
    /// Yellow: waiting for CI or reviews.
    Waiting,
    /// Grey: draft.
    Draft,
}

/// The status rule: a draft is grey whatever else holds; failing CI or
/// requested changes block; passing (or absent) CI together with approval
/// (or no review requirement) is ready; anything else is waiting.
pub open spec fn status_of(is_draft: bool, ci: CiState, decision: ReviewDecision) -> Status {
    if is_draft {
        Status::Draft
    } else if ci == CiState::Failure || decision == ReviewDecision::ChangesRequested {
        Status::Blocked
    } else if (ci == CiState::Success || ci == CiState::NoChecks) && (decision
        == ReviewDecision::Approved || decision == ReviewDecision::NotRequired) {
        Status::Ready
    } else {
        Status::Waiting
    }
}

/// The status rule, case by case: a draft is grey whatever else holds;
/// otherwise failing CI or requested changes make it red whatever the other
/// one says; passing or absent CI with approval or no review requirement
/// makes it green; and every other combination (pending CI, or a review
/// still required) is yellow.
pub proof fn lemma_status_rule(is_draft: bool, ci: CiState, decision: ReviewDecision)
    ensures
        is_draft ==> status_of(is_draft, ci, decision) == Status::Draft,
        !is_draft && decision == ReviewDecision::ChangesRequested ==> status_of(is_draft, ci, decision) == Status::Blocked,
        !is_draft && ci == CiState::Failure ==> status_of(is_draft, ci, decision) == Status::Blocked,
        !is_draft && (ci == CiState::Success || ci == CiState::NoChecks) && (decision == ReviewDecision::Approved
            || decision == ReviewDecision::NotRequired) ==> status_of(is_draft, ci, decision) == Status::Ready,
        !is_draft && ci == CiState::Pending && decision != ReviewDecision::ChangesRequested ==> status_of(
            is_draft,
            ci,
            decision,
        ) == Status::Waiting,
        !is_draft && ci != CiState::Failure && decision == ReviewDecision::Required ==> status_of(
            is_draft,
            ci,
            decision,
        ) == Status::Waiting,
{
}

impl Status {
    /// Collapse CI and review state into one colour.
    pub fn derive(pr: &PullRequest) -> (status: Status)
        ensures
            status == status_of(pr.is_draft, pr.ci, pr.decision),
    {
        if pr.is_draft {
            return Status::Draft;
        }
        if pr.ci == CiState::Failure || pr.decision == ReviewDecision::ChangesRequested {
            return Status::Blocked;
        }
        let ci_ok = pr.ci == CiState::Success || pr.ci == CiState::NoChecks;
        let review_ok = pr.decision == ReviewDecision::Approved || pr.decision
            == ReviewDecision::NotRequired;
        if ci_ok && review_ok {
            return Status::Ready;
        }
        Status::Waiting
    }
}

/// Some participant in `s` has the login `login`.
pub open spec fn has_login(s: Seq<ReviewerView>, login: Seq<char>) -> bool {
    exists|j: int| 0 <= j < s.len() && (#[trigger] s[j]).login == login
}

/// The first participant of each login, in the order of `s`.
pub open spec fn first_per_login(s: Seq<ReviewerView>) -> Seq<ReviewerView>
    decreases s.len(),
{
    if s.len() == 0 {
        Seq::empty()
    } else {
        let earlier = first_per_login(s.drop_last());
        if has_login(s.drop_last(), s.last().login) {
            earlier
        } else {
            earlier.push(s.last())
        }
    }
}

/// The logins of `first_per_login(s)` are exactly those of `s`.
pub proof fn lemma_first_per_login_logins(s: Seq<ReviewerView>, login: Seq<char>)
    ensures
        has_login(first_per_login(s), login) == has_login(s, login),
    decreases s.len(),
{
    if s.len() > 0 {
        let init = s.drop_last();
        let last = s.last();
        lemma_first_per_login_logins(init, login);
        let earlier = first_per_login(init);
        let out = first_per_login(s);
        assert(out == earlier || out == earlier.push(last));
        if has_login(s, login) {
            let j = choose|j: int| 0 <= j < s.len() && (#[trigger] s[j]).login == login;
            if j < s.len() - 1 {
                assert(init[j] == s[j]);
                assert(has_login(init, login));
                let k = choose|k: int| 0 <= k < earlier.len() && (#[trigger] earlier[k]).login == login;
                assert(out[k] == earlier[k]);
            } else if has_login(init, last.login) {
                assert(has_login(init, login));
                let k = choose|k: int| 0 <= k < earlier.len() && (#[trigger] earlier[k]).login == login;
                assert(out[k] == earlier[k]);
            } else {
                assert(out[earlier.len() as int] == last);
            }
            assert(has_login(out, login));
        }
        if has_login(out, login) {
            let j = choose|j: int| 0 <= j < out.len() && (#[trigger] out[j]).login == login;
            if j < earlier.len() {
                assert(out[j] == earlier[j]);
                assert(has_login(earlier, login));
                let k = choose|k: int| 0 <= k < init.len() && (#[trigger] init[k]).login == login;
                assert(s[k] == init[k]);
            } else {
                assert(s[s.len() - 1] == last);
            }
            assert(has_login(s, login));
        }
    }
}

/// Merge requested participants with submitted reviews.
///
/// Current requests come first and take precedence over earlier submitted
/// reviews: asking someone to review again makes their review pending.
pub fn merge_reviewers(requested: Vec<Reviewer>, reviewed: Vec<Reviewer>) -> (merged: Vec<
    Reviewer,
>)
    ensures
        reviewer_views(merged@) == first_per_login(reviewer_views(requested@) + reviewer_views(reviewed@)),
{
    let ghost all = reviewer_views(requested@) + reviewer_views(reviewed@);
    let mut pending = requested;
    let mut rest = reviewed;
    pending.append(&mut rest);
    assert(reviewer_views(pending@) =~= all);
    let mut out: Vec<Reviewer> = Vec::new();
    let mut i: usize = 0;
    let n = pending.len();
    while pending.len() > 0
        invariant
            n == all.len(),
            i + pending@.len() == n,
            reviewer_views(pending@) == all.skip(i as int),
            reviewer_views(out@) == first_per_login(all.take(i as int)),
        decreases pending@.len(),
    {
        let ghost pv = reviewer_views(pending@);
        let reviewer = pending.remove(0);
        assert(pv[0] == reviewer@);
        assert(reviewer@ == all[i as int]);
        assert(reviewer_views(pending@) =~= pv.drop_first());
        let ghost ov = reviewer_views(out@);
        let mut seen = false;
        let mut k: usize = 0;
        while k < out.len()
            invariant
                k <= out@.len(),
                ov == reviewer_views(out@),
                seen == has_login(ov.take(k as int), reviewer.login@),
            decreases out@.len() - k,
        {
            if out[k].login == reviewer.login {
                seen = true;
            }
            proof {
                let t = ov.take(k as int + 1);
                let t0 = ov.take(k as int);
                if has_login(t, reviewer.login@) && !has_login(t0, reviewer.login@) {
                    let j = choose|j: int| 0 <= j < t.len() && (#[trigger] t[j]).login == reviewer.login@;
                    if j < k {
                        assert(t0[j] == t[j]);
                    }
                }
                if has_login(t0, reviewer.login@) {
                    let j = choose|j: int| 0 <= j < k && (#[trigger] t0[j]).login == reviewer.login@;
                    assert(t[j] == t0[j]);
                }
                assert(ov[k as int] == out@[k as int]@);
                if ov[k as int].login == reviewer.login@ {
                    assert(t[k as int] == ov[k as int]);
                }
            }
            k = k + 1;
        }
        assert(ov.take(ov.len() as int) =~= ov);
        proof {
            let prefix = all.take(i as int);
            lemma_first_per_login_logins(prefix, reviewer.login@);
            assert(all.take(i as int + 1).drop_last() =~= prefix);
            assert(all.take(i as int + 1).last() == reviewer@);
        }
        if !seen {
            out.push(reviewer);
            assert(reviewer_views(out@) =~= ov.push(all[i as int]));
        }
        proof {
            assert(all.skip(i as int + 1) =~= all.skip(i as int).drop_first());
        }
        i = i + 1;
    }
    assert(all.take(n as int) =~= all);
    out
}

/// Participants of `s` whose login does not occur in `requested`.
pub open spec fn not_requested(s: Seq<ReviewerView>, requested: Seq<ReviewerView>) -> Seq<ReviewerView> {
    s.filter(|r: ReviewerView| !has_login(requested, r.login))
}

proof fn lemma_has_login_concat(a: Seq<ReviewerView>, b: Seq<ReviewerView>, login: Seq<char>)
    ensures
        has_login(a + b, login) == (has_login(a, login) || has_login(b, login)),
{
    let ab = a + b;
    if has_login(ab, login) {
        let j = choose|j: int| 0 <= j < ab.len() && (#[trigger] ab[j]).login == login;
        if j < a.len() {
            assert(a[j] == ab[j]);
        } else {
            assert(b[j - a.len()] == ab[j]);
        }
    }
    if has_login(a, login) {
        let j = choose|j: int| 0 <= j < a.len() && (#[trigger] a[j]).login == login;
        assert(ab[j] == a[j]);
    }
    if has_login(b, login) {
        let j = choose|j: int| 0 <= j < b.len() && (#[trigger] b[j]).login == login;
        assert(ab[j + a.len()] == b[j]);
    }
}

proof fn lemma_has_login_not_requested(s: Seq<ReviewerView>, requested: Seq<ReviewerView>, login: Seq<char>)
    requires
        !has_login(requested, login),
    ensures
        has_login(not_requested(s, requested), login) == has_login(s, login),
    decreases s.len(),
{
    let pred = |r: ReviewerView| !has_login(requested, r.login);
    if s.len() > 0 {
        let init = s.drop_last();
        lemma_has_login_not_requested(init, requested, login);
        assert(init.push(s.last()) =~= s);
        init.lemma_filter_push(s.last(), pred);
        lemma_has_login_concat(init, seq![s.last()], login);
        assert(init + seq![s.last()] =~= s);
        let f = init.filter(pred);
        lemma_has_login_concat(f, seq![s.last()], login);
        assert(f + seq![s.last()] =~= f.push(s.last()));
        if has_login(seq![s.last()], login) {
            let j = choose|j: int| 0 <= j < 1 && (#[trigger] seq![s.last()][j]).login == login;
            assert(seq![s.last()][j] == s.last());
        }
        if s.last().login == login {
            assert(seq![s.last()][0] == s.last());
        }
    } else {
        assert(not_requested(s, requested) =~= s) by {
            reveal(Seq::filter);
        }
    }
}

/// Requests take precedence: merging gives each requested login once, in
/// request order and with its requested state, followed by the submitted
/// reviews of everybody who was not requested, each login once.
pub proof fn lemma_requests_take_precedence(requested: Seq<ReviewerView>, reviewed: Seq<ReviewerView>)
    ensures
        first_per_login(requested + reviewed) == first_per_login(requested) + first_per_login(
            not_requested(reviewed, requested),
        ),
    decreases reviewed.len(),
{
    let pred = |r: ReviewerView| !has_login(requested, r.login);
    if reviewed.len() == 0 {
        assert(requested + reviewed =~= requested);
        assert(not_requested(reviewed, requested) =~= reviewed) by {
            reveal(Seq::filter);
        }
        assert(first_per_login(requested) + first_per_login(reviewed) =~= first_per_login(
            requested,
        ));
    } else {
        let init = reviewed.drop_last();
        let x = reviewed.last();
        lemma_requests_take_precedence(requested, init);
        assert((requested + reviewed).drop_last() =~= requested + init);
        assert((requested + reviewed).last() == x);
        assert(init.push(x) =~= reviewed);
        init.lemma_filter_push(x, pred);
        lemma_has_login_concat(requested, init, x.login);
        let f = not_requested(init, requested);
        if !has_login(requested, x.login) {
            lemma_has_login_not_requested(init, requested, x.login);
            assert(f.push(x).drop_last() =~= f);
            assert(f.push(x).last() == x);
            assert(first_per_login(requested) + first_per_login(f).push(x) =~= (first_per_login(
                requested,
            ) + first_per_login(f)).push(x));
        }
    }
}

/// Each login appears at most once in a merged participant list.
pub proof fn lemma_first_per_login_distinct(s: Seq<ReviewerView>)
    ensures
        forall|i: int, j: int|
            0 <= i < j < first_per_login(s).len() ==> (#[trigger] first_per_login(s)[i]).login
                != (#[trigger] first_per_login(s)[j]).login,
    decreases s.len(),
{
    if s.len() > 0 {
        let init = s.drop_last();
        lemma_first_per_login_distinct(init);
        lemma_first_per_login_logins(init, s.last().login);
        let earlier = first_per_login(init);
        let out = first_per_login(s);
        if !has_login(init, s.last().login) {
            assert forall|i: int, j: int| 0 <= i < j < out.len() implies (#[trigger] out[i]).login
                != (#[trigger] out[j]).login by {
                if j == earlier.len() {
                    assert(out[i] == earlier[i]);
                    assert(out[j] == s.last());
                } else {
                    assert(out[i] == earlier[i]);
                    assert(out[j] == earlier[j]);
                }
            }
        }
    }
}

/// Everything the main thread needs to render the menu.
#[derive(Debug, Clone)]
pub struct Snapshot {
    pub prs: Vec<PullRequest>,
    /// Total open PRs matched by the search, which may exceed `prs.len()`
    /// past the 50-PR menu cap.
    pub total: usize,
    /// Local wall-clock time of the last successful fetch, `HH:MM`.
    pub updated_at: Option<String>,
    /// Message of the most recent failed fetch, cleared on success.
    pub error: Option<String>,
}

impl Default for Snapshot {
    /// Nothing loaded yet: no PRs, no total, no timestamp, no error.
    fn default() -> (snapshot: Snapshot)
        ensures
            snapshot.prs@.len() == 0,
            snapshot.total == 0,
            snapshot.updated_at.is_none(),
            snapshot.error.is_none(),
    {
        Snapshot { prs: Vec::new(), total: 0, updated_at: None, error: None }
    }
}

impl Snapshot {
    /// Apply a successful fetch: the new list replaces the old one, and any
    /// error from an earlier cycle is cleared.
    pub fn loaded(&mut self, prs: Vec<PullRequest>, total: usize, at: String)
        ensures
            final(self).prs@ == prs@,
            final(self).total == total,
            final(self).updated_at == Some(at),
            final(self).error.is_none(),
    {
        self.prs = prs;
        self.total = total;
        self.updated_at = Some(at);
        self.error = None;
    }

    /// Apply a failed fetch: show the message but keep the last good list, so
    /// a transient network blip does not empty the menu.
    pub fn failed(&mut self, message: String)
        ensures
            final(self).prs == old(self).prs,
            final(self).total == old(self).total,
            final(self).updated_at == old(self).updated_at,
            final(self).error == Some(message),
    {
        self.error = Some(message);
    }
}

} // verus!
