//! Stable repository/stack hierarchy for the popup table.
//!
//! Repositories come in ascending order of their names. Inside a repository
//! each stack stands at the position of its most recent member in the
//! incoming activity order, and its members run from base to tip.

use vstd::prelude::*;
use crate::model::PullRequest;
use crate::order::{
    bytes_less, bytes_lt, lemma_str_lt_order, lemma_strictly_sorted_exists,
    lemma_strictly_sorted_unique, str_lt, strictly_sorted,
};
use crate::count::{
    count_upto, fibre_counts, lemma_count_all, lemma_count_ext, lemma_count_none, lemma_count_single,
    lemma_fibres, lemma_listing_len, lemma_sum_ext, owned_below, owned_by, sum_upto,
};
use crate::text::str_eq;
use vstd::utf8::encode_utf8;

verus! {

/// A disclosure identity survives refreshes and cannot collide across repositories.
#[derive(Debug, Clone, PartialEq, Eq, Hash)]
pub enum GroupId {
    Repo(String),
    Stack { repo: String, number: u64 },
}

/// What a `GroupId` identifies.
pub enum GroupKey {
    Repo(Seq<char>),
    Stack { repo: Seq<char>, number: u64 },
}

impl View for GroupId {
    type V = GroupKey;

    open spec fn view(&self) -> GroupKey {
        match self {
            GroupId::Repo(repo) => GroupKey::Repo(repo@),
            GroupId::Stack { repo, number } => GroupKey::Stack { repo: repo@, number: *number },
        }
    }
}

/// One line of the popup table.
#[derive(Debug)]
pub enum Row<'a> {
    Repository { id: GroupId, repo: &'a str, count: usize },
    Stack { id: GroupId, number: u64, shown: usize, total: u64 },
    PullRequest { pr: &'a PullRequest, in_stack: bool },
}

/// What a `Row` shows.
pub enum RowView {
    Repository { id: GroupKey, repo: Seq<char>, count: nat },
    Stack { id: GroupKey, number: u64, shown: nat, total: u64 },
    PullRequest { pr: PullRequest, in_stack: bool },
}

impl<'a> View for Row<'a> {
    type V = RowView;

    open spec fn view(&self) -> RowView {
        match self {
            Row::Repository { id, repo, count } => RowView::Repository {
                id: id@,
                repo: repo@,
                count: *count as nat,
            },
            Row::Stack { id, number, shown, total } => RowView::Stack {
                id: id@,
                number: *number,
                shown: *shown as nat,
                total: *total,
            },
            Row::PullRequest { pr, in_stack } => RowView::PullRequest { pr: **pr, in_stack: *in_stack },
        }
    }
}

/// The views of a sequence of rows.
pub open spec fn rows_view<'a>(rows: Seq<Row<'a>>) -> Seq<RowView> {
    rows.map_values(|row: Row<'a>| row@)
}

/// `rs` lists every repository of `prs` once, in ascending order.
pub open spec fn repo_order(rs: Seq<Seq<char>>, prs: Seq<PullRequest>) -> bool {
    &&& forall|i: int, j: int| 0 <= i < j < rs.len() ==> str_lt(#[trigger] rs[i], #[trigger] rs[j])
    &&& forall|r: Seq<char>|
        rs.contains(r) <==> exists|i: int| 0 <= i < prs.len() && (#[trigger] prs[i]).repo@ == r
}

/// The repositories of `prs`, each once, in ascending order.
pub open spec fn sorted_repos(prs: Seq<PullRequest>) -> Seq<Seq<char>> {
    choose|rs: Seq<Seq<char>>| repo_order(rs, prs)
}

/// Membership in repository `r`.
pub open spec fn in_repo(r: Seq<char>) -> spec_fn(PullRequest) -> bool {
    |p: PullRequest| p.repo@ == r
}

/// The pull requests of repository `r`, in activity order.
pub open spec fn members(prs: Seq<PullRequest>, r: Seq<char>) -> Seq<PullRequest> {
    prs.filter(in_repo(r))
}

/// The repositories named by a list of indices.
pub open spec fn repos_at(prs: Seq<PullRequest>, idx: Seq<usize>) -> Seq<Seq<char>> {
    idx.map_values(|i: usize| prs[i as int].repo@)
}

proof fn lemma_sorted_repos(prs: Seq<PullRequest>, rs: Seq<Seq<char>>)
    requires
        repo_order(rs, prs),
    ensures
        sorted_repos(prs) == rs,
{
    let lt = |a: Seq<char>, b: Seq<char>| str_lt(a, b);
    let other = sorted_repos(prs);
    assert(repo_order(other, prs));
    lemma_str_lt_order();
    assert forall|x: Seq<char>, y: Seq<char>, z: Seq<char>| #[trigger] lt(x, y) && #[trigger] lt(y, z) implies lt(x, z) by {
        assert(str_lt(x, y) && str_lt(y, z));
    }
    assert forall|x: Seq<char>| rs.contains(x) <==> other.contains(x) by {
        if rs.contains(x) {
            let i = choose|i: int| 0 <= i < prs.len() && (#[trigger] prs[i]).repo@ == x;
        }
        if other.contains(x) {
            let i = choose|i: int| 0 <= i < prs.len() && (#[trigger] prs[i]).repo@ == x;
        }
    }
    assert(strictly_sorted(rs, lt));
    assert(strictly_sorted(other, lt));
    lemma_strictly_sorted_unique(rs, other, lt);
}

/// Indices of one pull request per repository, in ascending repository order.
fn sorted_repo_indices(prs: &[PullRequest]) -> (reps: Vec<usize>)
    ensures
        forall|k: int| 0 <= k < reps@.len() ==> reps@[k] < prs@.len(),
        repo_order(repos_at(prs@, reps@), prs@),
{
    let mut reps: Vec<usize> = Vec::new();
    let mut j: usize = 0;
    proof {
        lemma_str_lt_order();
    }
    while j < prs.len()
        invariant
            j <= prs@.len(),
            forall|k: int| 0 <= k < reps@.len() ==> reps@[k] < j,
            forall|a: int, b: int|
                0 <= a < b < reps@.len() ==> str_lt(
                    #[trigger] repos_at(prs@, reps@)[a],
                    #[trigger] repos_at(prs@, reps@)[b],
                ),
            forall|r: Seq<char>|
                repos_at(prs@, reps@).contains(r) <==> exists|i: int|
                    0 <= i < j && (#[trigger] prs@[i]).repo@ == r,
            forall|a: Seq<char>| !#[trigger] str_lt(a, a),
            forall|a: Seq<char>, b: Seq<char>, c: Seq<char>|
                #[trigger] str_lt(a, b) && #[trigger] str_lt(b, c) ==> str_lt(a, c),
            forall|a: Seq<char>, b: Seq<char>|
                a != b ==> #[trigger] str_lt(a, b) || #[trigger] str_lt(b, a),
        decreases prs@.len() - j,
    {
        let ghost keys = repos_at(prs@, reps@);
        let x = prs[j].repo.as_str();
        let xb = x.as_bytes();
        let mut pos: usize = 0;
        let mut found = false;
        let mut before = false;
        while pos < reps.len() && !found && !before
            invariant
                keys == repos_at(prs@, reps@),
                pos <= reps@.len(),
                forall|k: int| 0 <= k < reps@.len() ==> reps@[k] < j,
                j < prs@.len(),
                x@ == prs@[j as int].repo@,
                xb@ == encode_utf8(x@),
                !(found && before),
                found ==> pos < keys.len() && keys[pos as int] == x@,
                before ==> pos < keys.len() && str_lt(x@, keys[pos as int]),
                forall|k: int| 0 <= k < pos ==> str_lt(#[trigger] keys[k], x@),
            decreases reps@.len() - pos + (if found || before { 0int } else { 1int }),
        {
            let y = prs[reps[pos]].repo.as_str();
            assert(y@ == keys[pos as int]);
            if str_eq(x, y) {
                found = true;
            } else if bytes_less(xb, y.as_bytes()) {
                assert(str_lt(x@, y@));
                before = true;
            } else {
                proof {
                    lemma_str_lt_order();
                    assert(!str_lt(x@, y@));
                    assert(x@ != y@);
                    assert(str_lt(y@, x@) || str_lt(x@, y@));
                    assert(str_lt(keys[pos as int], x@));
                }
                pos = pos + 1;
            }
        }
        if !found {
            proof {
                if pos < reps@.len() {
                    assert(str_lt(x@, keys[pos as int]));
                }
            }
            reps.insert(pos, j);
            proof {
                let nk = repos_at(prs@, reps@);
                assert(nk =~= keys.insert(pos as int, x@));
                assert forall|a: int, b: int| 0 <= a < b < nk.len() implies str_lt(#[trigger] nk[a], #[trigger] nk[b]) by {
                    if b < pos {
                        assert(str_lt(keys[a], keys[b]));
                        assert(nk[a] == keys[a] && nk[b] == keys[b]);
                    } else if b == pos {
                        assert(str_lt(keys[a], x@));
                        assert(nk[a] == keys[a] && nk[b] == x@);
                    } else if a < pos {
                        assert(nk[a] == keys[a] && nk[b] == keys[b - 1]);
                        assert(str_lt(keys[a], x@));
                        assert(str_lt(x@, keys[pos as int]));
                        assert(str_lt(keys[a], keys[pos as int]));
                        if b - 1 > pos {
                            assert(str_lt(keys[pos as int], keys[b - 1]));
                            assert(str_lt(keys[pos as int], keys[b - 1]));
                        }
                        assert(str_lt(keys[a], keys[b - 1]));
                    } else if a == pos {
                        assert(nk[a] == x@ && nk[b] == keys[b - 1]);
                        assert(str_lt(x@, keys[pos as int]));
                        if b - 1 > pos {
                            assert(str_lt(keys[pos as int], keys[b - 1]));
                            assert(str_lt(keys[pos as int], keys[b - 1]));
                        }
                        assert(str_lt(x@, keys[b - 1]));
                    } else {
                        assert(nk[a] == keys[a - 1] && nk[b] == keys[b - 1]);
                        assert(str_lt(keys[a - 1], keys[b - 1]));
                    }
                }
                assert forall|r: Seq<char>| nk.contains(r) <==> exists|i: int|
                    0 <= i < j + 1 && (#[trigger] prs@[i]).repo@ == r by {
                    if nk.contains(r) {
                        let q = choose|q: int| 0 <= q < nk.len() && nk[q] == r;
                        if q < pos {
                            assert(keys[q] == r);
                            assert(keys.contains(r));
                        } else if q > pos {
                            assert(keys[q - 1] == r);
                            assert(keys.contains(r));
                        }
                    }
                    if exists|i: int| 0 <= i < j + 1 && (#[trigger] prs@[i]).repo@ == r {
                        let i = choose|i: int| 0 <= i < j + 1 && (#[trigger] prs@[i]).repo@ == r;
                        if i < j {
                            assert(keys.contains(r));
                            let q = choose|q: int| 0 <= q < keys.len() && keys[q] == r;
                            if q < pos {
                                assert(nk[q] == r);
                            } else {
                                assert(nk[q + 1] == r);
                            }
                        } else {
                            assert(nk[pos as int] == r);
                        }
                    }
                }
            }
        } else {
            proof {
                let y = keys[pos as int];
                assert forall|r: Seq<char>| keys.contains(r) <==> exists|i: int|
                    0 <= i < j + 1 && (#[trigger] prs@[i]).repo@ == r by {
                    if exists|i: int| 0 <= i < j + 1 && (#[trigger] prs@[i]).repo@ == r {
                        let i = choose|i: int| 0 <= i < j + 1 && (#[trigger] prs@[i]).repo@ == r;
                        if i == j {
                            assert(keys[pos as int] == r);
                        }
                    }
                }
            }
        }
        j = j + 1;
    }
    reps
}

/// Whether `key` is among the collapsed groups.
pub open spec fn is_collapsed(collapsed: Seq<GroupId>, key: GroupKey) -> bool {
    exists|i: int| 0 <= i < collapsed.len() && (#[trigger] collapsed[i])@ == key
}

fn contains_group(collapsed: &[GroupId], id: &GroupId) -> (res: bool)
    ensures
        res == is_collapsed(collapsed@, id@),
{
    let mut i: usize = 0;
    while i < collapsed.len()
        invariant
            i <= collapsed@.len(),
            forall|k: int| 0 <= k < i ==> (#[trigger] collapsed@[k])@ != id@,
        decreases collapsed@.len() - i,
    {
        let same = match (&collapsed[i], id) {
            (GroupId::Repo(a), GroupId::Repo(b)) => str_eq(a.as_str(), b.as_str()),
            (GroupId::Stack { repo: a, number: x }, GroupId::Stack { repo: b, number: y }) => *x
                == *y && str_eq(a.as_str(), b.as_str()),
            _ => false,
        };
        if same {
            assert(collapsed@[i as int]@ == id@);
            return true;
        }
        i = i + 1;
    }
    false
}

/// The pull requests named by a list of indices.
pub open spec fn pick(prs: Seq<PullRequest>, idx: Seq<usize>) -> Seq<PullRequest> {
    idx.map_values(|i: usize| prs[i as int])
}

fn member_indices(prs: &[PullRequest], repo: &str) -> (idx: Vec<usize>)
    ensures
        forall|k: int| 0 <= k < idx@.len() ==> idx@[k] < prs@.len(),
        pick(prs@, idx@) == members(prs@, repo@),
{
    let ghost pred = in_repo(repo@);
    let mut idx: Vec<usize> = Vec::new();
    let mut j: usize = 0;
    assert(prs@.take(0).filter(pred) =~= Seq::<PullRequest>::empty()) by {
        reveal(Seq::filter);
    }
    while j < prs.len()
        invariant
            j <= prs@.len(),
            pred == in_repo(repo@),
            forall|k: int| 0 <= k < idx@.len() ==> idx@[k] < j,
            pick(prs@, idx@) == prs@.take(j as int).filter(pred),
        decreases prs@.len() - j,
    {
        proof {
            assert(prs@.take(j as int + 1) =~= prs@.take(j as int).push(prs@[j as int]));
            prs@.take(j as int).lemma_filter_push(prs@[j as int], pred);
        }
        if str_eq(prs[j].repo.as_str(), repo) {
            idx.push(j);
            assert(pick(prs@, idx@) =~= prs@.take(j as int).filter(pred).push(prs@[j as int]));
        }
        j = j + 1;
    }
    assert(prs@.take(prs@.len() as int) =~= prs@);
    idx
}

/// Membership of `p` in stack `n`.
pub open spec fn in_stack(p: PullRequest, n: u64) -> bool {
    match p.stack {
        Some(s) => s.number == n,
        None => false,
    }
}

/// Position of `p` in its stack (one-based), or 0 outside any stack.
pub open spec fn stack_position(p: PullRequest) -> u64 {
    match p.stack {
        Some(s) => s.position,
        None => 0,
    }
}

/// Full size of the stack of `p`, or 0 outside any stack.
pub open spec fn stack_size(p: PullRequest) -> u64 {
    match p.stack {
        Some(s) => s.size,
        None => 0,
    }
}

/// `m[i]` is the most recent member of its stack: no earlier PR of `m`
/// belongs to the same stack.
pub open spec fn starts_stack(m: Seq<PullRequest>, i: int) -> bool {
    match m[i].stack {
        Some(s) => forall|k: int| 0 <= k < i ==> !in_stack(#[trigger] m[k], s.number),
        None => false,
    }
}

/// Base-to-tip order within a stack: by position, and for equal positions
/// in activity order.
pub open spec fn before_in_stack(m: Seq<PullRequest>, a: int, b: int) -> bool {
    stack_position(m[a]) < stack_position(m[b]) || (stack_position(m[a]) == stack_position(m[b])
        && a < b)
}

/// `g` lists the members of stack `n` in `m` (as indices), base to tip.
pub open spec fn stack_order(m: Seq<PullRequest>, n: u64, g: Seq<int>) -> bool {
    &&& forall|a: int, b: int| 0 <= a < b < g.len() ==> before_in_stack(m, #[trigger] g[a], #[trigger] g[b])
    &&& forall|j: int| g.contains(j) <==> 0 <= j < m.len() && in_stack(m[j], n)
}

/// The members of stack `n` in `m` (as indices), base to tip.
pub open spec fn stack_members(m: Seq<PullRequest>, n: u64) -> Seq<int> {
    choose|g: Seq<int>| stack_order(m, n, g)
}

/// Largest full size among the PRs at `g` (0 when `g` is empty).
pub open spec fn max_size(m: Seq<PullRequest>, g: Seq<int>) -> u64
    decreases g.len(),
{
    if g.len() == 0 {
        0
    } else {
        let a = max_size(m, g.drop_last());
        let b = stack_size(m[g.last()]);
        if a >= b {
            a
        } else {
            b
        }
    }
}

/// The rows of stack `n` of repository `r`: a header with the number of
/// members shown and the largest full size, then, unless the stack is
/// collapsed, its members from base to tip.
pub open spec fn stack_rows(m: Seq<PullRequest>, r: Seq<char>, n: u64, collapsed: Seq<GroupId>) -> Seq<RowView> {
    let g = stack_members(m, n);
    let id = GroupKey::Stack { repo: r, number: n };
    seq![RowView::Stack { id, number: n, shown: g.len(), total: max_size(m, g) }] + if is_collapsed(
        collapsed,
        id,
    ) {
        Seq::empty()
    } else {
        g.map_values(|j: int| RowView::PullRequest { pr: m[j], in_stack: true })
    }
}

/// What the PR at activity index `i` of repository `r` contributes: itself
/// when it is in no stack, its whole stack when it is the stack's most recent
/// member, and nothing otherwise.
pub open spec fn unit_rows(m: Seq<PullRequest>, r: Seq<char>, collapsed: Seq<GroupId>, i: int) -> Seq<RowView> {
    match m[i].stack {
        None => seq![RowView::PullRequest { pr: m[i], in_stack: false }],
        Some(s) => if starts_stack(m, i) {
            stack_rows(m, r, s.number, collapsed)
        } else {
            Seq::empty()
        },
    }
}

/// The rows of repository `r`: a header with its PR count, then, unless the
/// repository is collapsed, the contribution of each of its PRs in turn.
pub open spec fn repo_rows(prs: Seq<PullRequest>, r: Seq<char>, collapsed: Seq<GroupId>) -> Seq<RowView> {
    let m = members(prs, r);
    let id = GroupKey::Repo(r);
    seq![RowView::Repository { id, repo: r, count: m.len() }] + if is_collapsed(collapsed, id) {
        Seq::empty()
    } else {
        Seq::new(m.len(), |i: int| unit_rows(m, r, collapsed, i)).flatten()
    }
}

proof fn lemma_stack_members(m: Seq<PullRequest>, n: u64, g: Seq<int>)
    requires
        stack_order(m, n, g),
    ensures
        stack_members(m, n) == g,
{
    let lt = |a: int, b: int| before_in_stack(m, a, b);
    let other = stack_members(m, n);
    assert(stack_order(m, n, other));
    assert forall|x: int, y: int, z: int| #[trigger] lt(x, y) && #[trigger] lt(y, z) implies lt(x, z) by {
        assert(before_in_stack(m, x, y) && before_in_stack(m, y, z));
    }
    assert(strictly_sorted(g, lt));
    assert(strictly_sorted(other, lt));
    assert forall|x: int| g.contains(x) <==> other.contains(x) by {}
    lemma_strictly_sorted_unique(g, other, lt);
}

/// Whether no PR before `i` among `idx` belongs to stack `n`.
fn first_of_stack(prs: &[PullRequest], idx: &Vec<usize>, i: usize, n: u64) -> (res: bool)
    requires
        i < idx@.len(),
        forall|k: int| 0 <= k < idx@.len() ==> idx@[k] < prs@.len(),
    ensures
        res == forall|k: int| 0 <= k < i ==> !in_stack(#[trigger] pick(prs@, idx@)[k], n),
{
    let ghost m = pick(prs@, idx@);
    let mut k: usize = 0;
    while k < i
        invariant
            i < idx@.len(),
            m == pick(prs@, idx@),
            forall|q: int| 0 <= q < idx@.len() ==> idx@[q] < prs@.len(),
            k <= i,
            forall|q: int| 0 <= q < k ==> !in_stack(#[trigger] m[q], n),
        decreases i - k,
    {
        let hit = match prs[idx[k]].stack {
            Some(st) => st.number == n,
            None => false,
        };
        assert(m[k as int] == prs@[idx@[k as int] as int]);
        if hit {
            assert(in_stack(m[k as int], n));
            return false;
        }
        k = k + 1;
    }
    true
}

/// The members of stack `n` among the PRs at `idx`, as positions in `idx`,
/// base to tip.
fn stack_group(prs: &[PullRequest], idx: &Vec<usize>, n: u64) -> (g: Vec<usize>)
    requires
        forall|k: int| 0 <= k < idx@.len() ==> idx@[k] < prs@.len(),
    ensures
        forall|k: int| 0 <= k < g@.len() ==> g@[k] < idx@.len(),
        stack_order(pick(prs@, idx@), n, g@.map_values(|u: usize| u as int)),
{
    let ghost m = pick(prs@, idx@);
    let mut g: Vec<usize> = Vec::new();
    let mut k: usize = 0;
    while k < idx.len()
        invariant
            m == pick(prs@, idx@),
            forall|q: int| 0 <= q < idx@.len() ==> idx@[q] < prs@.len(),
            k <= idx@.len(),
            forall|q: int| 0 <= q < g@.len() ==> g@[q] < k,
            forall|a: int, b: int|
                0 <= a < b < g@.len() ==> before_in_stack(m, #[trigger] g@[a] as int, #[trigger] g@[b] as int),
            forall|j: int| g@.map_values(|u: usize| u as int).contains(j) <==> 0 <= j < k && in_stack(m[j], n),
        decreases idx@.len() - k,
    {
        let ghost gi = g@.map_values(|u: usize| u as int);
        assert(m[k as int] == prs@[idx@[k as int] as int]);
        match prs[idx[k]].stack {
            Some(st) => {
                if st.number == n {
                    let pos_k = st.position;
                    let mut p: usize = 0;
                    let mut stop = false;
                    while p < g.len() && !stop
                        invariant
                            m == pick(prs@, idx@),
                            forall|q: int| 0 <= q < idx@.len() ==> idx@[q] < prs@.len(),
                            forall|q: int| 0 <= q < g@.len() ==> g@[q] < k,
                            k < idx@.len(),
                            stack_position(m[k as int]) == pos_k,
                            p <= g@.len(),
                            stop ==> p < g@.len() && pos_k < stack_position(m[g@[p as int] as int]),
                            forall|q: int| 0 <= q < p ==> before_in_stack(m, #[trigger] g@[q] as int, k as int),
                        decreases g@.len() - p + (if stop { 0int } else { 1int }),
                    {
                        let other = idx[g[p]];
                        let pos_o = match prs[other].stack {
                            Some(so) => so.position,
                            None => 0,
                        };
                        assert(m[g@[p as int] as int] == prs@[other as int]);
                        if pos_k < pos_o {
                            stop = true;
                        } else {
                            p = p + 1;
                        }
                    }
                    g.insert(p, k);
                    proof {
                        let ng = g@.map_values(|u: usize| u as int);
                        assert(ng =~= gi.insert(p as int, k as int));
                        assert forall|a: int, b: int|
                            0 <= a < b < g@.len() implies before_in_stack(m, #[trigger] g@[a] as int, #[trigger] g@[b] as int) by {
                            if b < p {
                                assert(g@[a] == gi[a] && g@[b] == gi[b]);
                            } else if b == p {
                                assert(g@[a] == gi[a]);
                            } else if a < p {
                                assert(g@[a] == gi[a] && g@[b] == gi[b - 1]);
                                assert(before_in_stack(m, gi[a], k as int));
                                assert(before_in_stack(m, k as int, gi[p as int]));
                                if b - 1 > p {
                                    assert(before_in_stack(m, gi[p as int], gi[b - 1]));
                                }
                            } else if a == p {
                                assert(g@[b] == gi[b - 1]);
                                assert(before_in_stack(m, k as int, gi[p as int]));
                                if b - 1 > p {
                                    assert(before_in_stack(m, gi[p as int], gi[b - 1]));
                                }
                            } else {
                                assert(g@[a] == gi[a - 1] && g@[b] == gi[b - 1]);
                            }
                        }
                        assert forall|j: int| ng.contains(j) <==> 0 <= j < k + 1 && in_stack(m[j], n) by {
                            if ng.contains(j) {
                                let q = choose|q: int| 0 <= q < ng.len() && ng[q] == j;
                                if q < p {
                                    assert(gi[q] == j);
                                    assert(gi.contains(j));
                                } else if q > p {
                                    assert(gi[q - 1] == j);
                                    assert(gi.contains(j));
                                }
                            }
                            if 0 <= j < k + 1 && in_stack(m[j], n) {
                                if j < k {
                                    assert(gi.contains(j));
                                    let q = choose|q: int| 0 <= q < gi.len() && gi[q] == j;
                                    if q < p {
                                        assert(ng[q] == j);
                                    } else {
                                        assert(ng[q + 1] == j);
                                    }
                                } else {
                                    assert(ng[p as int] == j);
                                }
                            }
                        }
                    }
                } else {
                    proof {
                        assert forall|j: int| gi.contains(j) <==> 0 <= j < k + 1 && in_stack(m[j], n) by {
                            if j == k {
                                assert(!in_stack(m[j], n));
                                if gi.contains(j) {
                                    let q = choose|q: int| 0 <= q < gi.len() && gi[q] == j;
                                    assert(g@[q] < k);
                                }
                            }
                        }
                    }
                }
            },
            None => {
                proof {
                    assert forall|j: int| gi.contains(j) <==> 0 <= j < k + 1 && in_stack(m[j], n) by {
                        if j == k {
                            assert(!in_stack(m[j], n));
                            if gi.contains(j) {
                                let q = choose|q: int| 0 <= q < gi.len() && gi[q] == j;
                                assert(g@[q] < k);
                            }
                        }
                    }
                }
            },
        }
        k = k + 1;
    }
    proof {
        let gi = g@.map_values(|u: usize| u as int);
        assert forall|a: int, b: int| 0 <= a < b < gi.len() implies before_in_stack(m, #[trigger] gi[a], #[trigger] gi[b]) by {
            assert(before_in_stack(m, g@[a] as int, g@[b] as int));
        }
    }
    g
}

proof fn lemma_rows_view_push<'a>(rows: Seq<Row<'a>>, row: Row<'a>)
    ensures
        rows_view(rows.push(row)) == rows_view(rows).push(row@),
{
    assert(rows_view(rows.push(row)) =~= rows_view(rows).push(row@));
}

/// Appends the rows of stack `n` of the repository named `repo`, whose PRs
/// are those at `idx`.
fn push_stack_rows<'a>(
    prs: &'a [PullRequest],
    idx: &Vec<usize>,
    repo: &String,
    n: u64,
    collapsed: &[GroupId],
    out: &mut Vec<Row<'a>>,
)
    requires
        forall|k: int| 0 <= k < idx@.len() ==> idx@[k] < prs@.len(),
    ensures
        rows_view(final(out)@) == rows_view(old(out)@) + stack_rows(
            pick(prs@, idx@),
            repo@,
            n,
            collapsed@,
        ),
{
    let ghost m = pick(prs@, idx@);
    let g = stack_group(prs, idx, n);
    let ghost gi = g@.map_values(|u: usize| u as int);
    proof {
        lemma_stack_members(m, n, gi);
    }
    let mut total: u64 = 0;
    let mut t: usize = 0;
    assert(gi.take(0) =~= Seq::<int>::empty());
    while t < g.len()
        invariant
            m == pick(prs@, idx@),
            gi == g@.map_values(|u: usize| u as int),
            forall|k: int| 0 <= k < idx@.len() ==> idx@[k] < prs@.len(),
            forall|k: int| 0 <= k < g@.len() ==> g@[k] < idx@.len(),
            t <= g@.len(),
            total == max_size(m, gi.take(t as int)),
        decreases g@.len() - t,
    {
        let p = &prs[idx[g[t]]];
        assert(*p == m[gi[t as int]]);
        let size = match p.stack {
            Some(st) => st.size,
            None => 0,
        };
        assert(gi.take(t as int + 1).drop_last() =~= gi.take(t as int));
        if size > total {
            total = size;
        }
        t = t + 1;
    }
    assert(gi.take(g@.len() as int) =~= gi);
    let id = GroupId::Stack { repo: repo.clone(), number: n };
    let hidden = contains_group(collapsed, &id);
    let ghost base = rows_view(out@);
    let header = Row::Stack { id, number: n, shown: g.len(), total };
    proof {
        lemma_rows_view_push(out@, header);
    }
    out.push(header);
    if !hidden {
        let mut t: usize = 0;
        while t < g.len()
            invariant
                m == pick(prs@, idx@),
                gi == g@.map_values(|u: usize| u as int),
                forall|k: int| 0 <= k < idx@.len() ==> idx@[k] < prs@.len(),
                forall|k: int| 0 <= k < g@.len() ==> g@[k] < idx@.len(),
                t <= g@.len(),
                rows_view(out@) == base.push(header@) + gi.take(t as int).map_values(
                    |j: int| RowView::PullRequest { pr: m[j], in_stack: true },
                ),
            decreases g@.len() - t,
        {
            let row = Row::PullRequest { pr: &prs[idx[g[t]]], in_stack: true };
            proof {
                lemma_rows_view_push(out@, row);
                assert(gi.take(t as int + 1).map_values(
                    |j: int| RowView::PullRequest { pr: m[j], in_stack: true },
                ) =~= gi.take(t as int).map_values(
                    |j: int| RowView::PullRequest { pr: m[j], in_stack: true },
                ).push(row@));
            }
            out.push(row);
            t = t + 1;
        }
        assert(gi.take(g@.len() as int) =~= gi);
    }
    assert(rows_view(out@) =~= base + stack_rows(m, repo@, n, collapsed@));
}

/// The whole table: the blocks of all repositories in ascending order.
pub open spec fn tree_rows(prs: Seq<PullRequest>, collapsed: Seq<GroupId>) -> Seq<RowView> {
    sorted_repos(prs).map_values(|r: Seq<char>| repo_rows(prs, r, collapsed)).flatten()
}

/// Appends the block of the repository of `prs[rep]`.
fn push_repo_rows<'a>(prs: &'a [PullRequest], rep: usize, collapsed: &[GroupId], out: &mut Vec<Row<'a>>)
    requires
        rep < prs@.len(),
    ensures
        rows_view(final(out)@) == rows_view(old(out)@) + repo_rows(prs@, prs@[rep as int].repo@, collapsed@),
{
    let repo_name: &'a String = &prs[rep].repo;
    let repo: &'a str = repo_name.as_str();
    let idx = member_indices(prs, repo);
    let ghost m = pick(prs@, idx@);
    let ghost r = repo@;
    let ghost c = collapsed@;
    let id = GroupId::Repo(repo_name.clone());
    let hidden = contains_group(collapsed, &id);
    let ghost base = rows_view(out@);
    let header = Row::Repository { id, repo, count: idx.len() };
    proof {
        lemma_rows_view_push(out@, header);
    }
    out.push(header);
    if !hidden {
        let mut i: usize = 0;
        assert(Seq::new(0, |u: int| unit_rows(m, r, c, u)) =~= Seq::<Seq<RowView>>::empty());
        while i < idx.len()
            invariant
                m == pick(prs@, idx@),
                r == repo_name@,
                c == collapsed@,
                forall|k: int| 0 <= k < idx@.len() ==> idx@[k] < prs@.len(),
                i <= idx@.len(),
                rows_view(out@) == base.push(header@) + Seq::new(i as nat, |u: int| unit_rows(m, r, c, u)).flatten(),
            decreases idx@.len() - i,
        {
            let ghost before = rows_view(out@);
            let p: &'a PullRequest = &prs[idx[i]];
            assert(*p == m[i as int]);
            match p.stack {
                None => {
                    let row = Row::PullRequest { pr: p, in_stack: false };
                    proof {
                        lemma_rows_view_push(out@, row);
                    }
                    out.push(row);
                    assert(rows_view(out@) =~= before + unit_rows(m, r, c, i as int));
                },
                Some(st) => {
                    if first_of_stack(prs, &idx, i, st.number) {
                        push_stack_rows(prs, &idx, repo_name, st.number, collapsed, out);
                    } else {
                        assert(rows_view(out@) =~= before + unit_rows(m, r, c, i as int));
                    }
                },
            }
            proof {
                let f = |u: int| unit_rows(m, r, c, u);
                assert(Seq::new(i as nat + 1, f) =~= Seq::new(i as nat, f).push(f(i as int)));
                Seq::new(i as nat, f).lemma_flatten_push(f(i as int));
            }
            i = i + 1;
        }
    }
    assert(rows_view(out@) =~= base + repo_rows(prs@, r, c));
}

/// Alphabetical repositories, with each stack at its most recent member's
/// position in the incoming activity order. Stack children run from base to
/// tip and share a single indentation level, regardless of the stack size.
pub fn rows<'a>(prs: &'a [PullRequest], collapsed: &[GroupId]) -> (visible: Vec<Row<'a>>)
    ensures
        rows_view(visible@) == tree_rows(prs@, collapsed@),
{
    let reps = sorted_repo_indices(prs);
    let ghost rs = repos_at(prs@, reps@);
    let ghost block = |r: Seq<char>| repo_rows(prs@, r, collapsed@);
    proof {
        lemma_sorted_repos(prs@, rs);
    }
    let mut visible: Vec<Row<'a>> = Vec::new();
    let mut k: usize = 0;
    assert(rs.take(0).map_values(block) =~= Seq::<Seq<RowView>>::empty());
    assert(rows_view(visible@) =~= Seq::<RowView>::empty());
    while k < reps.len()
        invariant
            rs == repos_at(prs@, reps@),
            block == (|r: Seq<char>| repo_rows(prs@, r, collapsed@)),
            forall|q: int| 0 <= q < reps@.len() ==> reps@[q] < prs@.len(),
            k <= reps@.len(),
            rows_view(visible@) == rs.take(k as int).map_values(block).flatten(),
        decreases reps@.len() - k,
    {
        push_repo_rows(prs, reps[k], collapsed, &mut visible);
        proof {
            assert(rs.take(k as int + 1).map_values(block) =~= rs.take(k as int).map_values(block).push(
                block(rs[k as int]),
            ));
            rs.take(k as int).map_values(block).lemma_flatten_push(block(rs[k as int]));
        }
        k = k + 1;
    }
    assert(rs.take(reps@.len() as int) =~= rs);
    visible
}

/// Repositories come in ascending order of their names, each once, and
/// every repository of the input has a block.
pub proof fn lemma_repositories_sorted(prs: Seq<PullRequest>)
    ensures
        repo_order(sorted_repos(prs), prs),
{
    let lt = |a: Seq<char>, b: Seq<char>| str_lt(a, b);
    let names = prs.map_values(|p: PullRequest| p.repo@);
    lemma_str_lt_order();
    assert forall|x: Seq<char>, y: Seq<char>, z: Seq<char>| #[trigger] lt(x, y) && #[trigger] lt(y, z) implies lt(x, z) by {
        assert(str_lt(x, y) && str_lt(y, z));
    }
    assert forall|x: Seq<char>, y: Seq<char>| x != y implies #[trigger] lt(x, y) || #[trigger] lt(y, x) by {
        assert(str_lt(x, y) || str_lt(y, x));
    }
    lemma_strictly_sorted_exists(names, lt);
    let g = choose|g: Seq<Seq<char>>|
        strictly_sorted(g, lt) && forall|x: Seq<char>| #[trigger] g.contains(x) <==> names.contains(x);
    assert forall|r: Seq<char>| g.contains(r) <==> exists|i: int| 0 <= i < prs.len() && (#[trigger] prs[i]).repo@ == r by {
        if g.contains(r) {
            assert(names.contains(r));
            let i = choose|i: int| 0 <= i < names.len() && names[i] == r;
            assert(prs[i].repo@ == r);
        }
        if exists|i: int| 0 <= i < prs.len() && (#[trigger] prs[i]).repo@ == r {
            let i = choose|i: int| 0 <= i < prs.len() && (#[trigger] prs[i]).repo@ == r;
            assert(names[i] == r);
        }
    }
    assert forall|i: int, j: int| 0 <= i < j < g.len() implies str_lt(#[trigger] g[i], #[trigger] g[j]) by {
        assert(lt(g[i], g[j]));
    }
    assert(repo_order(g, prs));
}

/// The members of a stack run from base to tip: they are exactly the PRs of
/// that stack, and positions never decrease along them.
pub proof fn lemma_stack_base_to_tip(m: Seq<PullRequest>, n: u64)
    ensures
        stack_order(m, n, stack_members(m, n)),
        forall|a: int, b: int|
            0 <= a < b < stack_members(m, n).len() ==> stack_position(m[#[trigger] stack_members(m, n)[a]])
                <= stack_position(m[#[trigger] stack_members(m, n)[b]]),
{
    let lt = |a: int, b: int| before_in_stack(m, a, b);
    let pred = |j: int| in_stack(m[j], n);
    let all = Seq::new(m.len(), |j: int| j);
    let s = all.filter(pred);
    assert forall|x: int, y: int, z: int| #[trigger] lt(x, y) && #[trigger] lt(y, z) implies lt(x, z) by {
        assert(before_in_stack(m, x, y) && before_in_stack(m, y, z));
    }
    assert forall|x: int, y: int| x != y implies #[trigger] lt(x, y) || #[trigger] lt(y, x) by {
        assert(before_in_stack(m, x, y) || before_in_stack(m, y, x));
    }
    lemma_strictly_sorted_exists(s, lt);
    let g = choose|g: Seq<int>| strictly_sorted(g, lt) && forall|x: int| #[trigger] g.contains(x) <==> s.contains(x);
    assert forall|j: int| g.contains(j) <==> 0 <= j < m.len() && in_stack(m[j], n) by {
        if s.contains(j) {
            all.lemma_filter_contains_rev(pred, j);
            let q = choose|q: int| 0 <= q < s.len() && s[q] == j;
            all.lemma_filter_pred(pred, q);
        }
        if 0 <= j < m.len() && in_stack(m[j], n) {
            assert(all[j] == j);
            all.lemma_filter_contains(pred, j);
        }
    }
    assert forall|a: int, b: int| 0 <= a < b < g.len() implies before_in_stack(m, #[trigger] g[a], #[trigger] g[b]) by {
        assert(lt(g[a], g[b]));
    }
    assert(stack_order(m, n, g));
    lemma_stack_members(m, n, g);
}

proof fn lemma_flatten_contains<A>(ss: Seq<Seq<A>>, q: int, x: A)
    requires
        0 <= q < ss.len(),
        ss[q].contains(x),
    ensures
        ss.flatten().contains(x),
    decreases ss.len(),
{
    let k = choose|k: int| 0 <= k < ss[q].len() && ss[q][k] == x;
    if q == 0 {
        assert((ss.first() + ss.drop_first().flatten())[k] == x);
    } else {
        assert(ss.drop_first()[q - 1] == ss[q]);
        lemma_flatten_contains(ss.drop_first(), q - 1, x);
        let j = choose|j: int| 0 <= j < ss.drop_first().flatten().len() && ss.drop_first().flatten()[j] == x;
        assert((ss.first() + ss.drop_first().flatten())[ss.first().len() + j] == x);
    }
}

proof fn lemma_first_member(m: Seq<PullRequest>, n: u64, u: int) -> (f: int)
    requires
        0 <= u < m.len(),
        in_stack(m[u], n),
    ensures
        0 <= f <= u,
        in_stack(m[f], n),
        forall|k: int| 0 <= k < f ==> !in_stack(#[trigger] m[k], n),
    decreases u,
{
    if exists|k: int| 0 <= k < u && in_stack(#[trigger] m[k], n) {
        let k = choose|k: int| 0 <= k < u && in_stack(#[trigger] m[k], n);
        lemma_first_member(m, n, k)
    } else {
        u
    }
}

/// With nothing collapsed, every pull request of the input has a row, marked
/// as a stack member exactly when it belongs to a stack.
pub proof fn lemma_tree_lists_every_pr(prs: Seq<PullRequest>, i: int)
    requires
        0 <= i < prs.len(),
    ensures
        tree_rows(prs, Seq::empty()).contains(
            RowView::PullRequest { pr: prs[i], in_stack: prs[i].stack is Some },
        ),
{
    let c = Seq::<GroupId>::empty();
    let x = prs[i];
    let want = RowView::PullRequest { pr: x, in_stack: x.stack is Some };
    let r = x.repo@;
    lemma_repositories_sorted(prs);
    let rs = sorted_repos(prs);
    assert(rs.contains(r));
    let q = choose|q: int| 0 <= q < rs.len() && rs[q] == r;
    let blocks = rs.map_values(|name: Seq<char>| repo_rows(prs, name, c));
    assert(blocks[q] == repo_rows(prs, r, c));
    let m = members(prs, r);
    prs.lemma_filter_contains(in_repo(r), i);
    assert(m.contains(x));
    let u = choose|u: int| 0 <= u < m.len() && m[u] == x;
    let units = Seq::new(m.len(), |k: int| unit_rows(m, r, c, k));
    assert(!is_collapsed(c, GroupKey::Repo(r)));
    let header = seq![RowView::Repository { id: GroupKey::Repo(r), repo: r, count: m.len() }];
    assert(repo_rows(prs, r, c) == header + units.flatten());
    match x.stack {
        None => {
            assert(units[u] == seq![want]);
            assert(units[u][0] == want);
            lemma_flatten_contains(units, u, want);
        },
        Some(st) => {
            let n = st.number;
            let f = lemma_first_member(m, n, u);
            let sf = m[f].stack.unwrap();
            assert(sf.number == n);
            assert(starts_stack(m, f));
            assert(units[f] == stack_rows(m, r, n, c));
            lemma_stack_base_to_tip(m, n);
            let g = stack_members(m, n);
            assert(g.contains(u));
            let t = choose|t: int| 0 <= t < g.len() && g[t] == u;
            let kids = g.map_values(|j: int| RowView::PullRequest { pr: m[j], in_stack: true });
            assert(!is_collapsed(c, GroupKey::Stack { repo: r, number: n }));
            assert(kids[t] == want);
            let head = seq![RowView::Stack { id: GroupKey::Stack { repo: r, number: n }, number: n, shown: g.len(), total: max_size(m, g) }];
            assert(stack_rows(m, r, n, c) == head + kids);
            assert((head + kids)[1 + t] == want);
            lemma_flatten_contains(units, f, want);
        },
    }
    let j = choose|j: int| 0 <= j < units.flatten().len() && units.flatten()[j] == want;
    assert((header + units.flatten())[1 + j] == want);
    lemma_flatten_contains(blocks, q, want);
}

proof fn lemma_flatten_contains_rev<A>(ss: Seq<Seq<A>>, x: A) -> (q: int)
    requires
        ss.flatten().contains(x),
    ensures
        0 <= q < ss.len(),
        ss[q].contains(x),
    decreases ss.len(),
{
    let flat = ss.flatten();
    let k = choose|k: int| 0 <= k < flat.len() && flat[k] == x;
    assert(flat == ss.first() + ss.drop_first().flatten());
    if k < ss.first().len() {
        assert(ss[0][k] == x);
        0
    } else {
        let rest = ss.drop_first().flatten();
        assert(rest[k - ss.first().len()] == x);
        let q = lemma_flatten_contains_rev(ss.drop_first(), x);
        assert(ss[q + 1] == ss.drop_first()[q]);
        q + 1
    }
}

/// Every PR row of the table, whatever is collapsed, shows a pull request of
/// the input, marked as a stack member exactly when it belongs to a stack.
pub proof fn lemma_tree_rows_are_input_prs(
    prs: Seq<PullRequest>,
    collapsed: Seq<GroupId>,
    pr: PullRequest,
    member: bool,
)
    requires
        tree_rows(prs, collapsed).contains(RowView::PullRequest { pr, in_stack: member }),
    ensures
        prs.contains(pr),
        member == pr.stack is Some,
{
    let x = RowView::PullRequest { pr, in_stack: member };
    let rs = sorted_repos(prs);
    let blocks = rs.map_values(|name: Seq<char>| repo_rows(prs, name, collapsed));
    let q = lemma_flatten_contains_rev(blocks, x);
    let r = rs[q];
    assert(blocks[q] == repo_rows(prs, r, collapsed));
    let m = members(prs, r);
    let units = Seq::new(m.len(), |i: int| unit_rows(m, r, collapsed, i));
    let header = seq![RowView::Repository { id: GroupKey::Repo(r), repo: r, count: m.len() }];
    let block = repo_rows(prs, r, collapsed);
    let k = choose|k: int| 0 <= k < block.len() && block[k] == x;
    assert(k > 0);
    assert(!is_collapsed(collapsed, GroupKey::Repo(r)));
    assert(block == header + units.flatten());
    assert(units.flatten()[k - 1] == x);
    let u = lemma_flatten_contains_rev(units, x);
    assert(units[u] == unit_rows(m, r, collapsed, u));
    match m[u].stack {
        None => {
            assert(unit_rows(m, r, collapsed, u) == seq![RowView::PullRequest { pr: m[u], in_stack: false }]);
            assert(pr == m[u]);
            assert(m.contains(m[u]));
            prs.lemma_filter_contains_rev(in_repo(r), pr);
        },
        Some(st) => {
            let n = st.number;
            let rows_u = stack_rows(m, r, n, collapsed);
            assert(units[u] == rows_u);
            lemma_stack_base_to_tip(m, n);
            let g = stack_members(m, n);
            let head = seq![RowView::Stack { id: GroupKey::Stack { repo: r, number: n }, number: n, shown: g.len(), total: max_size(m, g) }];
            let kids = g.map_values(|j: int| RowView::PullRequest { pr: m[j], in_stack: true });
            let t = choose|t: int| 0 <= t < rows_u.len() && rows_u[t] == x;
            assert(t > 0);
            assert(!is_collapsed(collapsed, GroupKey::Stack { repo: r, number: n }));
            assert(rows_u == head + kids);
            assert(kids[t - 1] == x);
            let j = g[t - 1];
            assert(g.contains(j));
            assert(pr == m[j]);
            assert(in_stack(m[j], n));
            assert(m.contains(m[j]));
            prs.lemma_filter_contains_rev(in_repo(r), pr);
        },
    }
}

/// Group rows carry stable identities: a repository row is identified by
/// its repository's name and shows that repository's PR count; a stack row
/// is identified by its repository and its stack number, and names a stack
/// that a PR of the input in that repository belongs to. Identities depend
/// on nothing else, so they survive refreshes, and stacks with the same
/// number in two repositories never share one.
pub proof fn lemma_group_rows_name_input_groups(prs: Seq<PullRequest>, collapsed: Seq<GroupId>, row: RowView)
    requires
        tree_rows(prs, collapsed).contains(row),
    ensures
        row matches RowView::Repository { id, repo, count } ==> {
            &&& id == GroupKey::Repo(repo)
            &&& count == members(prs, repo).len()
            &&& exists|i: int| 0 <= i < prs.len() && (#[trigger] prs[i]).repo@ == repo
        },
        row matches RowView::Stack { id, number, .. } ==> exists|i: int|
            0 <= i < prs.len() && id == (GroupKey::Stack { repo: (#[trigger] prs[i]).repo@, number })
                && in_stack(prs[i], number),
{
    lemma_repositories_sorted(prs);
    let rs = sorted_repos(prs);
    let blocks = rs.map_values(|name: Seq<char>| repo_rows(prs, name, collapsed));
    let q = lemma_flatten_contains_rev(blocks, row);
    let r = rs[q];
    assert(rs.contains(r));
    assert(blocks[q] == repo_rows(prs, r, collapsed));
    let m = members(prs, r);
    let units = Seq::new(m.len(), |i: int| unit_rows(m, r, collapsed, i));
    let header = seq![RowView::Repository { id: GroupKey::Repo(r), repo: r, count: m.len() }];
    let block = repo_rows(prs, r, collapsed);
    let k = choose|k: int| 0 <= k < block.len() && block[k] == row;
    if k == 0 {
        assert(row == header[0]);
    } else {
        assert(!is_collapsed(collapsed, GroupKey::Repo(r)));
        assert(block == header + units.flatten());
        assert(units.flatten()[k - 1] == row);
        let u = lemma_flatten_contains_rev(units, row);
        assert(units[u] == unit_rows(m, r, collapsed, u));
        match m[u].stack {
            None => {
                assert(unit_rows(m, r, collapsed, u) == seq![RowView::PullRequest { pr: m[u], in_stack: false }]);
                assert(row is PullRequest);
            },
            Some(st) => {
                let n = st.number;
                let rows_u = stack_rows(m, r, n, collapsed);
                assert(units[u] == rows_u);
                let g = stack_members(m, n);
                let head = seq![RowView::Stack { id: GroupKey::Stack { repo: r, number: n }, number: n, shown: g.len(), total: max_size(m, g) }];
                let t = choose|t: int| 0 <= t < rows_u.len() && rows_u[t] == row;
                if t == 0 {
                    assert(row == head[0]);
                    assert(m.contains(m[u]));
                    prs.lemma_filter_contains_rev(in_repo(r), m[u]);
                    let i = choose|i: int| 0 <= i < prs.len() && prs[i] == m[u];
                    prs.lemma_filter_pred(in_repo(r), u);
                    assert(prs[i].repo@ == r && in_stack(prs[i], n));
                } else {
                    let kids = g.map_values(|j: int| RowView::PullRequest { pr: m[j], in_stack: true });
                    assert(!is_collapsed(collapsed, GroupKey::Stack { repo: r, number: n }));
                    assert(rows_u == head + kids);
                    assert(kids[t - 1] == row);
                    assert(row is PullRequest);
                }
            },
        }
    }
}

/// Every repository of the input has its row, whatever is collapsed; every
/// stack of the input has its row, with its full member count and size,
/// unless its repository is collapsed.
pub proof fn lemma_every_group_has_a_row(prs: Seq<PullRequest>, collapsed: Seq<GroupId>, i: int)
    requires
        0 <= i < prs.len(),
    ensures
        tree_rows(prs, collapsed).contains(
            RowView::Repository {
                id: GroupKey::Repo(prs[i].repo@),
                repo: prs[i].repo@,
                count: members(prs, prs[i].repo@).len(),
            },
        ),
        prs[i].stack is Some && !is_collapsed(collapsed, GroupKey::Repo(prs[i].repo@))
            ==> tree_rows(prs, collapsed).contains(
            RowView::Stack {
                id: GroupKey::Stack { repo: prs[i].repo@, number: prs[i].stack.unwrap().number },
                number: prs[i].stack.unwrap().number,
                shown: stack_members(members(prs, prs[i].repo@), prs[i].stack.unwrap().number).len(),
                total: max_size(
                    members(prs, prs[i].repo@),
                    stack_members(members(prs, prs[i].repo@), prs[i].stack.unwrap().number),
                ),
            },
        ),
{
    let c = collapsed;
    let x = prs[i];
    let r = x.repo@;
    lemma_repositories_sorted(prs);
    let rs = sorted_repos(prs);
    assert(rs.contains(r));
    let q = choose|q: int| 0 <= q < rs.len() && rs[q] == r;
    let blocks = rs.map_values(|name: Seq<char>| repo_rows(prs, name, c));
    assert(blocks[q] == repo_rows(prs, r, c));
    let m = members(prs, r);
    let head_row = RowView::Repository { id: GroupKey::Repo(r), repo: r, count: m.len() };
    assert(repo_rows(prs, r, c)[0] == head_row);
    lemma_flatten_contains(blocks, q, head_row);
    if let Some(st) = x.stack {
        if !is_collapsed(c, GroupKey::Repo(r)) {
            let n = st.number;
            prs.lemma_filter_contains(in_repo(r), i);
            assert(m.contains(x));
            let u = choose|u: int| 0 <= u < m.len() && m[u] == x;
            let units = Seq::new(m.len(), |k: int| unit_rows(m, r, c, k));
            let header = seq![head_row];
            assert(repo_rows(prs, r, c) == header + units.flatten());
            let f = lemma_first_member(m, n, u);
            assert(starts_stack(m, f));
            assert(units[f] == stack_rows(m, r, n, c));
            let g = stack_members(m, n);
            let want = RowView::Stack { id: GroupKey::Stack { repo: r, number: n }, number: n, shown: g.len(), total: max_size(m, g) };
            assert(stack_rows(m, r, n, c)[0] == want);
            lemma_flatten_contains(units, f, want);
            let j = choose|j: int| 0 <= j < units.flatten().len() && units.flatten()[j] == want;
            assert((header + units.flatten())[1 + j] == want);
            lemma_flatten_contains(blocks, q, want);
        }
    }
}

/// The identity of a group row; none for a PR row.
pub open spec fn group_id(row: RowView) -> Option<GroupKey> {
    match row {
        RowView::Repository { id, .. } => Some(id),
        RowView::Stack { id, .. } => Some(id),
        RowView::PullRequest { .. } => None,
    }
}

/// The label of a row under `f`, where PR rows or group rows are labelled.
/// No two labelled rows of `rows` carry the same label.
pub open spec fn distinct_by<X>(rows: Seq<RowView>, f: spec_fn(RowView) -> Option<X>) -> bool {
    forall|j: int, k: int|
        0 <= j < k < rows.len() && (#[trigger] f(rows[j])) is Some ==> f(rows[j]) != #[trigger] f(rows[k])
}

/// No labelled row of `a` carries the label of a row of `b`.
pub open spec fn disjoint_by<X>(a: Seq<RowView>, b: Seq<RowView>, f: spec_fn(RowView) -> Option<X>) -> bool {
    forall|x: RowView, y: RowView| #[trigger] a.contains(x) && #[trigger] b.contains(y) && f(x) is Some ==> f(x) != f(y)
}

/// Group rows labelled by their identity.
pub open spec fn group_label() -> spec_fn(RowView) -> Option<GroupKey> {
    |row: RowView| group_id(row)
}

/// No two group rows of `rows` share an identity.
pub open spec fn groups_distinct(rows: Seq<RowView>) -> bool {
    distinct_by(rows, group_label())
}

proof fn lemma_distinct_by_add<X>(a: Seq<RowView>, b: Seq<RowView>, f: spec_fn(RowView) -> Option<X>)
    requires
        distinct_by(a, f),
        distinct_by(b, f),
        disjoint_by(a, b, f),
    ensures
        distinct_by(a + b, f),
{
    let ab = a + b;
    assert forall|j: int, k: int|
        0 <= j < k < ab.len() && (#[trigger] f(ab[j])) is Some implies f(ab[j]) != #[trigger] f(ab[k]) by {
        if k < a.len() {
            assert(ab[j] == a[j] && ab[k] == a[k]);
        } else if j >= a.len() {
            assert(ab[j] == b[j - a.len()] && ab[k] == b[k - a.len()]);
        } else {
            assert(ab[j] == a[j] && ab[k] == b[k - a.len()]);
            assert(a.contains(a[j]) && b.contains(b[k - a.len()]));
        }
    }
}

proof fn lemma_distinct_by_flatten<X>(ss: Seq<Seq<RowView>>, f: spec_fn(RowView) -> Option<X>)
    requires
        forall|q: int| 0 <= q < ss.len() ==> distinct_by(#[trigger] ss[q], f),
        forall|p: int, q: int| 0 <= p < q < ss.len() ==> disjoint_by(#[trigger] ss[p], #[trigger] ss[q], f),
    ensures
        distinct_by(ss.flatten(), f),
    decreases ss.len(),
{
    if ss.len() > 0 {
        let rest = ss.drop_first();
        assert forall|q: int| 0 <= q < rest.len() implies distinct_by(#[trigger] rest[q], f) by {
            assert(rest[q] == ss[q + 1]);
        }
        assert forall|p: int, q: int| 0 <= p < q < rest.len() implies disjoint_by(#[trigger] rest[p], #[trigger] rest[q], f) by {
            assert(rest[p] == ss[p + 1] && rest[q] == ss[q + 1]);
        }
        lemma_distinct_by_flatten(rest, f);
        assert(distinct_by(ss[0], f));
        assert forall|x: RowView, y: RowView|
            #[trigger] ss.first().contains(x) && #[trigger] rest.flatten().contains(y) && f(x) is Some implies f(x) != f(y) by {
            let q = lemma_flatten_contains_rev(rest, y);
            assert(rest[q] == ss[q + 1]);
            assert(disjoint_by(ss[0], ss[q + 1], f));
        }
        lemma_distinct_by_add(ss.first(), rest.flatten(), f);
    }
}

/// The group identities a block of rows can carry: repository `r` itself or
/// one of its stacks.
pub open spec fn groups_of_repo(rows: Seq<RowView>, r: Seq<char>) -> bool {
    forall|x: RowView| #[trigger] rows.contains(x) && group_id(x) is Some ==> match group_id(x).unwrap() {
        GroupKey::Repo(name) => name == r,
        GroupKey::Stack { repo, .. } => repo == r,
    }
}

proof fn lemma_unit_groups(m: Seq<PullRequest>, r: Seq<char>, c: Seq<GroupId>, i: int)
    requires
        0 <= i < m.len(),
    ensures
        groups_distinct(unit_rows(m, r, c, i)),
        forall|x: RowView| #[trigger] unit_rows(m, r, c, i).contains(x) && group_id(x) is Some ==> {
            &&& starts_stack(m, i)
            &&& group_id(x) == Some(GroupKey::Stack { repo: r, number: m[i].stack.unwrap().number })
        },
{
    let u = unit_rows(m, r, c, i);
    match m[i].stack {
        None => {
            assert forall|x: RowView| #[trigger] u.contains(x) implies group_id(x) is None by {
                assert(u[0] is PullRequest);
            }
        },
        Some(st) => {
            if starts_stack(m, i) {
                let n = st.number;
                let g = stack_members(m, n);
                let head = seq![RowView::Stack { id: GroupKey::Stack { repo: r, number: n }, number: n, shown: g.len(), total: max_size(m, g) }];
                let kids = g.map_values(|j: int| RowView::PullRequest { pr: m[j], in_stack: true });
                let tail = if is_collapsed(c, GroupKey::Stack { repo: r, number: n }) {
                    Seq::<RowView>::empty()
                } else {
                    kids
                };
                assert(u == head + tail);
                assert forall|k: int| 0 < k < u.len() implies group_id(#[trigger] u[k]) is None by {
                    assert(u[k] == tail[k - 1]);
                    assert(tail[k - 1] == kids[k - 1]);
                }
                assert forall|x: RowView| #[trigger] u.contains(x) && group_id(x) is Some implies group_id(x) == Some(
                    GroupKey::Stack { repo: r, number: n },
                ) by {
                    let k = choose|k: int| 0 <= k < u.len() && u[k] == x;
                    if k > 0 {
                        assert(group_id(u[k]) is None);
                    }
                }
            }
        },
    }
}

proof fn lemma_repo_block_groups(prs: Seq<PullRequest>, r: Seq<char>, c: Seq<GroupId>)
    ensures
        groups_distinct(repo_rows(prs, r, c)),
        groups_of_repo(repo_rows(prs, r, c), r),
{
    let m = members(prs, r);
    let units = Seq::new(m.len(), |i: int| unit_rows(m, r, c, i));
    let header = seq![RowView::Repository { id: GroupKey::Repo(r), repo: r, count: m.len() }];
    let body = if is_collapsed(c, GroupKey::Repo(r)) {
        Seq::<RowView>::empty()
    } else {
        units.flatten()
    };
    assert(repo_rows(prs, r, c) == header + body);
    assert forall|q: int| 0 <= q < units.len() implies groups_distinct(#[trigger] units[q]) by {
        lemma_unit_groups(m, r, c, q);
    }
    assert forall|p: int, q: int| 0 <= p < q < units.len() implies disjoint_by(#[trigger] units[p], #[trigger] units[q], group_label()) by {
        lemma_unit_groups(m, r, c, p);
        lemma_unit_groups(m, r, c, q);
        assert forall|x: RowView, y: RowView|
            #[trigger] units[p].contains(x) && #[trigger] units[q].contains(y) && group_id(x) is Some implies group_id(x) != group_id(y) by {
            if group_id(y) is Some && group_id(x) == group_id(y) {
                assert(starts_stack(m, q));
                assert(in_stack(m[p], m[q].stack.unwrap().number));
            }
        }
    }
    lemma_distinct_by_flatten(units, group_label());
    assert forall|x: RowView| #[trigger] units.flatten().contains(x) && group_id(x) is Some implies
        (group_id(x).unwrap() matches GroupKey::Stack { repo, .. } && repo == r) by {
        let q = lemma_flatten_contains_rev(units, x);
        lemma_unit_groups(m, r, c, q);
    }
    if !is_collapsed(c, GroupKey::Repo(r)) {
        assert forall|x: RowView, y: RowView|
            #[trigger] header.contains(x) && #[trigger] body.contains(y) && group_id(x) is Some implies group_id(x) != group_id(y) by {
            assert(x == header[0]);
        }
        assert(groups_distinct(header));
        lemma_distinct_by_add(header, body, group_label());
    } else {
        assert(header + body =~= header);
    }
    let block = repo_rows(prs, r, c);
    assert forall|x: RowView| #[trigger] block.contains(x) && group_id(x) is Some implies match group_id(x).unwrap() {
        GroupKey::Repo(name) => name == r,
        GroupKey::Stack { repo, .. } => repo == r,
    } by {
        let k = choose|k: int| 0 <= k < block.len() && block[k] == x;
        if k > 0 {
            assert(block[k] == body[k - 1]);
            assert(body.contains(x));
        } else {
            assert(x == header[0]);
        }
    }
}

/// No two group rows of the table share an identity, whatever is collapsed:
/// each repository has one row and each of its stacks one row.
pub proof fn lemma_group_rows_distinct(prs: Seq<PullRequest>, collapsed: Seq<GroupId>)
    ensures
        groups_distinct(tree_rows(prs, collapsed)),
{
    lemma_repositories_sorted(prs);
    lemma_str_lt_order();
    let rs = sorted_repos(prs);
    let blocks = rs.map_values(|name: Seq<char>| repo_rows(prs, name, collapsed));
    assert forall|q: int| 0 <= q < blocks.len() implies groups_distinct(#[trigger] blocks[q]) by {
        lemma_repo_block_groups(prs, rs[q], collapsed);
    }
    assert forall|p: int, q: int| 0 <= p < q < blocks.len() implies disjoint_by(#[trigger] blocks[p], #[trigger] blocks[q], group_label()) by {
        lemma_repo_block_groups(prs, rs[p], collapsed);
        lemma_repo_block_groups(prs, rs[q], collapsed);
        assert(str_lt(rs[p], rs[q]));
        assert forall|x: RowView, y: RowView|
            #[trigger] blocks[p].contains(x) && #[trigger] blocks[q].contains(y) && group_id(x) is Some implies group_id(x) != group_id(y) by {
            if group_id(y) is Some && group_id(x) == group_id(y) {
                assert(rs[p] == rs[q]);
            }
        }
    }
    lemma_distinct_by_flatten(blocks, group_label());
}

/// PR rows labelled by the pull request they show.
pub open spec fn pr_label() -> spec_fn(RowView) -> Option<PullRequest> {
    |row: RowView| match row {
        RowView::PullRequest { pr, .. } => Some(pr),
        _ => None,
    }
}

proof fn lemma_members_no_duplicates(prs: Seq<PullRequest>, r: Seq<char>)
    requires
        prs.no_duplicates(),
    ensures
        members(prs, r).no_duplicates(),
    decreases prs.len(),
{
    if prs.len() == 0 {
        assert(members(prs, r) =~= prs) by {
            reveal(Seq::filter);
        }
    } else {
        let init = prs.drop_last();
        let x = prs.last();
        assert(init.push(x) =~= prs);
        assert forall|a: int, b: int| 0 <= a < init.len() && 0 <= b < init.len() && a != b implies init[a] != init[b] by {
            assert(init[a] == prs[a] && init[b] == prs[b]);
        }
        lemma_members_no_duplicates(init, r);
        init.lemma_filter_push(x, in_repo(r));
        let f = members(init, r);
        if in_repo(r)(x) {
            assert forall|a: int| 0 <= a < f.len() implies f[a] != x by {
                assert(f.contains(f[a]));
                init.lemma_filter_contains_rev(in_repo(r), f[a]);
                let i = choose|i: int| 0 <= i < init.len() && init[i] == f[a];
                assert(prs[i] == init[i]);
                assert(prs[prs.len() - 1] == x);
            }
            assert forall|a: int, b: int| 0 <= a < f.push(x).len() && 0 <= b < f.push(x).len() && a != b implies f.push(x)[a] != f.push(x)[b] by {
                if a < f.len() && b < f.len() {
                    assert(f.push(x)[a] == f[a] && f.push(x)[b] == f[b]);
                } else if a < f.len() {
                    assert(f.push(x)[a] == f[a]);
                } else if b < f.len() {
                    assert(f.push(x)[b] == f[b]);
                }
            }
        }
    }
}

proof fn lemma_unit_prs(m: Seq<PullRequest>, r: Seq<char>, c: Seq<GroupId>, i: int)
    requires
        0 <= i < m.len(),
        m.no_duplicates(),
    ensures
        distinct_by(unit_rows(m, r, c, i), pr_label()),
        forall|x: RowView| #[trigger] unit_rows(m, r, c, i).contains(x) && pr_label()(x) is Some ==> exists|j: int|
            0 <= j < m.len() && pr_label()(x) == Some(#[trigger] m[j]) && unit_owner(m)(j) == i,
{
    let u = unit_rows(m, r, c, i);
    let f = pr_label();
    match m[i].stack {
        None => {
            assert forall|x: RowView| #[trigger] u.contains(x) && f(x) is Some implies exists|j: int|
                0 <= j < m.len() && f(x) == Some(#[trigger] m[j]) && unit_owner(m)(j) == i by {
                assert(u[0] == x);
                assert(f(x) == Some(m[i]));
            }
        },
        Some(st) => {
            if starts_stack(m, i) {
                let n = st.number;
                lemma_stack_base_to_tip(m, n);
                lemma_first_of(m, n, i);
                assert(first_of(m, n) == i);
                let g = stack_members(m, n);
                let head = seq![RowView::Stack { id: GroupKey::Stack { repo: r, number: n }, number: n, shown: g.len(), total: max_size(m, g) }];
                let kids = g.map_values(|j: int| RowView::PullRequest { pr: m[j], in_stack: true });
                let tail = if is_collapsed(c, GroupKey::Stack { repo: r, number: n }) {
                    Seq::<RowView>::empty()
                } else {
                    kids
                };
                assert(u == head + tail);
                assert forall|k: int| 0 < k < u.len() implies #[trigger] u[k] == kids[k - 1] && g.contains(g[k - 1])
                    && in_stack(m[g[k - 1]], n) && 0 <= g[k - 1] < m.len() by {
                    assert(u[k] == tail[k - 1]);
                }
                assert forall|x: RowView| #[trigger] u.contains(x) && f(x) is Some implies exists|j: int|
                    0 <= j < m.len() && f(x) == Some(#[trigger] m[j]) && unit_owner(m)(j) == i by {
                    let k = choose|k: int| 0 <= k < u.len() && u[k] == x;
                    assert(k > 0);
                    let j = g[k - 1];
                    assert(u[k] == kids[k - 1]);
                    assert(f(x) == Some(m[j]));
                    assert(unit_owner(m)(j) == first_of(m, n));
                }
                assert forall|a: int, b: int|
                    0 <= a < b < u.len() && (#[trigger] f(u[a])) is Some implies f(u[a]) != #[trigger] f(u[b]) by {
                    assert(a > 0);
                    assert(u[a] == kids[a - 1] && u[b] == kids[b - 1]);
                    assert(before_in_stack(m, g[a - 1], g[b - 1]));
                    assert(g[a - 1] != g[b - 1]);
                }
            }
        },
    }
}

proof fn lemma_repo_block_prs(prs: Seq<PullRequest>, r: Seq<char>, c: Seq<GroupId>)
    requires
        prs.no_duplicates(),
    ensures
        distinct_by(repo_rows(prs, r, c), pr_label()),
        forall|x: RowView| #[trigger] repo_rows(prs, r, c).contains(x) && pr_label()(x) is Some ==> pr_label()(x).unwrap().repo@ == r,
{
    let f = pr_label();
    let m = members(prs, r);
    lemma_members_no_duplicates(prs, r);
    let units = Seq::new(m.len(), |i: int| unit_rows(m, r, c, i));
    let header = seq![RowView::Repository { id: GroupKey::Repo(r), repo: r, count: m.len() }];
    let body = if is_collapsed(c, GroupKey::Repo(r)) {
        Seq::<RowView>::empty()
    } else {
        units.flatten()
    };
    let block = repo_rows(prs, r, c);
    assert(block == header + body);
    assert forall|q: int| 0 <= q < units.len() implies distinct_by(#[trigger] units[q], f) by {
        lemma_unit_prs(m, r, c, q);
    }
    assert forall|p: int, q: int| 0 <= p < q < units.len() implies disjoint_by(#[trigger] units[p], #[trigger] units[q], f) by {
        lemma_unit_prs(m, r, c, p);
        lemma_unit_prs(m, r, c, q);
        assert forall|x: RowView, y: RowView|
            #[trigger] units[p].contains(x) && #[trigger] units[q].contains(y) && f(x) is Some implies f(x) != f(y) by {
            if f(y) is Some && f(x) == f(y) {
                let a = choose|j: int| 0 <= j < m.len() && f(x) == Some(#[trigger] m[j]) && unit_owner(m)(j) == p;
                let b = choose|j: int| 0 <= j < m.len() && f(y) == Some(#[trigger] m[j]) && unit_owner(m)(j) == q;
                assert(m[a] == m[b]);
                assert(a == b);
            }
        }
    }
    lemma_distinct_by_flatten(units, f);
    assert forall|x: RowView| #[trigger] units.flatten().contains(x) && f(x) is Some implies f(x).unwrap().repo@ == r by {
        let q = lemma_flatten_contains_rev(units, x);
        lemma_unit_prs(m, r, c, q);
        let j = choose|j: int| 0 <= j < m.len() && f(x) == Some(#[trigger] m[j]) && unit_owner(m)(j) == q;
        prs.lemma_filter_pred(in_repo(r), j);
    }
    assert(distinct_by(header, f)) by {
        assert(f(header[0]) is None);
    }
    if !is_collapsed(c, GroupKey::Repo(r)) {
        assert forall|x: RowView, y: RowView|
            #[trigger] header.contains(x) && #[trigger] body.contains(y) && f(x) is Some implies f(x) != f(y) by {
            assert(x == header[0]);
        }
        lemma_distinct_by_add(header, body, f);
    } else {
        assert(header + body =~= header);
    }
    assert forall|x: RowView| #[trigger] block.contains(x) && f(x) is Some implies f(x).unwrap().repo@ == r by {
        let k = choose|k: int| 0 <= k < block.len() && block[k] == x;
        if k > 0 {
            assert(block[k] == body[k - 1]);
            assert(body.contains(x));
        } else {
            assert(x == header[0]);
        }
    }
}

/// Without duplicate pull requests in the input, no two PR rows of the
/// table show the same pull request, whatever is collapsed.
pub proof fn lemma_pr_rows_distinct(prs: Seq<PullRequest>, collapsed: Seq<GroupId>)
    requires
        prs.no_duplicates(),
    ensures
        distinct_by(tree_rows(prs, collapsed), pr_label()),
{
    let f = pr_label();
    lemma_repositories_sorted(prs);
    lemma_str_lt_order();
    let rs = sorted_repos(prs);
    let blocks = rs.map_values(|name: Seq<char>| repo_rows(prs, name, collapsed));
    assert forall|q: int| 0 <= q < blocks.len() implies distinct_by(#[trigger] blocks[q], f) by {
        lemma_repo_block_prs(prs, rs[q], collapsed);
    }
    assert forall|p: int, q: int| 0 <= p < q < blocks.len() implies disjoint_by(#[trigger] blocks[p], #[trigger] blocks[q], f) by {
        lemma_repo_block_prs(prs, rs[p], collapsed);
        lemma_repo_block_prs(prs, rs[q], collapsed);
        assert(str_lt(rs[p], rs[q]));
        assert forall|x: RowView, y: RowView|
            #[trigger] blocks[p].contains(x) && #[trigger] blocks[q].contains(y) && f(x) is Some implies f(x) != f(y) by {
            if f(y) is Some && f(x) == f(y) {
                assert(rs[p] == rs[q]);
            }
        }
    }
    lemma_distinct_by_flatten(blocks, f);
}

/// The identity of the last repository row before row `k`, if any.
pub open spec fn last_repo_id(rows: Seq<RowView>, k: int) -> Option<GroupKey>
    decreases k,
{
    if k <= 0 {
        None
    } else {
        match rows[k - 1] {
            RowView::Repository { id, .. } => Some(id),
            _ => last_repo_id(rows, k - 1),
        }
    }
}

/// The identity of the last stack row before row `k`, if any.
pub open spec fn last_stack_id(rows: Seq<RowView>, k: int) -> Option<GroupKey>
    decreases k,
{
    if k <= 0 {
        None
    } else {
        match rows[k - 1] {
            RowView::Stack { id, .. } => Some(id),
            _ => last_stack_id(rows, k - 1),
        }
    }
}

/// Row `k` of the full table disappears when `collapsed` is applied: it is
/// not a repository row, and either the repository above it is collapsed, or
/// it is a stack member and the stack above it is collapsed.
pub open spec fn hidden_by(rows: Seq<RowView>, k: int, collapsed: Seq<GroupId>) -> bool {
    &&& !(rows[k] is Repository)
    &&& (names_collapsed(collapsed, last_repo_id(rows, k)) || (crate::outline::is_member_row(rows[k])
        && names_collapsed(collapsed, last_stack_id(rows, k))))
}

/// `id` is present and collapsed.
pub open spec fn names_collapsed(collapsed: Seq<GroupId>, id: Option<GroupKey>) -> bool {
    match id {
        Some(key) => is_collapsed(collapsed, key),
        None => false,
    }
}

/// The rows among the first `n` of `rows` that `collapsed` leaves, in order.
pub open spec fn collapse_upto(rows: Seq<RowView>, n: int, collapsed: Seq<GroupId>) -> Seq<RowView>
    decreases n,
{
    if n <= 0 {
        Seq::empty()
    } else {
        collapse_upto(rows, n - 1, collapsed) + if hidden_by(rows, n - 1, collapsed) {
            Seq::empty()
        } else {
            seq![rows[n - 1]]
        }
    }
}

/// The rows of `rows` that `collapsed` leaves, in order.
pub open spec fn collapse(rows: Seq<RowView>, collapsed: Seq<GroupId>) -> Seq<RowView> {
    collapse_upto(rows, rows.len() as int, collapsed)
}

proof fn lemma_last_ids_prefix(a: Seq<RowView>, b: Seq<RowView>, k: int)
    requires
        0 <= k <= a.len(),
    ensures
        last_repo_id(a + b, k) == last_repo_id(a, k),
        last_stack_id(a + b, k) == last_stack_id(a, k),
    decreases k,
{
    if k > 0 {
        assert((a + b)[k - 1] == a[k - 1]);
        lemma_last_ids_prefix(a, b, k - 1);
    }
}

proof fn lemma_last_ids_local(a: Seq<RowView>, b: Seq<RowView>, i: int, j: int)
    requires
        0 <= j < i <= b.len(),
    ensures
        b[j] is Repository ==> last_repo_id(a + b, a.len() + i) == last_repo_id(b, i),
        b[j] is Stack ==> last_stack_id(a + b, a.len() + i) == last_stack_id(b, i),
    decreases i,
{
    assert((a + b)[a.len() + i - 1] == b[i - 1]);
    if j < i - 1 {
        lemma_last_ids_local(a, b, i - 1, j);
    }
}

proof fn lemma_last_ids_after(rows: Seq<RowView>, k: int)
    requires
        1 <= k <= rows.len(),
    ensures
        rows[0] is Repository && (forall|j: int| 0 < j < k ==> !(#[trigger] rows[j] is Repository))
            ==> last_repo_id(rows, k) == Some(rows[0]->Repository_id),
        rows[0] is Stack && (forall|j: int| 0 < j < k ==> !(#[trigger] rows[j] is Stack))
            ==> last_stack_id(rows, k) == Some(rows[0]->Stack_id),
    decreases k,
{
    if k > 1 {
        lemma_last_ids_after(rows, k - 1);
    }
}

proof fn lemma_collapse_add(a: Seq<RowView>, b: Seq<RowView>, c: Seq<GroupId>, n: int)
    requires
        0 <= n <= b.len(),
        forall|k: int| 0 <= k < a.len() ==> #[trigger] hidden_by(a + b, k, c) == hidden_by(a, k, c),
        forall|i: int| 0 <= i < b.len() ==> #[trigger] hidden_by(a + b, a.len() + i, c) == hidden_by(b, i, c),
    ensures
        collapse_upto(a + b, a.len() + n, c) == collapse(a, c) + collapse_upto(b, n, c),
    decreases n,
{
    if n == 0 {
        lemma_collapse_prefix(a, b, c, a.len() as int);
        assert(collapse(a, c) + collapse_upto(b, 0, c) =~= collapse(a, c));
    } else {
        lemma_collapse_add(a, b, c, n - 1);
        assert(hidden_by(a + b, a.len() + n - 1, c) == hidden_by(b, n - 1, c));
        assert((a + b)[a.len() + n - 1] == b[n - 1]);
        assert(collapse(a, c) + collapse_upto(b, n, c) =~= collapse(a, c) + collapse_upto(b, n - 1, c) + (
        if hidden_by(b, n - 1, c) {
            Seq::empty()
        } else {
            seq![b[n - 1]]
        }));
    }
}

proof fn lemma_collapse_prefix(a: Seq<RowView>, b: Seq<RowView>, c: Seq<GroupId>, n: int)
    requires
        0 <= n <= a.len(),
        forall|k: int| 0 <= k < a.len() ==> #[trigger] hidden_by(a + b, k, c) == hidden_by(a, k, c),
    ensures
        collapse_upto(a + b, n, c) == collapse_upto(a, n, c),
    decreases n,
{
    if n > 0 {
        lemma_collapse_prefix(a, b, c, n - 1);
        assert(hidden_by(a + b, n - 1, c) == hidden_by(a, n - 1, c));
        assert((a + b)[n - 1] == a[n - 1]);
    }
}

proof fn lemma_hidden_prefix(a: Seq<RowView>, b: Seq<RowView>, c: Seq<GroupId>)
    ensures
        forall|k: int| 0 <= k < a.len() ==> #[trigger] hidden_by(a + b, k, c) == hidden_by(a, k, c),
{
    assert forall|k: int| 0 <= k < a.len() implies #[trigger] hidden_by(a + b, k, c) == hidden_by(a, k, c) by {
        lemma_last_ids_prefix(a, b, k);
        assert((a + b)[k] == a[k]);
    }
}

proof fn lemma_collapse_keeps(rows: Seq<RowView>, c: Seq<GroupId>, n: int)
    requires
        0 <= n <= rows.len(),
        forall|k: int| 0 <= k < rows.len() ==> !#[trigger] hidden_by(rows, k, c),
    ensures
        collapse_upto(rows, n, c) == rows.take(n),
    decreases n,
{
    if n > 0 {
        lemma_collapse_keeps(rows, c, n - 1);
        assert(rows.take(n) =~= rows.take(n - 1) + seq![rows[n - 1]]);
    }
}

proof fn lemma_collapse_drops_tail(rows: Seq<RowView>, c: Seq<GroupId>, n: int)
    requires
        1 <= n <= rows.len(),
        !hidden_by(rows, 0, c),
        forall|k: int| 1 <= k < rows.len() ==> #[trigger] hidden_by(rows, k, c),
    ensures
        collapse_upto(rows, n, c) == seq![rows[0]],
    decreases n,
{
    if n == 1 {
        assert(collapse_upto(rows, 0, c) + seq![rows[0]] =~= seq![rows[0]]);
    } else {
        lemma_collapse_drops_tail(rows, c, n - 1);
        assert(hidden_by(rows, n - 1, c));
        assert(seq![rows[0]] + Seq::<RowView>::empty() =~= seq![rows[0]]);
    }
}

/// With no repository rows in `b` and every stack member of `b` right after
/// its header or another member, hiding works within `b` as within `a + b`.
proof fn lemma_hidden_local_stacks(a: Seq<RowView>, b: Seq<RowView>, c: Seq<GroupId>)
    requires
        forall|k: int| 0 <= k < a.len() + b.len() ==> !((#[trigger] (a + b)[k]) is Repository),
        crate::outline::members_follow_headers(b),
    ensures
        forall|i: int| 0 <= i < b.len() ==> #[trigger] hidden_by(a + b, a.len() + i, c) == hidden_by(b, i, c),
{
    assert forall|i: int| 0 <= i < b.len() implies #[trigger] hidden_by(a + b, a.len() + i, c) == hidden_by(b, i, c) by {
        assert((a + b)[a.len() + i] == b[i]);
        assert forall|j: int| 0 <= j < a.len() + i implies !((#[trigger] (a + b)[j]) is Repository) by {}
        lemma_last_ids_after_none(a + b, a.len() + i);
        assert forall|j: int| 0 <= j < i implies !((#[trigger] b[j]) is Repository) by {
            assert((a + b)[a.len() + j] == b[j]);
        }
        lemma_last_ids_after_none(b, i);
        if crate::outline::is_member_row(b[i]) {
            let j = crate::outline::lemma_last_stack_key(b, i);
            lemma_last_ids_local(a, b, i, j);
        }
    }
}

proof fn lemma_last_ids_after_none(rows: Seq<RowView>, k: int)
    requires
        0 <= k <= rows.len(),
        forall|j: int| 0 <= j < k ==> !(#[trigger] rows[j] is Repository),
    ensures
        last_repo_id(rows, k) is None,
    decreases k,
{
    if k > 0 {
        lemma_last_ids_after_none(rows, k - 1);
    }
}

proof fn lemma_unit_collapse(m: Seq<PullRequest>, r: Seq<char>, c: Seq<GroupId>, i: int)
    requires
        0 <= i < m.len(),
    ensures
        collapse(unit_rows(m, r, Seq::empty(), i), c) == unit_rows(m, r, c, i),
        forall|k: int| 0 <= k < unit_rows(m, r, Seq::empty(), i).len() ==> !((#[trigger] unit_rows(m, r, Seq::empty(), i)[k]) is Repository),
{
    let e = Seq::<GroupId>::empty();
    let u = unit_rows(m, r, e, i);
    match m[i].stack {
        None => {
            assert(!hidden_by(u, 0, c));
            lemma_collapse_keeps(u, c, 1);
            assert(u.take(1) =~= u);
        },
        Some(st) => {
            if starts_stack(m, i) {
                let n = st.number;
                let id = GroupKey::Stack { repo: r, number: n };
                let g = stack_members(m, n);
                let head = seq![RowView::Stack { id, number: n, shown: g.len(), total: max_size(m, g) }];
                let kids = g.map_values(|j: int| RowView::PullRequest { pr: m[j], in_stack: true });
                assert(!is_collapsed(e, id));
                assert(u == head + kids);
                assert(!hidden_by(u, 0, c));
                assert forall|k: int| 1 <= k < u.len() implies #[trigger] hidden_by(u, k, c) == is_collapsed(c, id) by {
                    assert(u[k] == kids[k - 1]);
                    assert forall|j: int| 0 < j < k implies !(#[trigger] u[j] is Stack) by {
                        assert(u[j] == kids[j - 1]);
                    }
                    lemma_last_ids_after(u, k);
                    assert forall|j: int| 0 <= j < k implies !(#[trigger] u[j] is Repository) by {
                        if j > 0 {
                            assert(u[j] == kids[j - 1]);
                        }
                    }
                    lemma_last_ids_after_none(u, k);
                    assert(crate::outline::is_member_row(u[k]));
                }
                assert forall|k: int| 0 <= k < u.len() implies !((#[trigger] u[k]) is Repository) by {
                    if k > 0 {
                        assert(u[k] == kids[k - 1]);
                    }
                }
                if is_collapsed(c, id) {
                    lemma_collapse_drops_tail(u, c, u.len() as int);
                    assert(unit_rows(m, r, c, i) == head + Seq::<RowView>::empty());
                    assert(head + Seq::<RowView>::empty() =~= seq![u[0]]);
                } else {
                    lemma_collapse_keeps(u, c, u.len() as int);
                    assert(u.take(u.len() as int) =~= u);
                    assert(unit_rows(m, r, c, i) == head + kids);
                }
            } else {
                assert(u == Seq::<RowView>::empty());
            }
        },
    }
}

proof fn lemma_no_repo_rows_add(a: Seq<RowView>, b: Seq<RowView>)
    requires
        forall|k: int| 0 <= k < a.len() ==> !((#[trigger] a[k]) is Repository),
        forall|k: int| 0 <= k < b.len() ==> !((#[trigger] b[k]) is Repository),
    ensures
        forall|k: int| 0 <= k < (a + b).len() ==> !((#[trigger] (a + b)[k]) is Repository),
{
    assert forall|k: int| 0 <= k < (a + b).len() implies !((#[trigger] (a + b)[k]) is Repository) by {
        if k < a.len() {
            assert((a + b)[k] == a[k]);
        } else {
            assert((a + b)[k] == b[k - a.len()]);
        }
    }
}

proof fn lemma_units_collapse(ss: Seq<Seq<RowView>>, ts: Seq<Seq<RowView>>, c: Seq<GroupId>)
    requires
        ss.len() == ts.len(),
        forall|q: int| 0 <= q < ss.len() ==> collapse(#[trigger] ss[q], c) == ts[q],
        forall|q: int, k: int| 0 <= q < ss.len() && 0 <= k < ss[q].len() ==> !((#[trigger] ss[q][k]) is Repository),
        forall|q: int| 0 <= q < ss.len() ==> crate::outline::members_follow_headers(#[trigger] ss[q])
            && crate::outline::starts_outside_stacks(ss[q]),
    ensures
        collapse(ss.flatten(), c) == ts.flatten(),
        forall|k: int| 0 <= k < ss.flatten().len() ==> !((#[trigger] ss.flatten()[k]) is Repository),
    decreases ss.len(),
{
    if ss.len() > 0 {
        let rest = ss.drop_first();
        let trest = ts.drop_first();
        assert forall|q: int| 0 <= q < rest.len() implies collapse(#[trigger] rest[q], c) == trest[q] by {
            assert(rest[q] == ss[q + 1] && trest[q] == ts[q + 1]);
        }
        assert forall|q: int, k: int| 0 <= q < rest.len() && 0 <= k < rest[q].len() implies !((#[trigger] rest[q][k]) is Repository) by {
            assert(rest[q] == ss[q + 1]);
        }
        assert forall|q: int| 0 <= q < rest.len() implies crate::outline::members_follow_headers(#[trigger] rest[q])
            && crate::outline::starts_outside_stacks(rest[q]) by {
            assert(rest[q] == ss[q + 1]);
        }
        lemma_units_collapse(rest, trest, c);
        crate::outline::lemma_members_follow_headers_flatten(rest);
        let a = ss[0];
        let b = rest.flatten();
        assert(forall|k: int| 0 <= k < a.len() ==> !((#[trigger] a[k]) is Repository));
        lemma_no_repo_rows_add(a, b);
        assert(ss.flatten() == a + b);
        lemma_hidden_prefix(a, b, c);
        lemma_hidden_local_stacks(a, b, c);
        lemma_collapse_add(a, b, c, b.len() as int);
        assert(collapse(a, c) == ts[0]);
        assert(ts.flatten() == ts[0] + trest.flatten());
    }
}

proof fn lemma_block_collapse(prs: Seq<PullRequest>, r: Seq<char>, c: Seq<GroupId>)
    ensures
        collapse(repo_rows(prs, r, Seq::empty()), c) == repo_rows(prs, r, c),
{
    let e = Seq::<GroupId>::empty();
    let m = members(prs, r);
    let full_units = Seq::new(m.len(), |i: int| unit_rows(m, r, e, i));
    let units = Seq::new(m.len(), |i: int| unit_rows(m, r, c, i));
    let header = seq![RowView::Repository { id: GroupKey::Repo(r), repo: r, count: m.len() }];
    let body = full_units.flatten();
    let block = repo_rows(prs, r, e);
    assert(!is_collapsed(e, GroupKey::Repo(r)));
    assert(block == header + body);
    assert forall|q: int| 0 <= q < full_units.len() implies collapse(#[trigger] full_units[q], c) == units[q] by {
        lemma_unit_collapse(m, r, c, q);
    }
    assert forall|q: int, k: int| 0 <= q < full_units.len() && 0 <= k < full_units[q].len() implies !((#[trigger] full_units[q][k]) is Repository) by {
        lemma_unit_collapse(m, r, c, q);
    }
    assert forall|q: int| 0 <= q < full_units.len() implies crate::outline::members_follow_headers(#[trigger] full_units[q])
        && crate::outline::starts_outside_stacks(full_units[q]) by {
        crate::outline::lemma_unit_rows_shape(m, r, e, q);
    }
    lemma_units_collapse(full_units, units, c);
    crate::outline::lemma_members_follow_headers_flatten(full_units);
    assert forall|k: int| 1 <= k < block.len() implies !(#[trigger] block[k] is Repository) && last_repo_id(block, k) == Some(GroupKey::Repo(r)) by {
        assert(block[k] == body[k - 1]);
        assert forall|j: int| 0 < j < k implies !(#[trigger] block[j] is Repository) by {
            assert(block[j] == body[j - 1]);
        }
        lemma_last_ids_after(block, k);
    }
    assert(!hidden_by(block, 0, c));
    if is_collapsed(c, GroupKey::Repo(r)) {
        assert forall|k: int| 1 <= k < block.len() implies #[trigger] hidden_by(block, k, c) by {}
        lemma_collapse_drops_tail(block, c, block.len() as int);
        assert(repo_rows(prs, r, c) == header + Seq::<RowView>::empty());
        assert(header + Seq::<RowView>::empty() =~= seq![block[0]]);
    } else {
        lemma_hidden_prefix(header, body, c);
        assert forall|i: int| 0 <= i < body.len() implies #[trigger] hidden_by(header + body, header.len() + i, c) == hidden_by(body, i, c) by {
            assert(block[1 + i] == body[i]);
            assert forall|j: int| 0 <= j < i implies !((#[trigger] body[j]) is Repository) by {}
            lemma_last_ids_after_none(body, i);
            if crate::outline::is_member_row(body[i]) {
                let j = crate::outline::lemma_last_stack_key(body, i);
                lemma_last_ids_local(header, body, i, j);
            }
        }
        lemma_collapse_add(header, body, c, body.len() as int);
        assert(!hidden_by(header, 0, c));
        lemma_collapse_keeps(header, c, 1);
        assert(header.take(1) =~= header);
        assert(repo_rows(prs, r, c) == header + units.flatten());
    }
}

/// Collapsing groups only removes rows from the full table: the table with
/// `collapsed` applied is the full table without the rows under a collapsed
/// repository and without the members of a collapsed stack. Repository rows
/// and their counts always stay, stack rows go only with their repository,
/// and identities that name no group change nothing.
pub proof fn lemma_collapse_removes_group_rows(prs: Seq<PullRequest>, collapsed: Seq<GroupId>)
    ensures
        tree_rows(prs, collapsed) == collapse(tree_rows(prs, Seq::empty()), collapsed),
{
    let e = Seq::<GroupId>::empty();
    let rs = sorted_repos(prs);
    lemma_blocks_collapse(prs, rs, collapsed);
    assert(rs.map_values(|name: Seq<char>| repo_rows(prs, name, e)) == rs.map_values(
        |name: Seq<char>| repo_rows(prs, name, Seq::<GroupId>::empty()),
    ));
}

proof fn lemma_blocks_collapse(prs: Seq<PullRequest>, rs: Seq<Seq<char>>, c: Seq<GroupId>)
    ensures
        collapse(rs.map_values(|name: Seq<char>| repo_rows(prs, name, Seq::<GroupId>::empty())).flatten(), c)
            == rs.map_values(|name: Seq<char>| repo_rows(prs, name, c)).flatten(),
        rs.map_values(|name: Seq<char>| repo_rows(prs, name, Seq::<GroupId>::empty())).flatten().len() > 0
            ==> rs.map_values(|name: Seq<char>| repo_rows(prs, name, Seq::<GroupId>::empty())).flatten()[0] is Repository,
        crate::outline::members_follow_headers(rs.map_values(|name: Seq<char>| repo_rows(prs, name, Seq::<GroupId>::empty())).flatten()),
    decreases rs.len(),
{
    let e = Seq::<GroupId>::empty();
    let full = rs.map_values(|name: Seq<char>| repo_rows(prs, name, e));
    let shown = rs.map_values(|name: Seq<char>| repo_rows(prs, name, c));
    if rs.len() == 0 {
        assert(full.flatten() =~= Seq::<RowView>::empty());
        assert(shown.flatten() =~= Seq::<RowView>::empty());
        assert(collapse(full.flatten(), c) =~= Seq::<RowView>::empty());
    } else {
        let rest = rs.drop_first();
        lemma_blocks_collapse(prs, rest, c);
        assert(full.drop_first() =~= rest.map_values(|name: Seq<char>| repo_rows(prs, name, e)));
        assert(shown.drop_first() =~= rest.map_values(|name: Seq<char>| repo_rows(prs, name, c)));
        let a = full[0];
        let b = full.drop_first().flatten();
        assert(full.flatten() == a + b);
        assert(shown.flatten() == shown[0] + shown.drop_first().flatten());
        crate::outline::lemma_repo_rows_own_groups(prs, rs[0]);
        lemma_block_collapse(prs, rs[0], c);
        lemma_hidden_prefix(a, b, c);
        assert forall|i: int| 0 <= i < b.len() implies #[trigger] hidden_by(a + b, a.len() + i, c) == hidden_by(b, i, c) by {
            assert((a + b)[a.len() + i] == b[i]);
            if !(b[i] is Repository) {
                assert(i > 0);
                lemma_last_ids_local(a, b, i, 0);
                if crate::outline::is_member_row(b[i]) {
                    let j = crate::outline::lemma_last_stack_key(b, i);
                    lemma_last_ids_local(a, b, i, j);
                }
            }
        }
        lemma_collapse_add(a, b, c, b.len() as int);
        assert((a + b)[0] == a[0]);
        assert(crate::outline::starts_outside_stacks(a)) by {
            assert(!crate::outline::is_member_row(a[0]));
        }
        if b.len() > 0 {
            assert(crate::outline::starts_outside_stacks(b)) by {
                assert(!crate::outline::is_member_row(b[0]));
            }
        }
        crate::outline::lemma_members_follow_headers_add(a, b);
    }
}

/// The number of PR rows among `rows`.
pub open spec fn pr_row_count(rows: Seq<RowView>) -> nat
    decreases rows.len(),
{
    if rows.len() == 0 {
        0
    } else {
        pr_row_count(rows.drop_last()) + if rows.last() is PullRequest {
            1nat
        } else {
            0nat
        }
    }
}

proof fn lemma_pr_row_count_single(x: RowView)
    ensures
        pr_row_count(seq![x]) == if x is PullRequest {
            1nat
        } else {
            0nat
        },
{
    assert(seq![x].drop_last() =~= Seq::<RowView>::empty());
    assert(pr_row_count(Seq::<RowView>::empty()) == 0);
}

proof fn lemma_pr_row_count_add(a: Seq<RowView>, b: Seq<RowView>)
    ensures
        pr_row_count(a + b) == pr_row_count(a) + pr_row_count(b),
    decreases b.len(),
{
    if b.len() == 0 {
        assert(a + b =~= a);
    } else {
        lemma_pr_row_count_add(a, b.drop_last());
        assert((a + b).drop_last() =~= a + b.drop_last());
        assert((a + b).last() == b.last());
    }
}

/// The PR-row count of each block of `ss`.
pub open spec fn block_counts(ss: Seq<Seq<RowView>>) -> spec_fn(int) -> nat {
    |q: int| pr_row_count(ss[q])
}

/// Whether the PR at an index of `prs` is in repository `r`.
pub open spec fn repo_is(prs: Seq<PullRequest>, r: Seq<char>) -> spec_fn(int) -> bool {
    |i: int| prs[i].repo@ == r
}

proof fn lemma_pr_row_count_flatten(ss: Seq<Seq<RowView>>)
    ensures
        pr_row_count(ss.flatten()) == sum_upto(ss.len() as int, block_counts(ss)),
    decreases ss.len(),
{
    ss.lemma_flatten_and_flatten_alt_are_equivalent();
    if ss.len() > 0 {
        let init = ss.drop_last();
        lemma_pr_row_count_flatten(init);
        init.lemma_flatten_and_flatten_alt_are_equivalent();
        lemma_pr_row_count_add(init.flatten_alt(), ss.last());
        lemma_sum_ext(init.len() as int, block_counts(init), block_counts(ss));
    }
}

proof fn lemma_pr_row_count_children(m: Seq<PullRequest>, g: Seq<int>)
    ensures
        pr_row_count(g.map_values(|j: int| RowView::PullRequest { pr: m[j], in_stack: true })) == g.len(),
    decreases g.len(),
{
    if g.len() > 0 {
        lemma_pr_row_count_children(m, g.drop_last());
        assert(g.map_values(|j: int| RowView::PullRequest { pr: m[j], in_stack: true }).drop_last()
            =~= g.drop_last().map_values(|j: int| RowView::PullRequest { pr: m[j], in_stack: true }));
    }
}

/// The first PR of `m` in stack `n`.
pub open spec fn first_of(m: Seq<PullRequest>, n: u64) -> int {
    choose|f: int|
        0 <= f < m.len() && in_stack(m[f], n) && forall|k: int| 0 <= k < f ==> !in_stack(#[trigger] m[k], n)
}

proof fn lemma_first_of(m: Seq<PullRequest>, n: u64, j: int)
    requires
        0 <= j < m.len(),
        in_stack(m[j], n),
    ensures
        0 <= first_of(m, n) <= j,
        in_stack(m[first_of(m, n)], n),
        forall|k: int| 0 <= k < first_of(m, n) ==> !in_stack(#[trigger] m[k], n),
        forall|f: int|
            0 <= f < m.len() && in_stack(m[f], n) && (forall|k: int| 0 <= k < f ==> !in_stack(#[trigger] m[k], n))
                ==> f == first_of(m, n),
{
    let w = lemma_first_member(m, n, j);
    let f0 = first_of(m, n);
    assert(0 <= f0 < m.len() && in_stack(m[f0], n));
    if f0 > j {
        assert(!in_stack(m[j], n));
    }
    assert forall|f: int|
        0 <= f < m.len() && in_stack(m[f], n) && (forall|k: int| 0 <= k < f ==> !in_stack(#[trigger] m[k], n))
            implies f == f0 by {
        if f < f0 {
            assert(!in_stack(m[f], n));
        }
        if f0 < f {
            assert(!in_stack(m[f0], n));
        }
    }
}

/// Which unit of `m` shows the PR at `j`: itself outside stacks, the first
/// member of its stack otherwise.
pub open spec fn unit_owner(m: Seq<PullRequest>) -> spec_fn(int) -> int {
    |j: int| match m[j].stack {
        Some(s) => first_of(m, s.number),
        None => j,
    }
}

#[verifier::spinoff_prover]
#[verifier::rlimit(40)]
proof fn lemma_unit_count(m: Seq<PullRequest>, r: Seq<char>, k: int)
    requires
        0 <= k < m.len(),
    ensures
        pr_row_count(unit_rows(m, r, Seq::empty(), k)) == count_upto(m.len() as int, owned_by(unit_owner(m), k)),
{
    let c = Seq::<GroupId>::empty();
    let owner = unit_owner(m);
    let len = m.len() as int;
    assert forall|j: int| 0 <= j < len && (#[trigger] m[j]).stack is Some implies {
        let n = m[j].stack.unwrap().number;
        &&& 0 <= owner(j) <= j
        &&& in_stack(m[owner(j)], n)
        &&& m[owner(j)].stack is Some
    } by {
        lemma_first_of(m, m[j].stack.unwrap().number, j);
    }
    match m[k].stack {
        None => {
            let x = RowView::PullRequest { pr: m[k], in_stack: false };
            lemma_pr_row_count_single(x);
            assert forall|j: int| 0 <= j < len && j != k implies !#[trigger] owned_by(owner, k)(j) by {
                if m[j].stack is Some {
                    assert(m[owner(j)].stack is Some);
                }
            }
            lemma_count_single(len, owned_by(owner, k), k);
        },
        Some(st) => {
            let n = st.number;
            if starts_stack(m, k) {
                lemma_stack_base_to_tip(m, n);
                let g = stack_members(m, n);
                let head = seq![RowView::Stack { id: GroupKey::Stack { repo: r, number: n }, number: n, shown: g.len(), total: max_size(m, g) }];
                let kids = g.map_values(|j: int| RowView::PullRequest { pr: m[j], in_stack: true });
                assert(!is_collapsed(c, GroupKey::Stack { repo: r, number: n }));
                assert(unit_rows(m, r, c, k) == head + kids);
                lemma_pr_row_count_add(head, kids);
                lemma_pr_row_count_single(head[0]);
                assert(head =~= seq![head[0]]);
                lemma_pr_row_count_children(m, g);
                lemma_first_of(m, n, k);
                assert(first_of(m, n) == k);
                let member = |j: int| in_stack(m[j], n);
                assert forall|j: int| 0 <= j < len implies #[trigger] owned_by(owner, k)(j) == member(j) by {
                    match m[j].stack {
                        Some(sj) => {
                            lemma_first_of(m, sj.number, j);
                            if member(j) {
                                assert(owner(j) == k);
                            }
                            if owner(j) == k {
                                assert(in_stack(m[k], sj.number));
                            }
                        },
                        None => {
                            assert(!member(j));
                        },
                    }
                }
                lemma_count_ext(len, owned_by(owner, k), member);
                assert(g.no_duplicates()) by {
                    assert forall|a: int, b: int| 0 <= a < g.len() && 0 <= b < g.len() && a != b implies g[a] != g[b] by {
                        if a < b {
                            assert(before_in_stack(m, g[a], g[b]));
                        } else {
                            assert(before_in_stack(m, g[b], g[a]));
                        }
                    }
                }
                assert forall|j: int| #[trigger] g.contains(j) <==> 0 <= j < len && member(j) by {}
                lemma_listing_len(g, len, member);
            } else {
                assert(unit_rows(m, r, c, k) == Seq::<RowView>::empty());
                assert forall|j: int| 0 <= j < len implies !#[trigger] owned_by(owner, k)(j) by {
                    match m[j].stack {
                        Some(sj) => {
                            lemma_first_of(m, sj.number, j);
                            if owner(j) == k {
                                assert(in_stack(m[k], sj.number));
                                assert(sj.number == n);
                                assert(starts_stack(m, k));
                            }
                        },
                        None => {},
                    }
                }
                lemma_count_none(len, owned_by(owner, k));
            }
        },
    }
}

proof fn lemma_repo_block_count(prs: Seq<PullRequest>, r: Seq<char>)
    ensures
        pr_row_count(repo_rows(prs, r, Seq::empty())) == members(prs, r).len(),
{
    let c = Seq::<GroupId>::empty();
    let m = members(prs, r);
    let len = m.len() as int;
    let units = Seq::new(m.len(), |i: int| unit_rows(m, r, c, i));
    let header = seq![RowView::Repository { id: GroupKey::Repo(r), repo: r, count: m.len() }];
    assert(!is_collapsed(c, GroupKey::Repo(r)));
    assert(repo_rows(prs, r, c) == header + units.flatten());
    lemma_pr_row_count_add(header, units.flatten());
    lemma_pr_row_count_single(header[0]);
    assert(header =~= seq![header[0]]);
    lemma_pr_row_count_flatten(units);
    let owner = unit_owner(m);
    assert forall|i: int| 0 <= i < len implies #[trigger] block_counts(units)(i)
        == fibre_counts(len, owner)(i) by {
        lemma_unit_count(m, r, i);
    }
    lemma_sum_ext(len, block_counts(units), fibre_counts(len, owner));
    assert forall|j: int| 0 <= j < len implies #[trigger] owner(j) >= 0 && owned_below(owner, len)(j) by {
        if m[j].stack is Some {
            lemma_first_of(m, m[j].stack.unwrap().number, j);
        }
    }
    lemma_fibres(len, owner, len);
    lemma_count_all(len, owned_below(owner, len));
}

proof fn lemma_members_len(prs: Seq<PullRequest>, r: Seq<char>)
    ensures
        members(prs, r).len() == count_upto(prs.len() as int, repo_is(prs, r)),
    decreases prs.len(),
{
    if prs.len() == 0 {
        assert(members(prs, r) =~= prs) by {
            reveal(Seq::filter);
        }
    } else {
        let init = prs.drop_last();
        lemma_members_len(init, r);
        assert(init.push(prs.last()) =~= prs);
        init.lemma_filter_push(prs.last(), in_repo(r));
        lemma_count_ext(init.len() as int, repo_is(init, r), repo_is(prs, r));
    }
}

/// With nothing collapsed, the table has exactly as many PR rows as there
/// are pull requests: together with the two laws above, every pull request
/// is listed exactly once.
pub proof fn lemma_tree_lists_each_pr_once(prs: Seq<PullRequest>)
    ensures
        pr_row_count(tree_rows(prs, Seq::empty())) == prs.len(),
{
    let c = Seq::<GroupId>::empty();
    lemma_repositories_sorted(prs);
    lemma_str_lt_order();
    let rs = sorted_repos(prs);
    let q_len = rs.len() as int;
    let n = prs.len() as int;
    let blocks = rs.map_values(|name: Seq<char>| repo_rows(prs, name, c));
    lemma_pr_row_count_flatten(blocks);
    let owner = |i: int| choose|q: int| 0 <= q < rs.len() && rs[q] == prs[i].repo@;
    assert forall|i: int| 0 <= i < n implies 0 <= #[trigger] owner(i) < q_len && rs[owner(i)] == prs[i].repo@ by {
        assert(rs.contains(prs[i].repo@));
    }
    assert forall|q: int| 0 <= q < q_len implies #[trigger] block_counts(blocks)(q)
        == fibre_counts(n, owner)(q) by {
        lemma_repo_block_count(prs, rs[q]);
        lemma_members_len(prs, rs[q]);
        assert forall|i: int| 0 <= i < n implies #[trigger] repo_is(prs, rs[q])(i) == owned_by(owner, q)(i) by {
            if prs[i].repo@ == rs[q] && owner(i) != q {
                let o = owner(i);
                if o < q {
                    assert(str_lt(rs[o], rs[q]));
                } else {
                    assert(str_lt(rs[q], rs[o]));
                }
            }
        }
        lemma_count_ext(n, repo_is(prs, rs[q]), owned_by(owner, q));
    }
    lemma_sum_ext(q_len, block_counts(blocks), fibre_counts(n, owner));
    lemma_fibres(n, owner, q_len);
    lemma_count_all(n, owned_below(owner, q_len));
}

/// No pull requests, no rows, whatever is collapsed.
pub proof fn lemma_empty_tree(collapsed: Seq<GroupId>)
    ensures
        tree_rows(Seq::empty(), collapsed) == Seq::<RowView>::empty(),
{
    let prs = Seq::<PullRequest>::empty();
    assert(repo_order(Seq::empty(), prs));
    lemma_sorted_repos(prs, Seq::empty());
    assert(sorted_repos(prs).map_values(|r: Seq<char>| repo_rows(prs, r, collapsed)) =~= Seq::<Seq<RowView>>::empty());
}

} // verus!
