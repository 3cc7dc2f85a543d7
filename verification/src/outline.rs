//! What the popup's outline table shows: item identities, parentage, titles,
//! column labels, heading and footer. Drawing them is the caller's part.

use vstd::prelude::*;
use crate::github::opt_string_view;
use crate::model::{CiState, PullRequest, ReviewDecision, ReviewState, Reviewer, Snapshot};
use crate::avatars::string_views;
use crate::text::{decimal, lemma_decimal_value, push_decimal, str_eq};
use crate::tree::{
    is_collapsed, lemma_repositories_sorted, members, repo_rows, rows, rows_view, sorted_repos,
    stack_members, stack_rows, tree_rows, unit_rows, GroupId, GroupKey, Row, RowView,
};

verus! {

/// The outline key of a group: `repo:{repo}` or `repo:{repo}:stack:{number}`.
pub open spec fn group_key_text(id: GroupKey) -> Seq<char> {
    match id {
        GroupKey::Repo(r) => "repo:"@ + r,
        GroupKey::Stack { repo, number } => "repo:"@ + repo + ":stack:"@ + decimal(number as nat),
    }
}

/// The repository a group belongs to.
pub open spec fn group_repo(id: GroupKey) -> Seq<char> {
    match id {
        GroupKey::Repo(r) => r,
        GroupKey::Stack { repo, .. } => repo,
    }
}

/// Group keys never collide: two groups with the same outline key are the
/// same group, as long as repository names hold no `:` (GitHub's
/// `owner/name` never does). In particular stacks with the same number in
/// two repositories have different keys.
pub proof fn lemma_group_keys_distinct(a: GroupKey, b: GroupKey)
    requires
        !group_repo(a).contains(':'),
        !group_repo(b).contains(':'),
        group_key_text(a) == group_key_text(b),
    ensures
        a == b,
{
    reveal_strlit("repo:");
    reveal_strlit(":stack:");
    let ka = group_key_text(a);
    let kb = group_key_text(b);
    let ra = group_repo(a);
    let rb = group_repo(b);
    let la = ra.len() as int;
    let lb = rb.len() as int;
    assert(ka.subrange(0, 5) =~= "repo:"@);
    assert(ka.len() >= 5 + ra.len());
    assert(kb.len() >= 5 + rb.len());
    assert forall|i: int| 0 <= i < ra.len() implies ka[5 + i] == ra[i] by {}
    assert forall|i: int| 0 <= i < rb.len() implies kb[5 + i] == rb[i] by {}
    if a is Stack {
        assert(ka[5 + la] == ':');
    }
    if b is Stack {
        assert(kb[5 + lb] == ':');
    }
    if ra.len() < rb.len() {
        assert(kb[5 + la] == rb[ra.len() as int]);
        if a is Stack {
            assert(rb.contains(':'));
        } else {
            assert(ka.len() == 5 + ra.len());
            assert(kb.len() > 5 + ra.len());
        }
    } else if rb.len() < ra.len() {
        assert(ka[5 + lb] == ra[rb.len() as int]);
        if b is Stack {
            assert(ra.contains(':'));
        } else {
            assert(kb.len() == 5 + rb.len());
        }
    } else {
        assert(ra =~= rb) by {
            assert forall|i: int| 0 <= i < ra.len() implies ra[i] == rb[i] by {
                assert(ka[5 + i] == kb[5 + i]);
            }
        }
        match (a, b) {
            (GroupKey::Stack { number: x, .. }, GroupKey::Stack { number: y, .. }) => {
                let start = 5 + la + 7;
                assert(ka.skip(start) =~= decimal(x as nat));
                assert(kb.skip(start) =~= decimal(y as nat));
                lemma_decimal_value(x as nat);
                lemma_decimal_value(y as nat);
            },
            (GroupKey::Repo(_), GroupKey::Stack { .. }) => {
                assert(ka.len() == 5 + ra.len());
            },
            (GroupKey::Stack { .. }, GroupKey::Repo(_)) => {
                assert(kb.len() == 5 + rb.len());
            },
            (GroupKey::Repo(_), GroupKey::Repo(_)) => {},
        }
    }
}

/// Stable outline key of a repository or stack group.
pub fn group_key(id: &GroupId) -> (key: String)
    ensures
        key@ == group_key_text(id@),
{
    match id {
        GroupId::Repo(repo) => {
            let mut key = String::from_str("repo:");
            key.append(repo.as_str());
            key
        },
        GroupId::Stack { repo, number } => {
            let mut key = String::from_str("repo:");
            key.append(repo.as_str());
            key.append(":stack:");
            push_decimal(&mut key, *number);
            key
        },
    }
}

/// Title of a repository row: `{repo}  ({count})`.
pub open spec fn repo_title_text(repo: Seq<char>, count: nat) -> Seq<char> {
    repo + "  ("@ + decimal(count) + ")"@
}

/// Title of a stack row: `Stack #{number} · {shown} of {total} PRs`.
pub open spec fn stack_title_text(number: u64, shown: nat, total: u64) -> Seq<char> {
    "Stack #"@ + decimal(number as nat) + " · "@ + decimal(shown) + " of "@ + decimal(total as nat)
        + " PRs"@
}

/// Title of a PR row: its title, marked when it is a draft.
pub open spec fn pr_title_text(pr: PullRequest) -> Seq<char> {
    if pr.is_draft {
        pr.title@ + " (draft)"@
    } else {
        pr.title@
    }
}

/// Title of a repository row.
pub fn repo_title(repo: &str, count: usize) -> (title: String)
    ensures
        title@ == repo_title_text(repo@, count as nat),
{
    let mut title = String::from_str(repo);
    title.append("  (");
    push_decimal(&mut title, count as u64);
    title.append(")");
    title
}

/// Title of a stack row.
pub fn stack_title(number: u64, shown: usize, total: u64) -> (title: String)
    ensures
        title@ == stack_title_text(number, shown as nat, total),
{
    let mut title = String::from_str("Stack #");
    push_decimal(&mut title, number);
    title.append(" · ");
    push_decimal(&mut title, shown as u64);
    title.append(" of ");
    push_decimal(&mut title, total);
    title.append(" PRs");
    title
}

/// Title of a PR row.
pub fn pr_title(pr: &PullRequest) -> (title: String)
    ensures
        title@ == pr_title_text(*pr),
{
    let mut title = String::from_str(pr.title.as_str());
    if pr.is_draft {
        title.append(" (draft)");
    }
    title
}

/// One item of the native outline: its key, title, parent's key, and the PR
/// it opens, if any.
pub struct OutlineEntry<'a> {
    pub key: String,
    pub title: String,
    pub parent: Option<String>,
    pub pr: Option<&'a PullRequest>,
}

/// What an `OutlineEntry` holds.
pub struct OutlineView {
    pub key: Seq<char>,
    pub title: Seq<char>,
    pub parent: Option<Seq<char>>,
    pub pr: Option<PullRequest>,
}

impl<'a> View for OutlineEntry<'a> {
    type V = OutlineView;

    open spec fn view(&self) -> OutlineView {
        OutlineView {
            key: self.key@,
            title: self.title@,
            parent: opt_string_view(self.parent),
            pr: match self.pr {
                Some(p) => Some(*p),
                None => None,
            },
        }
    }
}

/// Key of the last repository row before row `k`, empty when there is none.
pub open spec fn last_repo_key(rows: Seq<RowView>, k: int) -> Seq<char>
    decreases k,
{
    if k <= 0 {
        Seq::empty()
    } else {
        match rows[k - 1] {
            RowView::Repository { id, .. } => group_key_text(id),
            _ => last_repo_key(rows, k - 1),
        }
    }
}

/// Key of the last stack row before row `k`, empty when there is none.
pub open spec fn last_stack_key(rows: Seq<RowView>, k: int) -> Seq<char>
    decreases k,
{
    if k <= 0 {
        Seq::empty()
    } else {
        match rows[k - 1] {
            RowView::Stack { id, .. } => group_key_text(id),
            _ => last_stack_key(rows, k - 1),
        }
    }
}

/// The outline item of row `k`: a repository is a root; a stack hangs under
/// the repository above it; a PR, keyed by its URL, hangs under the stack
/// above it when it is a stack member and under the repository otherwise.
pub open spec fn entry_of(rows: Seq<RowView>, k: int) -> OutlineView {
    match rows[k] {
        RowView::Repository { id, repo, count } => OutlineView {
            key: group_key_text(id),
            title: repo_title_text(repo, count),
            parent: None,
            pr: None,
        },
        RowView::Stack { id, number, shown, total } => OutlineView {
            key: group_key_text(id),
            title: stack_title_text(number, shown, total),
            parent: Some(last_repo_key(rows, k)),
            pr: None,
        },
        RowView::PullRequest { pr, in_stack } => OutlineView {
            key: pr.url@,
            title: pr_title_text(pr),
            parent: Some(
                if in_stack {
                    last_stack_key(rows, k)
                } else {
                    last_repo_key(rows, k)
                },
            ),
            pr: Some(pr),
        },
    }
}

/// The outline items of a whole table, one per row of the uncollapsed tree.
pub open spec fn outline_of(prs: Seq<PullRequest>) -> Seq<OutlineView> {
    let table = tree_rows(prs, Seq::empty());
    Seq::new(table.len(), |k: int| entry_of(table, k))
}

/// Views of a list of outline entries.
pub open spec fn outline_views<'a>(entries: Seq<OutlineEntry<'a>>) -> Seq<OutlineView> {
    entries.map_values(|e: OutlineEntry<'a>| e@)
}

/// The native outline's items: the uncollapsed table, with each item's key,
/// title and parent (collapse state is kept by the native view itself).
pub fn outline_entries<'a>(prs: &'a [PullRequest]) -> (entries: Vec<OutlineEntry<'a>>)
    ensures
        outline_views(entries@) == outline_of(prs@),
{
    let none: Vec<GroupId> = Vec::new();
    let table = rows(prs, none.as_slice());
    let ghost tv = rows_view(table@);
    assert(none@ =~= Seq::<GroupId>::empty());
    assert(tv == tree_rows(prs@, Seq::empty()));
    let mut entries: Vec<OutlineEntry<'a>> = Vec::new();
    let mut repo_key = String::new();
    let mut stack_key = String::new();
    let mut k: usize = 0;
    while k < table.len()
        invariant
            tv == rows_view(table@),
            k <= table@.len(),
            repo_key@ == last_repo_key(tv, k as int),
            stack_key@ == last_stack_key(tv, k as int),
            outline_views(entries@) == Seq::new(k as nat, |q: int| entry_of(tv, q)),
        decreases table@.len() - k,
    {
        assert(tv[k as int] == table@[k as int]@);
        let entry = match &table[k] {
            Row::Repository { id, repo, count } => {
                repo_key = group_key(id);
                OutlineEntry {
                    key: group_key(id),
                    title: repo_title(repo, *count),
                    parent: None,
                    pr: None,
                }
            },
            Row::Stack { id, number, shown, total } => {
                stack_key = group_key(id);
                OutlineEntry {
                    key: group_key(id),
                    title: stack_title(*number, *shown, *total),
                    parent: Some(repo_key.clone()),
                    pr: None,
                }
            },
            Row::PullRequest { pr, in_stack } => {
                let parent = if *in_stack {
                    stack_key.clone()
                } else {
                    repo_key.clone()
                };
                OutlineEntry {
                    key: pr.url.clone(),
                    title: pr_title(pr),
                    parent: Some(parent),
                    pr: Some(*pr),
                }
            },
        };
        let ghost ev = entry@;
        let ghost before = outline_views(entries@);
        assert(ev == entry_of(tv, k as int));
        entries.push(entry);
        assert(outline_views(entries@) =~= before.push(ev));
        assert(outline_views(entries@) =~= Seq::new(k as nat + 1, |q: int| entry_of(tv, q)));
        k = k + 1;
    }
    entries
}

/// The group items (repositories and stacks) of `entries`, in order, whose
/// keys are not in `collapsed`: after a refresh these are expanded, and the
/// groups the user had collapsed stay collapsed.
pub open spec fn expanded_keys(entries: Seq<OutlineView>, collapsed: Seq<Seq<char>>) -> Seq<Seq<char>>
    decreases entries.len(),
{
    if entries.len() == 0 {
        Seq::empty()
    } else {
        let earlier = expanded_keys(entries.drop_last(), collapsed);
        let e = entries.last();
        if e.pr is None && !collapsed.contains(e.key) {
            earlier.push(e.key)
        } else {
            earlier
        }
    }
}

/// A refresh keeps the user's collapsed groups collapsed and expands every
/// other group: a key is expanded exactly when it belongs to a group item
/// and was not collapsed.
pub proof fn lemma_refresh_keeps_collapsed_groups(entries: Seq<OutlineView>, collapsed: Seq<Seq<char>>)
    ensures
        forall|key: Seq<char>| #[trigger] expanded_keys(entries, collapsed).contains(key) <==> (!collapsed.contains(key)
            && exists|j: int| 0 <= j < entries.len() && (#[trigger] entries[j]).pr is None && entries[j].key == key),
    decreases entries.len(),
{
    if entries.len() > 0 {
        let init = entries.drop_last();
        lemma_refresh_keeps_collapsed_groups(init, collapsed);
        let e = entries.last();
        let earlier = expanded_keys(init, collapsed);
        let last = entries.len() - 1;
        assert(entries[last] == e);
        assert forall|key: Seq<char>| #[trigger] expanded_keys(entries, collapsed).contains(key) <==> (!collapsed.contains(key)
            && exists|j: int| 0 <= j < entries.len() && (#[trigger] entries[j]).pr is None && entries[j].key == key) by {
            let grows = e.pr is None && !collapsed.contains(e.key);
            if grows {
                assert(expanded_keys(entries, collapsed) == earlier.push(e.key));
                assert(earlier.push(e.key).contains(key) <==> (earlier.contains(key) || key == e.key)) by {
                    if earlier.push(e.key).contains(key) {
                        let q = choose|q: int| 0 <= q < earlier.len() + 1 && earlier.push(e.key)[q] == key;
                        if q < earlier.len() {
                            assert(earlier[q] == key);
                        }
                    }
                    if earlier.contains(key) {
                        let q = choose|q: int| 0 <= q < earlier.len() && earlier[q] == key;
                        assert(earlier.push(e.key)[q] == key);
                    }
                    if key == e.key {
                        assert(earlier.push(e.key)[earlier.len() as int] == key);
                    }
                }
            } else {
                assert(expanded_keys(entries, collapsed) == earlier);
            }
            if expanded_keys(entries, collapsed).contains(key) {
                if earlier.contains(key) {
                    let j = choose|j: int| 0 <= j < init.len() && (#[trigger] init[j]).pr is None && init[j].key == key;
                    assert(entries[j] == init[j]);
                } else {
                    assert(grows && key == e.key);
                    assert(entries[last].pr is None && entries[last].key == key);
                }
            }
            if !collapsed.contains(key) && exists|j: int| 0 <= j < entries.len() && (#[trigger] entries[j]).pr is None && entries[j].key == key {
                let j = choose|j: int| 0 <= j < entries.len() && (#[trigger] entries[j]).pr is None && entries[j].key == key;
                if j < init.len() {
                    assert(init[j] == entries[j]);
                    assert(earlier.contains(key));
                } else {
                    assert(j == last);
                    assert(grows);
                }
            }
        }
    }
}

fn contains_key(keys: &[String], key: &str) -> (found: bool)
    ensures
        found == string_views(keys@).contains(key@),
{
    let mut i: usize = 0;
    while i < keys.len()
        invariant
            i <= keys@.len(),
            forall|k: int| 0 <= k < i ==> (#[trigger] keys@[k])@ != key@,
        decreases keys@.len() - i,
    {
        if str_eq(keys[i].as_str(), key) {
            assert(string_views(keys@)[i as int] == key@);
            return true;
        }
        i = i + 1;
    }
    proof {
        if string_views(keys@).contains(key@) {
            let k = choose|k: int| 0 <= k < string_views(keys@).len() && string_views(keys@)[k] == key@;
            assert(keys@[k]@ == key@);
        }
    }
    false
}

/// The keys of the groups to expand after the outline is rebuilt, given the
/// keys of the groups that were collapsed before.
pub fn groups_to_expand<'a>(entries: &[OutlineEntry<'a>], collapsed: &[String]) -> (keys: Vec<String>)
    ensures
        string_views(keys@) == expanded_keys(outline_views(entries@), string_views(collapsed@)),
{
    let ghost all = outline_views(entries@);
    let ghost shut = string_views(collapsed@);
    let mut keys: Vec<String> = Vec::new();
    let mut i: usize = 0;
    assert(all.take(0) =~= Seq::<OutlineView>::empty());
    while i < entries.len()
        invariant
            all == outline_views(entries@),
            shut == string_views(collapsed@),
            i <= entries@.len(),
            string_views(keys@) == expanded_keys(all.take(i as int), shut),
        decreases entries@.len() - i,
    {
        let entry = &entries[i];
        assert(all.take(i as int + 1).drop_last() =~= all.take(i as int));
        assert(all.take(i as int + 1).last() == entry@);
        if entry.pr.is_none() && !contains_key(collapsed, entry.key.as_str()) {
            keys.push(entry.key.clone());
            assert(string_views(keys@) =~= expanded_keys(all.take(i as int), shut).push(entry.key@));
        }
        i = i + 1;
    }
    assert(all.take(entries@.len() as int) =~= all);
    keys
}

/// A PR row shown as a stack member.
pub open spec fn is_member_row(row: RowView) -> bool {
    row matches RowView::PullRequest { in_stack, .. } && in_stack
}

/// Every stack-member row comes right after its stack's header or after
/// another member.
pub open spec fn members_follow_headers(rows: Seq<RowView>) -> bool {
    forall|k: int|
        0 <= k < rows.len() && is_member_row(#[trigger] rows[k]) ==> k > 0 && (rows[k - 1] is Stack
            || is_member_row(rows[k - 1]))
}

/// `rows` does not start with a stack-member row.
pub open spec fn starts_outside_stacks(rows: Seq<RowView>) -> bool {
    rows.len() == 0 || !is_member_row(rows[0])
}

pub(crate) proof fn lemma_members_follow_headers_add(a: Seq<RowView>, b: Seq<RowView>)
    requires
        members_follow_headers(a),
        members_follow_headers(b),
        starts_outside_stacks(a),
        starts_outside_stacks(b),
    ensures
        members_follow_headers(a + b),
        starts_outside_stacks(a + b),
{
    let ab = a + b;
    assert forall|k: int| 0 <= k < ab.len() && is_member_row(#[trigger] ab[k]) implies k > 0 && (ab[k - 1] is Stack
        || is_member_row(ab[k - 1])) by {
        if k < a.len() {
            assert(ab[k] == a[k]);
            assert(ab[k - 1] == a[k - 1]);
        } else {
            assert(ab[k] == b[k - a.len()]);
            assert(k - a.len() > 0);
            assert(ab[k - 1] == b[k - 1 - a.len()]);
        }
    }
    if a.len() == 0 {
        assert(ab =~= b);
    } else {
        assert(ab[0] == a[0]);
    }
}

pub(crate) proof fn lemma_members_follow_headers_flatten(ss: Seq<Seq<RowView>>)
    requires
        forall|q: int| 0 <= q < ss.len() ==> members_follow_headers(#[trigger] ss[q]) && starts_outside_stacks(ss[q]),
    ensures
        members_follow_headers(ss.flatten()),
        starts_outside_stacks(ss.flatten()),
    decreases ss.len(),
{
    if ss.len() > 0 {
        let rest = ss.drop_first();
        assert forall|q: int| 0 <= q < rest.len() implies members_follow_headers(#[trigger] rest[q]) && starts_outside_stacks(rest[q]) by {
            assert(rest[q] == ss[q + 1]);
        }
        lemma_members_follow_headers_flatten(rest);
        assert(members_follow_headers(ss[0]) && starts_outside_stacks(ss[0]));
        lemma_members_follow_headers_add(ss.first(), rest.flatten());
    }
}

pub(crate) proof fn lemma_unit_rows_shape(m: Seq<PullRequest>, r: Seq<char>, c: Seq<GroupId>, i: int)
    requires
        0 <= i < m.len(),
    ensures
        members_follow_headers(unit_rows(m, r, c, i)),
        starts_outside_stacks(unit_rows(m, r, c, i)),
{
    let u = unit_rows(m, r, c, i);
    match m[i].stack {
        None => {
            assert(u[0] is PullRequest && !is_member_row(u[0]));
        },
        Some(st) => {
            if u.len() > 0 {
                let n = st.number;
                let g = stack_members(m, n);
                let head = seq![RowView::Stack { id: GroupKey::Stack { repo: r, number: n }, number: n, shown: g.len(), total: crate::tree::max_size(m, g) }];
                assert(u == stack_rows(m, r, n, c));
                assert(u[0] == head[0]);
                assert forall|k: int| 0 <= k < u.len() && is_member_row(#[trigger] u[k]) implies k > 0 && (u[k - 1] is Stack
                    || is_member_row(u[k - 1])) by {
                    if k > 1 {
                        let kids = g.map_values(|j: int| RowView::PullRequest { pr: m[j], in_stack: true });
                        assert(!is_collapsed(c, GroupKey::Stack { repo: r, number: n }));
                        assert(u == head + kids);
                        assert(u[k - 1] == kids[k - 2]);
                    }
                }
            }
        },
    }
}

/// The uncollapsed table starts with a repository row, and every stack
/// member row follows its stack's header or another member.
proof fn lemma_table_shape(prs: Seq<PullRequest>)
    ensures
        members_follow_headers(tree_rows(prs, Seq::empty())),
        tree_rows(prs, Seq::empty()).len() > 0 ==> tree_rows(prs, Seq::empty())[0] is Repository,
{
    let c = Seq::<GroupId>::empty();
    let rs = sorted_repos(prs);
    let blocks = rs.map_values(|name: Seq<char>| repo_rows(prs, name, c));
    assert forall|q: int| 0 <= q < blocks.len() implies members_follow_headers(#[trigger] blocks[q]) && starts_outside_stacks(blocks[q]) by {
        let r = rs[q];
        let m = members(prs, r);
        let units = Seq::new(m.len(), |i: int| unit_rows(m, r, c, i));
        let header = seq![RowView::Repository { id: GroupKey::Repo(r), repo: r, count: m.len() }];
        assert(!is_collapsed(c, GroupKey::Repo(r)));
        assert(blocks[q] == header + units.flatten());
        assert forall|i: int| 0 <= i < units.len() implies members_follow_headers(#[trigger] units[i]) && starts_outside_stacks(units[i]) by {
            lemma_unit_rows_shape(m, r, c, i);
        }
        lemma_members_follow_headers_flatten(units);
        assert(members_follow_headers(header)) by {
            assert(!is_member_row(header[0]));
        }
        lemma_members_follow_headers_add(header, units.flatten());
    }
    lemma_members_follow_headers_flatten(blocks);
    if blocks.flatten().len() > 0 {
        assert(blocks.len() > 0);
        assert(blocks.flatten() == blocks.first() + blocks.drop_first().flatten());
        assert(blocks[0][0] is Repository);
    }
}

proof fn lemma_last_repo_key(rows: Seq<RowView>, k: int) -> (j: int)
    requires
        0 < k <= rows.len(),
        rows[0] is Repository,
    ensures
        0 <= j < k,
        rows[j] matches RowView::Repository { id, .. } && last_repo_key(rows, k) == group_key_text(id),
    decreases k,
{
    if rows[k - 1] is Repository {
        k - 1
    } else {
        lemma_last_repo_key(rows, k - 1)
    }
}

pub(crate) proof fn lemma_last_stack_key(rows: Seq<RowView>, k: int) -> (j: int)
    requires
        members_follow_headers(rows),
        0 <= k < rows.len(),
        is_member_row(rows[k]),
    ensures
        0 <= j < k,
        rows[j] matches RowView::Stack { id, .. } && last_stack_key(rows, k) == group_key_text(id),
    decreases k,
{
    assert(k > 0 && (rows[k - 1] is Stack || is_member_row(rows[k - 1])));
    if rows[k - 1] is Stack {
        k - 1
    } else {
        lemma_last_stack_key(rows, k - 1)
    }
}

/// Every outline item with a parent comes after it: the parent's key is the
/// key of an earlier group item (a repository, or the stack a member
/// belongs to), so the outline can be built top down in one pass.
pub proof fn lemma_parent_precedes_child(prs: Seq<PullRequest>)
    ensures
        forall|k: int|
            0 <= k < outline_of(prs).len() && (#[trigger] outline_of(prs)[k]).parent is Some ==> exists|j: int|
                0 <= j < k && outline_of(prs)[j].pr is None && outline_of(prs)[j].key == outline_of(
                    prs,
                )[k].parent.unwrap(),
{
    let table = tree_rows(prs, Seq::empty());
    let outline = outline_of(prs);
    lemma_table_shape(prs);
    assert forall|k: int| 0 <= k < outline.len() && (#[trigger] outline[k]).parent is Some implies exists|j: int|
        0 <= j < k && outline[j].pr is None && outline[j].key == outline[k].parent.unwrap() by {
        assert(outline[k] == entry_of(table, k));
        match table[k] {
            RowView::Repository { .. } => {},
            RowView::Stack { .. } => {
                assert(k > 0);
                let j = lemma_last_repo_key(table, k);
                assert(outline[j] == entry_of(table, j));
            },
            RowView::PullRequest { in_stack, .. } => {
                if in_stack {
                    assert(is_member_row(table[k]));
                    let j = lemma_last_stack_key(table, k);
                    assert(outline[j] == entry_of(table, j));
                } else {
                    assert(k > 0);
                    let j = lemma_last_repo_key(table, k);
                    assert(outline[j] == entry_of(table, j));
                }
            },
        }
    }
}

proof fn lemma_last_repo_key_local(a: Seq<RowView>, b: Seq<RowView>, i: int, j: int)
    requires
        0 <= j < i <= b.len(),
        b[j] is Repository,
    ensures
        last_repo_key(a + b, a.len() + i) == last_repo_key(b, i),
    decreases i,
{
    assert((a + b)[a.len() + i - 1] == b[i - 1]);
    if !(b[i - 1] is Repository) {
        lemma_last_repo_key_local(a, b, i - 1, j);
    }
}

proof fn lemma_last_stack_key_local(a: Seq<RowView>, b: Seq<RowView>, i: int, j: int)
    requires
        0 <= j < i <= b.len(),
        b[j] is Stack,
    ensures
        last_stack_key(a + b, a.len() + i) == last_stack_key(b, i),
    decreases i,
{
    assert((a + b)[a.len() + i - 1] == b[i - 1]);
    if !(b[i - 1] is Stack) {
        lemma_last_stack_key_local(a, b, i - 1, j);
    }
}

/// Every row of `rows` belongs to repository `r`: no repository rows, stack
/// rows of `r`'s stacks, and PR rows of `r`'s pull requests.
pub open spec fn rows_of_repo(rows: Seq<RowView>, r: Seq<char>) -> bool {
    forall|k: int|
        0 <= k < rows.len() ==> match #[trigger] rows[k] {
            RowView::Repository { .. } => false,
            RowView::Stack { id, .. } => id matches GroupKey::Stack { repo, .. } && repo == r,
            RowView::PullRequest { pr, .. } => pr.repo@ == r,
        }
}

/// Each stack member row of `rows` has its own stack as the last stack
/// header above it.
pub open spec fn members_under_own_stack(rows: Seq<RowView>) -> bool {
    forall|k: int|
        0 <= k < rows.len() && is_member_row(#[trigger] rows[k]) ==> rows[k]->pr.stack is Some
            && last_stack_key(rows, k) == group_key_text(
            GroupKey::Stack { repo: rows[k]->pr.repo@, number: rows[k]->pr.stack.unwrap().number },
        )
}

/// Each stack row and each PR row outside stacks has its own repository as
/// the last repository header above it.
pub open spec fn rows_under_own_repo(rows: Seq<RowView>) -> bool {
    forall|k: int|
        0 <= k < rows.len() ==> match #[trigger] rows[k] {
            RowView::Repository { .. } => true,
            RowView::Stack { id, .. } => last_repo_key(rows, k) == group_key_text(GroupKey::Repo(group_repo(id))),
            RowView::PullRequest { pr, in_stack } => in_stack || last_repo_key(rows, k) == group_key_text(
                GroupKey::Repo(pr.repo@),
            ),
        }
}

proof fn lemma_rows_of_repo_add(a: Seq<RowView>, b: Seq<RowView>, r: Seq<char>)
    requires
        rows_of_repo(a, r),
        rows_of_repo(b, r),
    ensures
        rows_of_repo(a + b, r),
{
    assert forall|k: int| 0 <= k < (a + b).len() implies match #[trigger] (a + b)[k] {
        RowView::Repository { .. } => false,
        RowView::Stack { id, .. } => id matches GroupKey::Stack { repo, .. } && repo == r,
        RowView::PullRequest { pr, .. } => pr.repo@ == r,
    } by {
        if k < a.len() {
            assert((a + b)[k] == a[k]);
        } else {
            assert((a + b)[k] == b[k - a.len()]);
        }
    }
}

proof fn lemma_members_under_own_stack_add(a: Seq<RowView>, b: Seq<RowView>)
    requires
        members_under_own_stack(a),
        members_under_own_stack(b),
        members_follow_headers(b),
    ensures
        members_under_own_stack(a + b),
{
    let ab = a + b;
    assert forall|k: int| 0 <= k < ab.len() && is_member_row(#[trigger] ab[k]) implies ab[k]->pr.stack is Some
        && last_stack_key(ab, k) == group_key_text(
        GroupKey::Stack { repo: ab[k]->pr.repo@, number: ab[k]->pr.stack.unwrap().number },
    ) by {
        if k < a.len() {
            assert(ab[k] == a[k]);
            lemma_last_stack_key_prefix(a, b, k);
        } else {
            let i = k - a.len();
            assert(ab[k] == b[i]);
            let j = lemma_last_stack_key(b, i);
            lemma_last_stack_key_local(a, b, i, j);
        }
    }
}

proof fn lemma_last_stack_key_prefix(a: Seq<RowView>, b: Seq<RowView>, k: int)
    requires
        0 <= k <= a.len(),
    ensures
        last_stack_key(a + b, k) == last_stack_key(a, k),
        last_repo_key(a + b, k) == last_repo_key(a, k),
    decreases k,
{
    if k > 0 {
        assert((a + b)[k - 1] == a[k - 1]);
        lemma_last_stack_key_prefix(a, b, k - 1);
    }
}

proof fn lemma_members_under_own_stack_flatten(ss: Seq<Seq<RowView>>)
    requires
        forall|q: int|
            0 <= q < ss.len() ==> members_under_own_stack(#[trigger] ss[q]) && members_follow_headers(ss[q])
                && starts_outside_stacks(ss[q]),
    ensures
        members_under_own_stack(ss.flatten()),
    decreases ss.len(),
{
    if ss.len() > 0 {
        let rest = ss.drop_first();
        assert forall|q: int| 0 <= q < rest.len() implies members_under_own_stack(#[trigger] rest[q])
            && members_follow_headers(rest[q]) && starts_outside_stacks(rest[q]) by {
            assert(rest[q] == ss[q + 1]);
        }
        lemma_members_under_own_stack_flatten(rest);
        lemma_members_follow_headers_flatten(rest);
        assert(members_under_own_stack(ss[0]));
        lemma_members_under_own_stack_add(ss.first(), rest.flatten());
    }
}

proof fn lemma_rows_of_repo_flatten(ss: Seq<Seq<RowView>>, r: Seq<char>)
    requires
        forall|q: int| 0 <= q < ss.len() ==> rows_of_repo(#[trigger] ss[q], r),
    ensures
        rows_of_repo(ss.flatten(), r),
    decreases ss.len(),
{
    if ss.len() > 0 {
        let rest = ss.drop_first();
        assert forall|q: int| 0 <= q < rest.len() implies rows_of_repo(#[trigger] rest[q], r) by {
            assert(rest[q] == ss[q + 1]);
        }
        lemma_rows_of_repo_flatten(rest, r);
        assert(rows_of_repo(ss[0], r));
        lemma_rows_of_repo_add(ss.first(), rest.flatten(), r);
    }
}

proof fn lemma_last_keys_after_header(rows: Seq<RowView>, k: int)
    requires
        1 <= k <= rows.len(),
    ensures
        rows[0] is Repository && (forall|j: int| 0 < j < k ==> !(#[trigger] rows[j] is Repository))
            ==> last_repo_key(rows, k) == group_key_text(rows[0]->Repository_id),
        rows[0] is Stack && (forall|j: int| 0 < j < k ==> !(#[trigger] rows[j] is Stack))
            ==> last_stack_key(rows, k) == group_key_text(rows[0]->Stack_id),
    decreases k,
{
    if k > 1 {
        lemma_last_keys_after_header(rows, k - 1);
    }
}

proof fn lemma_unit_rows_own_groups(prs: Seq<PullRequest>, r: Seq<char>, i: int)
    requires
        0 <= i < members(prs, r).len(),
    ensures
        rows_of_repo(unit_rows(members(prs, r), r, Seq::empty(), i), r),
        members_under_own_stack(unit_rows(members(prs, r), r, Seq::empty(), i)),
{
    let c = Seq::<GroupId>::empty();
    let m = members(prs, r);
    let u = unit_rows(m, r, c, i);
    prs.lemma_filter_pred(crate::tree::in_repo(r), i);
    match m[i].stack {
        None => {
            assert(u[0] == RowView::PullRequest { pr: m[i], in_stack: false });
        },
        Some(st) => {
            if u.len() > 0 {
                let n = st.number;
                crate::tree::lemma_stack_base_to_tip(m, n);
                let g = stack_members(m, n);
                let head = seq![RowView::Stack { id: GroupKey::Stack { repo: r, number: n }, number: n, shown: g.len(), total: crate::tree::max_size(m, g) }];
                let kids = g.map_values(|j: int| RowView::PullRequest { pr: m[j], in_stack: true });
                assert(!is_collapsed(c, GroupKey::Stack { repo: r, number: n }));
                assert(u == stack_rows(m, r, n, c));
                assert(u == head + kids);
                assert forall|t: int| 0 <= t < kids.len() implies (#[trigger] kids[t]) == (RowView::PullRequest { pr: m[g[t]], in_stack: true })
                    && m[g[t]].repo@ == r && crate::tree::in_stack(m[g[t]], n) by {
                    assert(g.contains(g[t]));
                    prs.lemma_filter_pred(crate::tree::in_repo(r), g[t]);
                }
                assert forall|k: int| 0 <= k < u.len() implies match #[trigger] u[k] {
                    RowView::Repository { .. } => false,
                    RowView::Stack { id, .. } => id matches GroupKey::Stack { repo, .. } && repo == r,
                    RowView::PullRequest { pr, .. } => pr.repo@ == r,
                } by {
                    if k > 0 {
                        assert(u[k] == kids[k - 1]);
                    }
                }
                assert forall|k: int| 0 <= k < u.len() && is_member_row(#[trigger] u[k]) implies u[k]->pr.stack is Some
                    && last_stack_key(u, k) == group_key_text(
                    GroupKey::Stack { repo: u[k]->pr.repo@, number: u[k]->pr.stack.unwrap().number },
                ) by {
                    assert(k > 0);
                    assert(u[k] == kids[k - 1]);
                    assert forall|j: int| 0 < j < k implies !(#[trigger] u[j] is Stack) by {
                        assert(u[j] == kids[j - 1]);
                    }
                    lemma_last_keys_after_header(u, k);
                }
            }
        },
    }
}

pub(crate) proof fn lemma_repo_rows_own_groups(prs: Seq<PullRequest>, r: Seq<char>)
    ensures
        repo_rows(prs, r, Seq::empty()).len() > 0,
        repo_rows(prs, r, Seq::empty())[0] is Repository,
        members_follow_headers(repo_rows(prs, r, Seq::empty())),
        members_under_own_stack(repo_rows(prs, r, Seq::empty())),
        rows_under_own_repo(repo_rows(prs, r, Seq::empty())),
{
    let c = Seq::<GroupId>::empty();
    let m = members(prs, r);
    let units = Seq::new(m.len(), |i: int| unit_rows(m, r, c, i));
    let header = seq![RowView::Repository { id: GroupKey::Repo(r), repo: r, count: m.len() }];
    let block = repo_rows(prs, r, c);
    let body = units.flatten();
    assert(!is_collapsed(c, GroupKey::Repo(r)));
    assert(block == header + body);
    assert forall|i: int| 0 <= i < units.len() implies members_follow_headers(#[trigger] units[i])
        && starts_outside_stacks(units[i]) && members_under_own_stack(units[i]) && rows_of_repo(units[i], r) by {
        lemma_unit_rows_shape(m, r, c, i);
        lemma_unit_rows_own_groups(prs, r, i);
    }
    lemma_members_follow_headers_flatten(units);
    lemma_members_under_own_stack_flatten(units);
    lemma_rows_of_repo_flatten(units, r);
    assert(members_follow_headers(header)) by {
        assert(!is_member_row(header[0]));
    }
    assert(starts_outside_stacks(header)) by {
        assert(!is_member_row(header[0]));
    }
    lemma_members_follow_headers_add(header, body);
    assert(members_under_own_stack(header)) by {
        assert(!is_member_row(header[0]));
    }
    lemma_members_under_own_stack_add(header, body);
    assert(block[0] == header[0]);
    assert forall|k: int| 0 <= k < block.len() implies match #[trigger] block[k] {
        RowView::Repository { .. } => true,
        RowView::Stack { id, .. } => last_repo_key(block, k) == group_key_text(GroupKey::Repo(group_repo(id))),
        RowView::PullRequest { pr, in_stack } => in_stack || last_repo_key(block, k) == group_key_text(
            GroupKey::Repo(pr.repo@),
        ),
    } by {
        if k > 0 {
            assert(block[k] == body[k - 1]);
            assert forall|j: int| 0 < j < k implies !(#[trigger] block[j] is Repository) by {
                assert(block[j] == body[j - 1]);
            }
            lemma_last_keys_after_header(block, k);
        }
    }
}

proof fn lemma_rows_under_own_repo_add(a: Seq<RowView>, b: Seq<RowView>)
    requires
        rows_under_own_repo(a),
        rows_under_own_repo(b),
        b.len() > 0,
        b[0] is Repository,
    ensures
        rows_under_own_repo(a + b),
{
    let ab = a + b;
    assert forall|k: int| 0 <= k < ab.len() implies match #[trigger] ab[k] {
        RowView::Repository { .. } => true,
        RowView::Stack { id, .. } => last_repo_key(ab, k) == group_key_text(GroupKey::Repo(group_repo(id))),
        RowView::PullRequest { pr, in_stack } => in_stack || last_repo_key(ab, k) == group_key_text(
            GroupKey::Repo(pr.repo@),
        ),
    } by {
        if k < a.len() {
            assert(ab[k] == a[k]);
            lemma_last_stack_key_prefix(a, b, k);
        } else {
            let i = k - a.len();
            assert(ab[k] == b[i]);
            if i > 0 {
                lemma_last_repo_key_local(a, b, i, 0);
            }
        }
    }
}

proof fn lemma_rows_under_own_repo_flatten(ss: Seq<Seq<RowView>>)
    requires
        forall|q: int| 0 <= q < ss.len() ==> rows_under_own_repo(#[trigger] ss[q]) && ss[q].len() > 0 && ss[q][0] is Repository,
    ensures
        rows_under_own_repo(ss.flatten()),
        ss.flatten().len() > 0 ==> ss.flatten()[0] is Repository,
    decreases ss.len(),
{
    if ss.len() > 0 {
        let rest = ss.drop_first();
        assert forall|q: int| 0 <= q < rest.len() implies rows_under_own_repo(#[trigger] rest[q]) && rest[q].len() > 0 && rest[q][0] is Repository by {
            assert(rest[q] == ss[q + 1]);
        }
        lemma_rows_under_own_repo_flatten(rest);
        assert(rows_under_own_repo(ss[0]) && ss[0].len() > 0);
        assert(ss.flatten() == ss.first() + rest.flatten());
        assert(ss.flatten()[0] == ss[0][0]);
        if rest.flatten().len() > 0 {
            lemma_rows_under_own_repo_add(ss.first(), rest.flatten());
        } else {
            assert(ss.first() + rest.flatten() =~= ss.first());
        }
    }
}

/// The parent an outline item must have: none for a repository, its
/// repository for a stack, and for a pull request its stack when it belongs
/// to one and its repository otherwise.
pub open spec fn own_parent(row: RowView) -> Option<Seq<char>> {
    match row {
        RowView::Repository { .. } => None,
        RowView::Stack { id, .. } => Some(group_key_text(GroupKey::Repo(group_repo(id)))),
        RowView::PullRequest { pr, .. } => Some(
            match pr.stack {
                Some(s) => group_key_text(GroupKey::Stack { repo: pr.repo@, number: s.number }),
                None => group_key_text(GroupKey::Repo(pr.repo@)),
            },
        ),
    }
}

/// The outline's parentage is the real one: each item hangs under its own
/// group, a stack under its repository and a pull request under its stack
/// or, outside stacks, under its repository.
pub proof fn lemma_outline_parents_are_own_groups(prs: Seq<PullRequest>)
    ensures
        forall|k: int|
            0 <= k < outline_of(prs).len() ==> (#[trigger] outline_of(prs)[k]).parent == own_parent(
                tree_rows(prs, Seq::empty())[k],
            ),
{
    let c = Seq::<GroupId>::empty();
    let table = tree_rows(prs, c);
    let outline = outline_of(prs);
    lemma_repositories_sorted(prs);
    let rs = sorted_repos(prs);
    let blocks = rs.map_values(|name: Seq<char>| repo_rows(prs, name, c));
    assert forall|q: int| 0 <= q < blocks.len() implies members_follow_headers(#[trigger] blocks[q])
        && starts_outside_stacks(blocks[q]) && members_under_own_stack(blocks[q]) && rows_under_own_repo(blocks[q])
        && blocks[q].len() > 0 && blocks[q][0] is Repository by {
        lemma_repo_rows_own_groups(prs, rs[q]);
    }
    lemma_members_follow_headers_flatten(blocks);
    lemma_members_under_own_stack_flatten(blocks);
    lemma_rows_under_own_repo_flatten(blocks);
    assert(table == blocks.flatten());
    assert forall|k: int| 0 <= k < outline.len() implies (#[trigger] outline[k]).parent == own_parent(table[k]) by {
        assert(outline[k] == entry_of(table, k));
        assert(table.contains(table[k]));
        match table[k] {
            RowView::PullRequest { pr, in_stack } => {
                crate::tree::lemma_tree_rows_are_input_prs(prs, c, pr, in_stack);
                if in_stack {
                    assert(is_member_row(table[k]));
                }
            },
            _ => {},
        }
    }
}

/// The group items of the outline have distinct keys, as long as no
/// repository name holds a `:`: one item per repository and one per stack.
pub proof fn lemma_group_items_have_distinct_keys(prs: Seq<PullRequest>)
    requires
        forall|i: int| 0 <= i < prs.len() ==> !(#[trigger] prs[i]).repo@.contains(':'),
    ensures
        forall|j: int, k: int|
            0 <= j < k < outline_of(prs).len() && (#[trigger] outline_of(prs)[j]).pr is None && (
            #[trigger] outline_of(prs)[k]).pr is None ==> outline_of(prs)[j].key != outline_of(prs)[k].key,
{
    let c = Seq::<GroupId>::empty();
    let table = tree_rows(prs, c);
    let outline = outline_of(prs);
    crate::tree::lemma_group_rows_distinct(prs, c);
    assert forall|j: int, k: int|
        0 <= j < k < outline.len() && (#[trigger] outline[j]).pr is None && (#[trigger] outline[k]).pr is None implies outline[j].key
            != outline[k].key by {
        assert(outline[j] == entry_of(table, j));
        assert(outline[k] == entry_of(table, k));
        let a = crate::tree::group_id(table[j]).unwrap();
        let b = crate::tree::group_id(table[k]).unwrap();
        assert(table.contains(table[j]) && table.contains(table[k]));
        crate::tree::lemma_group_rows_name_input_groups(prs, c, table[j]);
        crate::tree::lemma_group_rows_name_input_groups(prs, c, table[k]);
        assert(!group_repo(a).contains(':'));
        assert(!group_repo(b).contains(':'));
        assert(crate::tree::group_label()(table[j]) == Some(a));
        assert(crate::tree::group_label()(table[k]) == Some(b));
        assert(a != b);
        if outline[j].key == outline[k].key {
            lemma_group_keys_distinct(a, b);
        }
    }
}

proof fn lemma_group_key_prefix(id: GroupKey)
    ensures
        "repo:"@.is_prefix_of(group_key_text(id)),
{
    reveal_strlit("repo:");
    assert("repo:"@ =~= group_key_text(id).subrange(0, 5));
}

/// Every outline item has its own key, so the items can be kept in a map
/// by key: this holds as long as repository names hold no `:`, pull request
/// URLs differ from one another, and no URL starts with `repo:` (GitHub's
/// names and URLs never do).
pub proof fn lemma_outline_keys_distinct(prs: Seq<PullRequest>)
    requires
        forall|i: int| 0 <= i < prs.len() ==> !(#[trigger] prs[i]).repo@.contains(':'),
        forall|i: int| 0 <= i < prs.len() ==> !"repo:"@.is_prefix_of(#[trigger] prs[i].url@),
        forall|i: int, j: int| 0 <= i < j < prs.len() ==> (#[trigger] prs[i]).url@ != (#[trigger] prs[j]).url@,
    ensures
        forall|j: int, k: int|
            0 <= j < k < outline_of(prs).len() ==> (#[trigger] outline_of(prs)[j]).key != (
            #[trigger] outline_of(prs)[k]).key,
{
    let c = Seq::<GroupId>::empty();
    let table = tree_rows(prs, c);
    let outline = outline_of(prs);
    assert(prs.no_duplicates()) by {
        assert forall|a: int, b: int| 0 <= a < prs.len() && 0 <= b < prs.len() && a != b implies prs[a] != prs[b] by {
            if a < b {
                assert(prs[a].url@ != prs[b].url@);
            } else {
                assert(prs[b].url@ != prs[a].url@);
            }
        }
    }
    crate::tree::lemma_pr_rows_distinct(prs, c);
    lemma_group_items_have_distinct_keys(prs);
    assert forall|j: int, k: int| 0 <= j < k < outline.len() implies (#[trigger] outline[j]).key != (#[trigger] outline[k]).key by {
        assert(outline[j] == entry_of(table, j));
        assert(outline[k] == entry_of(table, k));
        assert(table.contains(table[j]) && table.contains(table[k]));
        match (table[j], table[k]) {
            (RowView::PullRequest { pr: x, in_stack: sx }, RowView::PullRequest { pr: y, in_stack: sy }) => {
                assert(crate::tree::pr_label()(table[j]) == Some(x));
                assert(crate::tree::pr_label()(table[k]) == Some(y));
                assert(x != y);
                crate::tree::lemma_tree_rows_are_input_prs(prs, c, x, sx);
                crate::tree::lemma_tree_rows_are_input_prs(prs, c, y, sy);
                let a = choose|a: int| 0 <= a < prs.len() && prs[a] == x;
                let b = choose|b: int| 0 <= b < prs.len() && prs[b] == y;
                if a < b {
                    assert(prs[a].url@ != prs[b].url@);
                } else {
                    assert(prs[b].url@ != prs[a].url@);
                }
            },
            (RowView::PullRequest { pr: x, in_stack: sx }, _) => {
                crate::tree::lemma_tree_rows_are_input_prs(prs, c, x, sx);
                let a = choose|a: int| 0 <= a < prs.len() && prs[a] == x;
                lemma_group_key_prefix(crate::tree::group_id(table[k]).unwrap());
                assert(!"repo:"@.is_prefix_of(prs[a].url@));
            },
            (_, RowView::PullRequest { pr: y, in_stack: sy }) => {
                crate::tree::lemma_tree_rows_are_input_prs(prs, c, y, sy);
                let b = choose|b: int| 0 <= b < prs.len() && prs[b] == y;
                lemma_group_key_prefix(crate::tree::group_id(table[j]).unwrap());
                assert(!"repo:"@.is_prefix_of(prs[b].url@));
            },
            _ => {},
        }
    }
}

/// Each PR item of the outline is titled with its pull request's title,
/// followed by ` (draft)` exactly when the pull request is a draft.
pub proof fn lemma_pr_items_titled(prs: Seq<PullRequest>)
    ensures
        forall|k: int|
            0 <= k < outline_of(prs).len() && (#[trigger] outline_of(prs)[k]).pr is Some ==> outline_of(prs)[k].title
                == (if outline_of(prs)[k].pr.unwrap().is_draft {
                outline_of(prs)[k].pr.unwrap().title@ + " (draft)"@
            } else {
                outline_of(prs)[k].pr.unwrap().title@
            }),
{
    let table = tree_rows(prs, Seq::empty());
    assert forall|k: int| 0 <= k < outline_of(prs).len() && (#[trigger] outline_of(prs)[k]).pr is Some implies outline_of(prs)[k].title
        == (if outline_of(prs)[k].pr.unwrap().is_draft {
        outline_of(prs)[k].pr.unwrap().title@ + " (draft)"@
    } else {
        outline_of(prs)[k].pr.unwrap().title@
    }) by {
        assert(outline_of(prs)[k] == entry_of(table, k));
    }
}

/// The column labels: each CI state, review decision and participant state
/// has its own label, and these are the labels: a pending CI run reads
/// `◷ Running` and never passes for a finished one.
pub proof fn lemma_column_labels(ci: CiState, other_ci: CiState, d: ReviewDecision, other_d: ReviewDecision, st: ReviewState, other_st: ReviewState)
    ensures
        checks_label_text(ci) == checks_label_text(other_ci) ==> ci == other_ci,
        decision_label_text(d) == decision_label_text(other_d) ==> d == other_d,
        review_label_text(st) == review_label_text(other_st) ==> st == other_st,
        (checks_label_text(ci) == "✓ Passed"@) == (ci == CiState::Success),
        (checks_label_text(ci) == "✕ Failing"@) == (ci == CiState::Failure),
        (checks_label_text(ci) == "◷ Running"@) == (ci == CiState::Pending),
        (checks_label_text(ci) == "—"@) == (ci == CiState::NoChecks),
        (decision_label_text(d) == "✓ Approved"@) == (d == ReviewDecision::Approved),
        (decision_label_text(d) == "✕ Changes requested"@) == (d == ReviewDecision::ChangesRequested),
        (decision_label_text(d) == "◷ Review required"@) == (d == ReviewDecision::Required),
        (decision_label_text(d) == "—"@) == (d == ReviewDecision::NotRequired),
        (review_label_text(st) == "✓ Approved"@) == (st == ReviewState::Approved),
        (review_label_text(st) == "✕ Changes requested"@) == (st == ReviewState::ChangesRequested),
        (review_label_text(st) == "◷ Pending"@) == (st == ReviewState::Pending),
        (review_label_text(st) == "· Commented"@) == (st == ReviewState::Commented),
{
    reveal_strlit("✓ Passed");
    reveal_strlit("✕ Failing");
    reveal_strlit("◷ Running");
    reveal_strlit("—");
    reveal_strlit("✓ Approved");
    reveal_strlit("✕ Changes requested");
    reveal_strlit("◷ Review required");
    reveal_strlit("◷ Pending");
    reveal_strlit("· Commented");
    assert("✓ Passed"@[0] == '✓' && "✕ Failing"@[0] == '✕' && "◷ Running"@[0] == '◷' && "—"@[0] == '—');
    assert("✓ Approved"@[0] == '✓' && "✕ Changes requested"@[0] == '✕' && "◷ Review required"@[0] == '◷');
    assert("◷ Pending"@[0] == '◷' && "· Commented"@[0] == '·');
}

/// The heading above the table.
pub open spec fn heading_text(total: nat) -> Seq<char> {
    "Pull requests · "@ + decimal(total) + " open"@
}

/// The heading above the table: `Pull requests · {total} open`.
pub fn heading(total: usize) -> (text: String)
    ensures
        text@ == heading_text(total as nat),
{
    let mut text = String::from_str("Pull requests · ");
    push_decimal(&mut text, total as u64);
    text.append(" open");
    text
}

/// The footer: the last error if there is one; otherwise when the list was
/// updated (or that it is loading), how many of the total are shown past the
/// display cap, and a note when there are no open PRs.
pub open spec fn footer_text(
    shown: nat,
    total: nat,
    updated_at: Option<Seq<char>>,
    error: Option<Seq<char>>,
) -> Seq<char> {
    match error {
        Some(e) => e,
        None => {
            let updated = match updated_at {
                Some(at) => "Updated "@ + at,
                None => "Loading…"@,
            };
            if total > shown {
                updated + " · Showing "@ + decimal(shown) + " of "@ + decimal(total)
            } else if shown == 0 && updated_at is Some {
                "No open pull requests · "@ + updated
            } else {
                updated
            }
        },
    }
}

/// The footer line under the table.
pub fn footer(snapshot: &Snapshot) -> (text: String)
    ensures
        text@ == footer_text(
            snapshot.prs@.len(),
            snapshot.total as nat,
            opt_string_view(snapshot.updated_at),
            opt_string_view(snapshot.error),
        ),
{
    match &snapshot.error {
        Some(e) => {
            return String::from_str(e.as_str());
        },
        None => {},
    }
    let updated = match &snapshot.updated_at {
        Some(at) => {
            let mut u = String::from_str("Updated ");
            u.append(at.as_str());
            u
        },
        None => String::from_str("Loading…"),
    };
    let shown = snapshot.prs.len();
    if snapshot.total > shown {
        let mut text = updated;
        text.append(" · Showing ");
        push_decimal(&mut text, shown as u64);
        text.append(" of ");
        push_decimal(&mut text, snapshot.total as u64);
        text
    } else if shown == 0 && snapshot.updated_at.is_some() {
        let mut text = String::from_str("No open pull requests · ");
        text.append(updated.as_str());
        text
    } else {
        updated
    }
}

/// Label of the checks column.
pub open spec fn checks_label_text(ci: CiState) -> Seq<char> {
    match ci {
        CiState::Success => "✓ Passed"@,
        CiState::Failure => "✕ Failing"@,
        CiState::Pending => "◷ Running"@,
        CiState::NoChecks => "—"@,
    }
}

/// Label of the checks column.
pub fn checks_label(ci: CiState) -> (label: &'static str)
    ensures
        label@ == checks_label_text(ci),
{
    match ci {
        CiState::Success => "✓ Passed",
        CiState::Failure => "✕ Failing",
        CiState::Pending => "◷ Running",
        CiState::NoChecks => "—",
    }
}

/// Label of the review column.
pub open spec fn decision_label_text(decision: ReviewDecision) -> Seq<char> {
    match decision {
        ReviewDecision::Approved => "✓ Approved"@,
        ReviewDecision::ChangesRequested => "✕ Changes requested"@,
        ReviewDecision::Required => "◷ Review required"@,
        ReviewDecision::NotRequired => "—"@,
    }
}

/// Label of the review column.
pub fn decision_label(decision: ReviewDecision) -> (label: &'static str)
    ensures
        label@ == decision_label_text(decision),
{
    match decision {
        ReviewDecision::Approved => "✓ Approved",
        ReviewDecision::ChangesRequested => "✕ Changes requested",
        ReviewDecision::Required => "◷ Review required",
        ReviewDecision::NotRequired => "—",
    }
}

/// How one participant stands, in words.
pub open spec fn review_label_text(state: ReviewState) -> Seq<char> {
    match state {
        ReviewState::Approved => "✓ Approved"@,
        ReviewState::ChangesRequested => "✕ Changes requested"@,
        ReviewState::Pending => "◷ Pending"@,
        ReviewState::Commented => "· Commented"@,
    }
}

/// How one participant stands, in words.
pub fn review_label(state: ReviewState) -> (label: &'static str)
    ensures
        label@ == review_label_text(state),
{
    match state {
        ReviewState::Approved => "✓ Approved",
        ReviewState::ChangesRequested => "✕ Changes requested",
        ReviewState::Pending => "◷ Pending",
        ReviewState::Commented => "· Commented",
    }
}

/// Label of the PR column: `● #{number}`.
pub open spec fn number_label_text(number: u64) -> Seq<char> {
    "● #"@ + decimal(number as nat)
}

/// Label of the PR column.
pub fn number_label(number: u64) -> (label: String)
    ensures
        label@ == number_label_text(number),
{
    let mut label = String::from_str("● #");
    push_decimal(&mut label, number);
    label
}

/// One line of the participants tooltip: `{login}: {how they stand}`.
pub open spec fn reviewer_line_text(r: Reviewer) -> Seq<char> {
    r.login@ + ": "@ + review_label_text(r.state)
}

/// One participant's line: `{login}: {state}`, the tooltip of its avatar.
pub fn reviewer_line(r: &Reviewer) -> (line: String)
    ensures
        line@ == reviewer_line_text(*r),
{
    let mut line = String::from_str(r.login.as_str());
    line.append(": ");
    line.append(review_label(r.state));
    line
}

/// The participants tooltip: one line per participant.
pub open spec fn reviewers_tooltip_text(reviewers: Seq<Reviewer>) -> Seq<char>
    decreases reviewers.len(),
{
    if reviewers.len() == 0 {
        Seq::empty()
    } else if reviewers.len() == 1 {
        reviewer_line_text(reviewers[0])
    } else {
        reviewers_tooltip_text(reviewers.drop_last()) + "\n"@ + reviewer_line_text(reviewers.last())
    }
}

/// The tooltip of the participants column.
pub fn reviewers_tooltip(reviewers: &Vec<Reviewer>) -> (text: String)
    ensures
        text@ == reviewers_tooltip_text(reviewers@),
{
    let mut text = String::new();
    let mut i: usize = 0;
    assert(reviewers@.take(0) =~= Seq::<Reviewer>::empty());
    while i < reviewers.len()
        invariant
            i <= reviewers@.len(),
            text@ == reviewers_tooltip_text(reviewers@.take(i as int)),
        decreases reviewers@.len() - i,
    {
        let r = &reviewers[i];
        assert(reviewers@.take(i as int + 1).drop_last() =~= reviewers@.take(i as int));
        assert(reviewers@.take(i as int + 1).last() == *r);
        if i > 0 {
            text.append("\n");
        }
        let line = reviewer_line(r);
        text.append(line.as_str());
        proof {
            if i == 0 {
                assert(reviewers@.take(1) =~= seq![*r]);
            }
        }
        assert(text@ =~= reviewers_tooltip_text(reviewers@.take(i as int + 1)));
        i = i + 1;
    }
    assert(reviewers@.take(reviewers@.len() as int) =~= reviewers@);
    text
}

/// At most this many participant avatars are drawn in a row.
pub const SHOWN_REVIEWERS: usize = 4;

/// The `+N` label for participants past the drawn avatars, if any.
pub open spec fn overflow_label_text(count: nat) -> Option<Seq<char>> {
    if count > SHOWN_REVIEWERS {
        Some("+"@ + decimal((count - SHOWN_REVIEWERS) as nat))
    } else {
        None
    }
}

/// The `+N` label for participants past the drawn avatars, if any.
pub fn overflow_label(count: usize) -> (label: Option<String>)
    ensures
        opt_string_view(label) == overflow_label_text(count as nat),
{
    if count > SHOWN_REVIEWERS {
        let mut label = String::from_str("+");
        push_decimal(&mut label, (count - SHOWN_REVIEWERS) as u64);
        Some(label)
    } else {
        None
    }
}

} // verus!
