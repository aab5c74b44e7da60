use vstd::prelude::*;

use crate::issue::{issues_view, lemma_issues_view, Issue};
use crate::store::{
    blocked_list, lemma_blockers_props, lemma_idx_of, lemma_ready_filter_props,
    lemma_remove_pair_props, ready_list, CoreError, Edge, Store, StoreModel,
};

verus! {

/// A blocked issue together with the ids blocking it.
pub struct BlockedEntry {
    pub issue: Issue,
    pub blockers: Vec<i64>,
}

/// Records "issue_id is blocked by blocker_id". Both ids must exist and
/// differ; re-blocking an existing edge succeeds and reports `false`.
pub fn block(store: &mut Store, issue_id: i64, blocker_id: i64) -> (r: Result<bool, CoreError>)
    requires
        old(store).wf(),
    ensures
        final(store).wf(),
        r is Ok <==> (old(store)@.contains_id(issue_id) && old(store)@.contains_id(blocker_id)
            && issue_id != blocker_id),
        match r {
            Ok(added) => added == !old(store)@.has_edge(issue_id, blocker_id) && final(store)@
                == old(store)@.with_edge(issue_id, blocker_id) && final(store)@.has_edge(
                issue_id,
                blocker_id,
            ),
            Err(e) => final(store)@ == old(store)@ && match e {
                CoreError::NotFound(missing) => (!old(store)@.contains_id(issue_id) && missing
                    == issue_id) || (old(store)@.contains_id(issue_id) && !old(
                store)@.contains_id(blocker_id) && missing == blocker_id),
                CoreError::SelfBlock => old(store)@.contains_id(issue_id) && old(
                store)@.contains_id(blocker_id) && issue_id == blocker_id,
                CoreError::StoreError => false,
            },
        },
{
    if !store.has_issue(issue_id) {
        return Err(CoreError::NotFound(issue_id));
    }
    if !store.has_issue(blocker_id) {
        return Err(CoreError::NotFound(blocker_id));
    }
    if issue_id == blocker_id {
        return Err(CoreError::SelfBlock);
    }
    let added = store.add_dependency(issue_id, blocker_id);
    Ok(added)
}

/// Removes the edge "issue_id is blocked by blocker_id" if it exists;
/// reports whether anything was removed. Removing an absent edge is not
/// an error and changes nothing.
pub fn unblock(store: &mut Store, issue_id: i64, blocker_id: i64) -> (r: bool)
    requires
        old(store).wf(),
    ensures
        final(store).wf(),
        r == old(store)@.has_edge(issue_id, blocker_id),
        final(store)@ == old(store)@.without_edge(issue_id, blocker_id),
        !final(store)@.has_edge(issue_id, blocker_id),
        !old(store)@.has_edge(issue_id, blocker_id) ==> final(store)@ == old(store)@,
{
    let removed = store.remove_dependency(issue_id, blocker_id);
    proof {
        if !old(store)@.has_edge(issue_id, blocker_id) {
            lemma_remove_pair_props(
                old(store)@.edges,
                (Edge { issue: issue_id, blocker: blocker_id }),
            );
            assert(store@ =~= old(store)@);
        }
    }
    removed
}

/// Every issue holding at least one blocker edge, ascending by id, each
/// paired with its blockers in edge order.
pub fn list_blocked(store: &Store) -> (r: Vec<BlockedEntry>)
    requires
        store.wf(),
    ensures
        r@.len() == blocked_list(store@).len(),
        forall|i: int|
            0 <= i < r@.len() ==> ((#[trigger] r@[i]).issue@ == blocked_list(store@)[i]
                && r@[i].blockers@ == store@.blockers_seq(blocked_list(store@)[i].id)),
{
    let issues = store.list_blocked_issues();
    proof {
        lemma_issues_view(issues@);
    }
    let n = issues.len();
    let mut out: Vec<BlockedEntry> = Vec::new();
    for k in 0..n
        invariant
            n == issues@.len(),
            store.wf(),
            issues_view(issues@) == blocked_list(store@),
            issues_view(issues@).len() == issues@.len(),
            forall|i: int| 0 <= i < issues@.len() ==> issues_view(issues@)[i] == (
            #[trigger] issues@[i])@,
            out@.len() == k,
            forall|i: int|
                0 <= i < k ==> ((#[trigger] out@[i]).issue@ == blocked_list(store@)[i]
                    && out@[i].blockers@ == store@.blockers_seq(blocked_list(store@)[i].id)),
    {
        let iss = issues[k].clone();
        let blockers = store.get_blockers(iss.id);
        proof {
            assert(iss@ == blocked_list(store@)[k as int]);
        }
        out.push(BlockedEntry { issue: iss, blockers });
    }
    out
}

/// Every ready issue: open, with no open blocker; ascending by id.
pub fn list_ready(store: &Store) -> (r: Vec<Issue>)
    requires
        store.wf(),
    ensures
        issues_view(r@) == ready_list(store@),
        forall|i: int| 0 <= i < r@.len() ==> store@.is_ready((#[trigger] r@[i])@.id),
{
    let r = store.list_ready_issues();
    proof {
        lemma_issues_view(r@);
        lemma_ready_filter_props(store@, store@.issues);
        assert forall|i: int| 0 <= i < r@.len() implies store@.is_ready((#[trigger] r@[i])@.id) by {
            assert(ready_list(store@).contains(ready_list(store@)[i]));
        }
    }
    r
}

/// Law: after blocking, the blocker stands among the issue's blockers.
pub proof fn lemma_block_records_blocker(s: StoreModel, a: i64, b: i64)
    requires
        s.inv(),
        s.contains_id(a),
        s.contains_id(b),
        a != b,
    ensures
        s.with_edge(a, b).has_edge(a, b),
        s.with_edge(a, b).blockers_seq(a).contains(b),
{
    let t = s.with_edge(a, b);
    if !s.has_edge(a, b) {
        assert(t.edges[t.edges.len() - 1] == (Edge { issue: a, blocker: b }));
    }
    lemma_blockers_props(t.edges, a);
}

/// Law: blocking twice records the edge once; the second call changes
/// nothing.
pub proof fn lemma_block_idempotent(s: StoreModel, a: i64, b: i64)
    ensures
        s.with_edge(a, b).with_edge(a, b) == s.with_edge(a, b),
{
    let t = s.with_edge(a, b);
    if !s.has_edge(a, b) {
        assert(t.edges[t.edges.len() - 1] == (Edge { issue: a, blocker: b }));
    }
    assert(t.has_edge(a, b));
}

/// Law: removing an absent edge leaves the state unchanged.
pub proof fn lemma_unblock_absent(s: StoreModel, a: i64, b: i64)
    requires
        !s.has_edge(a, b),
    ensures
        s.without_edge(a, b) == s,
{
    lemma_remove_pair_props(s.edges, (Edge { issue: a, blocker: b }));
    assert(s.without_edge(a, b) =~= s);
}

/// Law: an issue with an open blocker is not ready and never appears in
/// the ready list.
pub proof fn lemma_open_blocker_not_ready(s: StoreModel, a: i64, b: i64)
    requires
        s.inv(),
        s.has_edge(a, b),
        s.is_open(b),
    ensures
        !s.is_ready(a),
        forall|i: int| 0 <= i < ready_list(s).len() ==> (#[trigger] ready_list(s)[i]).id != a,
{
    reveal_strlit("open");
    reveal_strlit("closed");
    assert("open"@.len() == 4);
    assert("closed"@.len() == 6);
    let e = (Edge { issue: a, blocker: b });
    let k = choose|k: int| 0 <= k < s.edges.len() && s.edges[k] == e;
    assert((s.edges[k]).issue == a);
    if s.is_ready(a) {
        assert(s.is_closed(s.edges[k].blocker));
        assert(false);
    }
    lemma_ready_filter_props(s, s.issues);
    assert forall|i: int| 0 <= i < ready_list(s).len() implies (#[trigger] ready_list(s)[i]).id
        != a by {
        assert(ready_list(s).contains(ready_list(s)[i]));
    }
}

/// Law: an open issue all of whose blockers are closed is ready and
/// appears in the ready list.
pub proof fn lemma_all_blockers_closed_ready(s: StoreModel, x: crate::issue::IssueModel)
    requires
        s.inv(),
        s.issues.contains(x),
        x.status == "open"@,
        forall|c: i64| s.has_edge(x.id, c) ==> s.is_closed(c),
    ensures
        s.is_ready(x.id),
        ready_list(s).contains(x),
{
    let w = choose|w: int| 0 <= w < s.issues.len() && s.issues[w] == x;
    lemma_idx_of(s, w);
    assert(s.issue_of(x.id) == x);
    assert forall|k: int|
        0 <= k < s.edges.len() && (#[trigger] s.edges[k]).issue == x.id implies s.is_closed(
        s.edges[k].blocker) by {
        let c = s.edges[k].blocker;
        assert(s.edges[k] =~= (Edge { issue: x.id, blocker: c }));
        assert(s.edges.contains((Edge { issue: x.id, blocker: c })));
        assert(s.has_edge(x.id, c));
    }
    lemma_ready_filter_props(s, s.issues);
}

/// Law: a closed issue is never ready and never appears in the ready
/// list, whatever its blockers.
pub proof fn lemma_closed_not_ready(s: StoreModel, a: i64)
    requires
        s.inv(),
        s.contains_id(a),
        s.issue_of(a).status == "closed"@,
    ensures
        !s.is_ready(a),
        forall|i: int| 0 <= i < ready_list(s).len() ==> (#[trigger] ready_list(s)[i]).id != a,
{
    reveal_strlit("open");
    reveal_strlit("closed");
    assert("open"@.len() == 4);
    assert("closed"@.len() == 6);
    lemma_ready_filter_props(s, s.issues);
    assert forall|i: int| 0 <= i < ready_list(s).len() implies (#[trigger] ready_list(s)[i]).id
        != a by {
        assert(ready_list(s).contains(ready_list(s)[i]));
    }
}

} // verus!
