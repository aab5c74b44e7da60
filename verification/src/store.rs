use vstd::prelude::*;

use crate::issue::{issues_view, str_eq, Issue, IssueModel};

verus! {

/// Errors surfaced by the tracker core.
#[derive(Clone, Copy, Debug, PartialEq, Eq, Structural)]
pub enum CoreError {
    /// The named issue id does not exist.
    NotFound(i64),
    /// An issue may not block itself.
    SelfBlock,
    /// The underlying store cannot complete the operation.
    StoreError,
}

impl CoreError {
    /// Display text for the CLI layer.
    pub fn message(&self) -> (r: String)
        ensures
            r@ == match *self {
                CoreError::NotFound(_) => "issue not found"@,
                CoreError::SelfBlock => "an issue cannot block itself"@,
                CoreError::StoreError => "store failure"@,
            },
    {
        match self {
            CoreError::NotFound(_) => "issue not found".to_owned(),
            CoreError::SelfBlock => "an issue cannot block itself".to_owned(),
            CoreError::StoreError => "store failure".to_owned(),
        }
    }
}

/// A dependency edge: `issue` is blocked by `blocker`.
#[derive(Clone, Copy, Debug, PartialEq, Eq, Structural)]
#[verifier::ext_equal]
pub struct Edge {
    pub issue: i64,
    pub blocker: i64,
}

/// A status filter as an abstract value: `None` keeps everything.
pub open spec fn filter_view(f: Option<&str>) -> Option<Seq<char>> {
    match f {
        None => None,
        Some(x) => Some(x@),
    }
}

/// Whether an issue passes a status filter: no filter and "all" keep
/// everything; any other filter keeps exactly the issues whose status
/// equals it.
pub open spec fn passes_filter(iss: IssueModel, f: Option<Seq<char>>) -> bool {
    match f {
        None => true,
        Some(x) => x == "all"@ || iss.status == x,
    }
}

/// The blockers recorded for `id`, in the order their edges stand.
pub open spec fn blockers_in(edges: Seq<Edge>, id: i64) -> Seq<i64>
    decreases edges.len(),
{
    if edges.len() == 0 {
        Seq::empty()
    } else if edges.last().issue == id {
        blockers_in(edges.drop_last(), id).push(edges.last().blocker)
    } else {
        blockers_in(edges.drop_last(), id)
    }
}

/// The edge sequence with every copy of `e` removed.
pub open spec fn remove_pair(edges: Seq<Edge>, e: Edge) -> Seq<Edge>
    decreases edges.len(),
{
    if edges.len() == 0 {
        Seq::empty()
    } else if edges.last() == e {
        remove_pair(edges.drop_last(), e)
    } else {
        remove_pair(edges.drop_last(), e).push(edges.last())
    }
}

/// Abstract state of the store: the issue table in ascending-id order,
/// the dependency edges `(issue_id, blocker_id)`, and the next id to
/// hand out.
#[verifier::ext_equal]
pub struct StoreModel {
    pub issues: Seq<IssueModel>,
    pub edges: Seq<Edge>,
    pub next_id: i64,
}

impl StoreModel {
    /// Some issue carries this id.
    pub open spec fn contains_id(self, id: i64) -> bool {
        exists|k: int| 0 <= k < self.issues.len() && (#[trigger] self.issues[k]).id == id
    }

    /// The position of the issue with this id (meaningful when it exists).
    pub open spec fn idx_of(self, id: i64) -> int {
        choose|k: int| 0 <= k < self.issues.len() && (#[trigger] self.issues[k]).id == id
    }

    /// The issue with this id (meaningful when it exists).
    pub open spec fn issue_of(self, id: i64) -> IssueModel {
        self.issues[self.idx_of(id)]
    }

    /// The issue table is ascending by id, every id lies in `[1, next_id)`,
    /// and every parent reference names an existing, smaller id.
    pub open spec fn hier_ok(self) -> bool {
        &&& forall|i: int, j: int|
            0 <= i < j < self.issues.len() ==> (#[trigger] self.issues[i]).id < (
            #[trigger] self.issues[j]).id
        &&& forall|i: int|
            0 <= i < self.issues.len() ==> 1 <= (#[trigger] self.issues[i]).id < self.next_id
        &&& forall|i: int|
            0 <= i < self.issues.len() ==> ((#[trigger] self.issues[i]).parent_id matches Some(p)
                ==> p < self.issues[i].id && self.contains_id(p))
    }

    /// Every status is "open" or "closed".
    pub open spec fn status_ok(self) -> bool {
        forall|i: int|
            0 <= i < self.issues.len() ==> ((#[trigger] self.issues[i]).status == "open"@
                || self.issues[i].status == "closed"@)
    }

    /// Edges form a set of non-self loops between existing issues.
    pub open spec fn edges_ok(self) -> bool {
        &&& forall|k: int|
            0 <= k < self.edges.len() ==> ((#[trigger] self.edges[k]).issue != self.edges[k].blocker
                && self.contains_id(self.edges[k].issue) && self.contains_id(self.edges[k].blocker))
        &&& forall|k1: int, k2: int|
            0 <= k1 < k2 < self.edges.len() ==> #[trigger] self.edges[k1] != #[trigger] self.edges[k2]
    }

    /// The store invariant.
    pub open spec fn inv(self) -> bool {
        self.hier_ok() && self.status_ok() && self.edges_ok() && self.next_id >= 1
    }

    /// The edge "issue_id is blocked by blocker_id" is recorded.
    pub open spec fn has_edge(self, issue_id: i64, blocker_id: i64) -> bool {
        self.edges.contains((Edge { issue: issue_id, blocker: blocker_id }))
    }

    /// At least one blocker edge is recorded for this issue.
    pub open spec fn is_blocked(self, id: i64) -> bool {
        exists|k: int| 0 <= k < self.edges.len() && (#[trigger] self.edges[k]).issue == id
    }

    /// The issue exists and is open.
    pub open spec fn is_open(self, id: i64) -> bool {
        self.contains_id(id) && self.issue_of(id).status == "open"@
    }

    /// The issue exists and is closed.
    pub open spec fn is_closed(self, id: i64) -> bool {
        self.contains_id(id) && self.issue_of(id).status == "closed"@
    }

    /// Every blocker recorded for this issue is closed.
    pub open spec fn all_blockers_closed(self, id: i64) -> bool {
        forall|k: int|
            0 <= k < self.edges.len() && (#[trigger] self.edges[k]).issue == id ==> self.is_closed(
                self.edges[k].blocker)
    }

    /// Ready: an existing open issue all of whose blockers are closed.
    pub open spec fn is_ready(self, id: i64) -> bool {
        self.is_open(id) && self.all_blockers_closed(id)
    }

    /// The state after recording an edge: added only if absent.
    pub open spec fn with_edge(self, issue_id: i64, blocker_id: i64) -> StoreModel {
        if self.has_edge(issue_id, blocker_id) {
            self
        } else {
            StoreModel { edges: self.edges.push((Edge { issue: issue_id, blocker: blocker_id })), ..self }
        }
    }

    /// The state after removing an edge (unchanged when absent).
    pub open spec fn without_edge(self, issue_id: i64, blocker_id: i64) -> StoreModel {
        StoreModel { edges: remove_pair(self.edges, (Edge { issue: issue_id, blocker: blocker_id })), ..self }
    }

    /// The blockers of `id`, in edge order.
    pub open spec fn blockers_seq(self, id: i64) -> Seq<i64> {
        blockers_in(self.edges, id)
    }

    /// The state after replacing the status of the issue at position `k`.
    pub open spec fn with_status_at(self, k: int, st: Seq<char>) -> StoreModel {
        StoreModel {
            issues: self.issues.update(k, (IssueModel { status: st, ..self.issues[k] })),
            ..self
        }
    }

    /// The state after replacing the status of the issue with id `id`.
    pub open spec fn with_status(self, id: i64, st: Seq<char>) -> StoreModel {
        self.with_status_at(self.idx_of(id), st)
    }
}

/// Issues of `q` kept by a status filter, in order.
pub open spec fn status_filtered(q: Seq<IssueModel>, f: Option<Seq<char>>) -> Seq<IssueModel>
    decreases q.len(),
{
    if q.len() == 0 {
        Seq::empty()
    } else if passes_filter(q.last(), f) {
        status_filtered(q.drop_last(), f).push(q.last())
    } else {
        status_filtered(q.drop_last(), f)
    }
}

/// Issues kept by a status filter, in table order.
pub open spec fn filtered_issues(s: StoreModel, f: Option<Seq<char>>) -> Seq<IssueModel> {
    status_filtered(s.issues, f)
}

/// Issues of `q` with at least one blocker edge in `s`, in order.
pub open spec fn blocked_filter(s: StoreModel, q: Seq<IssueModel>) -> Seq<IssueModel>
    decreases q.len(),
{
    if q.len() == 0 {
        Seq::empty()
    } else if s.is_blocked(q.last().id) {
        blocked_filter(s, q.drop_last()).push(q.last())
    } else {
        blocked_filter(s, q.drop_last())
    }
}

/// Issues with at least one blocker edge, in table order.
pub open spec fn blocked_list(s: StoreModel) -> Seq<IssueModel> {
    blocked_filter(s, s.issues)
}

/// Issues of `q` that are ready in `s`, in order.
pub open spec fn ready_filter(s: StoreModel, q: Seq<IssueModel>) -> Seq<IssueModel>
    decreases q.len(),
{
    if q.len() == 0 {
        Seq::empty()
    } else if s.is_ready(q.last().id) {
        ready_filter(s, q.drop_last()).push(q.last())
    } else {
        ready_filter(s, q.drop_last())
    }
}

/// Ready issues, in table order.
pub open spec fn ready_list(s: StoreModel) -> Seq<IssueModel> {
    ready_filter(s, s.issues)
}

/// Issues of `q` whose parent is `parent`, in order.
pub open spec fn children_in(q: Seq<IssueModel>, parent: i64) -> Seq<IssueModel>
    decreases q.len(),
{
    if q.len() == 0 {
        Seq::empty()
    } else if q.last().parent_id == Some(parent) {
        children_in(q.drop_last(), parent).push(q.last())
    } else {
        children_in(q.drop_last(), parent)
    }
}

/// Direct children of `parent`, in table order.
pub open spec fn subissues_of(s: StoreModel, parent: i64) -> Seq<IssueModel> {
    children_in(s.issues, parent)
}

/// Issues of `q` with no parent, in order.
pub open spec fn roots_in(q: Seq<IssueModel>) -> Seq<IssueModel>
    decreases q.len(),
{
    if q.len() == 0 {
        Seq::empty()
    } else if q.last().parent_id is None {
        roots_in(q.drop_last()).push(q.last())
    } else {
        roots_in(q.drop_last())
    }
}

/// Top-level issues, in table order.
pub open spec fn top_level(s: StoreModel) -> Seq<IssueModel> {
    roots_in(s.issues)
}

/// Two positions holding the same id are the same position.
pub proof fn lemma_id_index_unique(s: StoreModel, i: int, j: int)
    requires
        s.hier_ok(),
        0 <= i < s.issues.len(),
        0 <= j < s.issues.len(),
        s.issues[i].id == s.issues[j].id,
    ensures
        i == j,
{
    if i < j {
        assert(s.issues[i].id < s.issues[j].id);
    }
    if j < i {
        assert(s.issues[j].id < s.issues[i].id);
    }
}

/// `idx_of` finds exactly the position of a present id.
pub proof fn lemma_idx_of(s: StoreModel, k: int)
    requires
        s.hier_ok(),
        0 <= k < s.issues.len(),
    ensures
        s.contains_id(s.issues[k].id),
        s.idx_of(s.issues[k].id) == k,
        s.issue_of(s.issues[k].id) == s.issues[k],
{
    let id = s.issues[k].id;
    assert(s.contains_id(id));
    let c = s.idx_of(id);
    assert(0 <= c < s.issues.len() && s.issues[c].id == id) by {
        assert(s.contains_id(id));
    }
    lemma_id_index_unique(s, c, k);
}

/// The store: the issue table, the dependency edges, and the id counter.
pub struct Store {
    issues: Vec<Issue>,
    edges: Vec<Edge>,
    next_id: i64,
}

impl View for Store {
    type V = StoreModel;

    closed spec fn view(&self) -> StoreModel {
        StoreModel {
            issues: self.issues@.map_values(|iss: Issue| iss@),
            edges: self.edges@,
            next_id: self.next_id,
        }
    }
}

impl Store {
    /// The store invariant, over the abstract state.
    pub open spec fn wf(self) -> bool {
        self@.inv()
    }

    /// An empty store; ids start at 1.
    pub fn new() -> (r: Store)
        ensures
            r.wf(),
            r@.issues.len() == 0,
            r@.edges.len() == 0,
            r@.next_id == 1,
    {
        Store { issues: Vec::new(), edges: Vec::new(), next_id: 1 }
    }

    /// The position of the issue carrying `id`, if any.
    fn find_index(&self, id: i64) -> (r: Option<usize>)
        requires
            self.wf(),
        ensures
            match r {
                Some(k) => 0 <= k < self@.issues.len() && self@.issues[k as int].id == id
                    && self@.idx_of(id) == k as int && self@.contains_id(id),
                None => !self@.contains_id(id),
            },
    {
        let n = self.issues.len();
        for k in 0..n
            invariant
                n == self.issues@.len(),
                self.wf(),
                forall|j: int| 0 <= j < k ==> (#[trigger] self@.issues[j]).id != id,
        {
            if self.issues[k].id == id {
                proof {
                    lemma_idx_of(self@, k as int);
                }
                return Some(k);
            }
        }
        assert(forall|j: int| 0 <= j < self@.issues.len() ==> (#[trigger] self@.issues[j]).id != id);
        None
    }

    /// How many issues the store holds.
    pub fn issue_count(&self) -> (r: usize)
        ensures
            r == self@.issues.len(),
    {
        self.issues.len()
    }

    /// Whether an issue with this id exists.
    pub fn has_issue(&self, id: i64) -> (r: bool)
        requires
            self.wf(),
        ensures
            r == self@.contains_id(id),
    {
        self.find_index(id).is_some()
    }

    /// A copy of the issue with this id, if it exists.
    pub fn get_issue(&self, id: i64) -> (r: Option<Issue>)
        requires
            self.wf(),
        ensures
            match r {
                Some(iss) => self@.contains_id(id) && iss@ == self@.issue_of(id),
                None => !self@.contains_id(id),
            },
    {
        match self.find_index(id) {
            Some(k) => Some(self.issues[k].clone()),
            None => None,
        }
    }

    /// The issue with this id, or `NotFound` naming the missing id.
    pub fn require_issue(&self, id: i64) -> (r: Result<Issue, CoreError>)
        requires
            self.wf(),
        ensures
            r is Ok <==> self@.contains_id(id),
            match r {
                Ok(iss) => iss@ == self@.issue_of(id),
                Err(e) => e == CoreError::NotFound(id),
            },
    {
        match self.get_issue(id) {
            Some(iss) => Ok(iss),
            None => Err(CoreError::NotFound(id)),
        }
    }
}

/// Appending a fresh issue with the next id preserves the invariant.
proof fn lemma_append_preserves_inv(s: StoreModel, iss: IssueModel)
    requires
        s.inv(),
        s.next_id < i64::MAX,
        iss.id == s.next_id,
        iss.status == "open"@,
        iss.parent_id matches Some(p) ==> p < iss.id && s.contains_id(p),
    ensures
        (StoreModel { issues: s.issues.push(iss), next_id: (s.next_id + 1) as i64, ..s }).inv(),
{
    let t = StoreModel { issues: s.issues.push(iss), next_id: (s.next_id + 1) as i64, ..s };
    assert forall|id: i64| s.contains_id(id) implies t.contains_id(id) by {
        let k = choose|k: int| 0 <= k < s.issues.len() && (#[trigger] s.issues[k]).id == id;
        assert(t.issues[k].id == id);
    }
    assert forall|i: int| 0 <= i < t.issues.len() implies ((#[trigger] t.issues[i]).parent_id
        matches Some(p) ==> p < t.issues[i].id && t.contains_id(p)) by {
        if i < s.issues.len() {
            assert(t.issues[i] == s.issues[i]);
        } else {
            assert(t.issues[i] == iss);
        }
    }
    assert forall|k: int|
        0 <= k < t.edges.len() implies ((#[trigger] t.edges[k]).issue != t.edges[k].blocker
        && t.contains_id(t.edges[k].issue) && t.contains_id(t.edges[k].blocker)) by {
        assert(s.contains_id(s.edges[k].issue) && s.contains_id(s.edges[k].blocker));
    }
}

impl Store {
    /// Creates an issue as a common helper: open, with the next id.
    fn create_raw(&mut self, title: &str, description: Option<&str>, priority: &str, parent_id:
        Option<i64>) -> (r: i64)
        requires
            old(self).wf(),
            old(self)@.next_id < i64::MAX,
            parent_id matches Some(p) ==> old(self)@.contains_id(p) && p < old(self)@.next_id,
        ensures
            final(self).wf(),
            r == old(self)@.next_id,
            final(self)@.issues == old(self)@.issues.push((IssueModel {
                id: old(self)@.next_id,
                title: title@,
                description: match description {
                    Some(d) => Some(d@),
                    None => None,
                },
                priority: priority@,
                status: "open"@,
                parent_id: parent_id,
            })),
            final(self)@.edges == old(self)@.edges,
            final(self)@.next_id == old(self)@.next_id + 1,
    {
        let id = self.next_id;
        let iss = Issue {
            id,
            title: title.to_owned(),
            description: match description {
                Some(d) => Some(d.to_owned()),
                None => None,
            },
            priority: priority.to_owned(),
            status: "open".to_owned(),
            parent_id,
        };
        let ghost m = iss@;
        let ghost s0 = self@;
        self.issues.push(iss);
        self.next_id = id + 1;
        proof {
            assert(self@.issues =~= s0.issues.push(m));
            lemma_append_preserves_inv(s0, m);
            assert(self@ =~= (StoreModel {
                issues: s0.issues.push(m),
                next_id: (s0.next_id + 1) as i64,
                ..s0
            }));
        }
        id
    }

    /// Creates a top-level issue; fails only when the id space is spent.
    pub fn create_issue(&mut self, title: &str, description: Option<&str>, priority: &str) -> (r:
        Result<i64, CoreError>)
        requires
            old(self).wf(),
        ensures
            final(self).wf(),
            r is Ok <==> old(self)@.next_id < i64::MAX,
            match r {
                Ok(id) => id == old(self)@.next_id && final(self)@.issues == old(
                    self)@.issues.push((IssueModel {
                    id: old(self)@.next_id,
                    title: title@,
                    description: match description {
                        Some(d) => Some(d@),
                        None => None,
                    },
                    priority: priority@,
                    status: "open"@,
                    parent_id: None,
                })) && final(self)@.edges == old(self)@.edges && final(self)@.next_id == old(
                    self)@.next_id + 1,
                Err(e) => e == CoreError::StoreError && final(self)@ == old(self)@,
            },
    {
        if self.next_id == i64::MAX {
            return Err(CoreError::StoreError);
        }
        Ok(self.create_raw(title, description, priority, None))
    }

    /// Creates a child of `parent_id`; the parent must exist.
    pub fn create_subissue(&mut self, parent_id: i64, title: &str, description: Option<&str>,
        priority: &str) -> (r: Result<i64, CoreError>)
        requires
            old(self).wf(),
        ensures
            final(self).wf(),
            r is Ok <==> (old(self)@.contains_id(parent_id) && old(self)@.next_id < i64::MAX),
            match r {
                Ok(id) => id == old(self)@.next_id && final(self)@.issues == old(
                    self)@.issues.push((IssueModel {
                    id: old(self)@.next_id,
                    title: title@,
                    description: match description {
                        Some(d) => Some(d@),
                        None => None,
                    },
                    priority: priority@,
                    status: "open"@,
                    parent_id: Some(parent_id),
                })) && final(self)@.edges == old(self)@.edges && final(self)@.next_id == old(
                    self)@.next_id + 1,
                Err(e) => final(self)@ == old(self)@ && match e {
                    CoreError::NotFound(m) => m == parent_id && !old(self)@.contains_id(parent_id),
                    CoreError::StoreError => old(self)@.contains_id(parent_id) && old(
                        self)@.next_id == i64::MAX,
                    CoreError::SelfBlock => false,
                },
            },
    {
        if !self.has_issue(parent_id) {
            return Err(CoreError::NotFound(parent_id));
        }
        if self.next_id == i64::MAX {
            return Err(CoreError::StoreError);
        }
        proof {
            let k = choose|k: int|
                0 <= k < self@.issues.len() && (#[trigger] self@.issues[k]).id == parent_id;
            assert(self@.issues[k].id < self@.next_id);
        }
        Ok(self.create_raw(title, description, priority, Some(parent_id)))
    }
}

/// Replacing a status with "open" or "closed" preserves the invariant and
/// leaves ids, parents and edges as they were.
proof fn lemma_status_update_preserves_inv(s: StoreModel, k: int, st: Seq<char>)
    requires
        s.inv(),
        0 <= k < s.issues.len(),
        st == "open"@ || st == "closed"@,
    ensures
        s.with_status_at(k, st).inv(),
        forall|id: i64| s.with_status_at(k, st).contains_id(id) <==> s.contains_id(id),
{
    let t = s.with_status_at(k, st);
    assert forall|id: i64| s.contains_id(id) implies t.contains_id(id) by {
        let j = choose|j: int| 0 <= j < s.issues.len() && (#[trigger] s.issues[j]).id == id;
        assert(t.issues[j].id == id);
    }
    assert forall|id: i64| t.contains_id(id) implies s.contains_id(id) by {
        let j = choose|j: int| 0 <= j < t.issues.len() && (#[trigger] t.issues[j]).id == id;
        assert(s.issues[j].id == id);
    }
    assert forall|i: int| 0 <= i < t.issues.len() implies ((#[trigger] t.issues[i]).parent_id
        matches Some(p) ==> p < t.issues[i].id && t.contains_id(p)) by {
        assert(s.issues[i].parent_id matches Some(p) ==> p < s.issues[i].id && s.contains_id(p));
        assert(t.issues[i].parent_id == s.issues[i].parent_id);
        assert(t.issues[i].id == s.issues[i].id);
    }
    assert forall|i: int, j: int| 0 <= i < j < t.issues.len() implies (#[trigger] t.issues[i]).id
        < (#[trigger] t.issues[j]).id by {
        assert(s.issues[i].id < s.issues[j].id);
    }
}

impl Store {
    /// Sets the status of `id`, shared by close and reopen.
    fn set_status(&mut self, id: i64, to_closed: bool) -> (r: Result<(), CoreError>)
        requires
            old(self).wf(),
        ensures
            final(self).wf(),
            r is Ok <==> old(self)@.contains_id(id),
            match r {
                Ok(u) => final(self)@ == old(self)@.with_status(id, if to_closed { "closed"@ } else {
                    "open"@
                }),
                Err(e) => e == CoreError::NotFound(id) && final(self)@ == old(self)@,
            },
    {
        let st = if to_closed {
            "closed".to_owned()
        } else {
            "open".to_owned()
        };
        match self.find_index(id) {
            Some(k) => {
                let ghost s0 = self@;
                self.issues[k].status = st;
                proof {
                    let stv = if to_closed { "closed"@ } else { "open"@ };
                    assert(self@.issues =~= s0.issues.update(k as int, (IssueModel {
                        status: stv,
                        ..s0.issues[k as int]
                    })));
                    lemma_status_update_preserves_inv(s0, k as int, stv);
                    assert(self@ =~= s0.with_status_at(k as int, stv));
                }
                Ok(())
            },
            None => Err(CoreError::NotFound(id)),
        }
    }

    /// Marks the issue closed; `NotFound` when it does not exist.
    pub fn close_issue(&mut self, id: i64) -> (r: Result<(), CoreError>)
        requires
            old(self).wf(),
        ensures
            final(self).wf(),
            r is Ok <==> old(self)@.contains_id(id),
            match r {
                Ok(u) => final(self)@ == old(self)@.with_status(id, "closed"@),
                Err(e) => e == CoreError::NotFound(id) && final(self)@ == old(self)@,
            },
    {
        self.set_status(id, true)
    }

    /// Marks the issue open again; `NotFound` when it does not exist.
    pub fn reopen_issue(&mut self, id: i64) -> (r: Result<(), CoreError>)
        requires
            old(self).wf(),
        ensures
            final(self).wf(),
            r is Ok <==> old(self)@.contains_id(id),
            match r {
                Ok(u) => final(self)@ == old(self)@.with_status(id, "open"@),
                Err(e) => e == CoreError::NotFound(id) && final(self)@ == old(self)@,
            },
    {
        self.set_status(id, false)
    }
}

/// Membership in a sequence, split at the last element.
pub proof fn lemma_contains_split<A>(q: Seq<A>, x: A)
    requires
        q.len() > 0,
    ensures
        q.contains(x) <==> (q.drop_last().contains(x) || q.last() == x),
{
    if q.drop_last().contains(x) {
        let i = choose|i: int| 0 <= i < q.drop_last().len() && q.drop_last()[i] == x;
        assert(q[i] == x);
    }
    if q.last() == x {
        assert(q[q.len() - 1] == x);
    }
    if q.contains(x) && q.last() != x {
        let i = choose|i: int| 0 <= i < q.len() && q[i] == x;
        assert(q.drop_last()[i] == x);
    }
}

/// Membership in a sequence extended by one element.
pub proof fn lemma_contains_push<A>(q: Seq<A>, y: A, x: A)
    ensures
        q.push(y).contains(x) <==> (q.contains(x) || y == x),
{
    if q.contains(x) {
        let i = choose|i: int| 0 <= i < q.len() && q[i] == x;
        assert(q.push(y)[i] == x);
    }
    if y == x {
        assert(q.push(y)[q.len() as int] == x);
    }
    if q.push(y).contains(x) && y != x {
        let i = choose|i: int| 0 <= i < q.push(y).len() && q.push(y)[i] == x;
        assert(q[i] == x);
    }
}

/// What `remove_pair` keeps: every edge but `e`, order and distinctness kept.
pub proof fn lemma_remove_pair_props(q: Seq<Edge>, e: Edge)
    ensures
        forall|x: Edge| #[trigger] remove_pair(q, e).contains(x) <==> (q.contains(x) && x != e),
        (forall|i: int, j: int| 0 <= i < j < q.len() ==> q[i] != q[j]) ==> (forall|i: int, j: int|
            0 <= i < j < remove_pair(q, e).len() ==> remove_pair(q, e)[i] != remove_pair(q, e)[j]),
        !q.contains(e) ==> remove_pair(q, e) == q,
    decreases q.len(),
{
    if q.len() == 0 {
        assert forall|x: Edge| #[trigger] remove_pair(q, e).contains(x) <==> (q.contains(x) && x
            != e) by {
            assert(!remove_pair(q, e).contains(x));
            assert(!q.contains(x));
        }
        assert(remove_pair(q, e) =~= q);
    } else {
        let d = q.drop_last();
        let rp = remove_pair(d, e);
        lemma_remove_pair_props(d, e);
        assert forall|x: Edge| #[trigger] remove_pair(q, e).contains(x) <==> (q.contains(x) && x
            != e) by {
            lemma_contains_split(q, x);
            if q.last() != e {
                lemma_contains_push(rp, q.last(), x);
            }
        }
        if forall|i: int, j: int| 0 <= i < j < q.len() ==> q[i] != q[j] {
            assert forall|i: int, j: int| 0 <= i < j < d.len() implies d[i] != d[j] by {
                assert(q[i] != q[j]);
            }
            if q.last() != e {
                assert forall|i: int, j: int|
                    0 <= i < j < remove_pair(q, e).len() implies remove_pair(q, e)[i] != remove_pair(
                    q, e)[j] by {
                    if j < rp.len() {
                        assert(rp[i] != rp[j]);
                    } else {
                        assert(remove_pair(q, e)[j] == q.last());
                        assert(rp.contains(rp[i]));
                        let w = choose|w: int| 0 <= w < d.len() && d[w] == rp[i];
                        assert(q[w] == rp[i]);
                        assert(q[w] != q[q.len() - 1]);
                    }
                }
            }
        }
        if !q.contains(e) {
            lemma_contains_split(q, e);
            assert(remove_pair(q, e) =~= q);
        }
    }
}

/// What `get_blockers` returns: exactly the recorded blockers, distinct when
/// the edges are.
pub proof fn lemma_blockers_props(q: Seq<Edge>, id: i64)
    ensures
        forall|b: i64| #[trigger] blockers_in(q, id).contains(b) <==> q.contains(
            (Edge { issue: id, blocker: b })),
        (forall|i: int, j: int| 0 <= i < j < q.len() ==> q[i] != q[j]) ==> (forall|i: int, j: int|
            0 <= i < j < blockers_in(q, id).len() ==> blockers_in(q, id)[i] != blockers_in(q, id)[j]),
    decreases q.len(),
{
    if q.len() == 0 {
        assert forall|b: i64| #[trigger] blockers_in(q, id).contains(b) <==> q.contains(
            (Edge { issue: id, blocker: b })) by {
            assert(!blockers_in(q, id).contains(b));
            assert(!q.contains((Edge { issue: id, blocker: b })));
        }
    } else {
        let d = q.drop_last();
        let bl = blockers_in(d, id);
        lemma_blockers_props(d, id);
        assert forall|b: i64| #[trigger] blockers_in(q, id).contains(b) <==> q.contains(
            (Edge { issue: id, blocker: b })) by {
            lemma_contains_split(q, (Edge { issue: id, blocker: b }));
            if q.last().issue == id {
                lemma_contains_push(bl, q.last().blocker, b);
                assert(q.last() == (Edge { issue: id, blocker: q.last().blocker }));
            }
        }
        if forall|i: int, j: int| 0 <= i < j < q.len() ==> q[i] != q[j] {
            assert forall|i: int, j: int| 0 <= i < j < d.len() implies d[i] != d[j] by {
                assert(q[i] != q[j]);
            }
            if q.last().issue == id {
                let b0 = q.last().blocker;
                assert(!bl.contains(b0)) by {
                    if bl.contains(b0) {
                        assert(d.contains((Edge { issue: id, blocker: b0 })));
                        let w = choose|w: int| 0 <= w < d.len() && d[w] == (Edge {
                            issue: id,
                            blocker: b0,
                        });
                        assert(q.last() == (Edge { issue: id, blocker: b0 }));
                        assert(q[w] == q[q.len() - 1]);
                    }
                }
                assert forall|i: int, j: int|
                    0 <= i < j < blockers_in(q, id).len() implies blockers_in(q, id)[i]
                    != blockers_in(q, id)[j] by {
                    if j < bl.len() {
                        assert(bl[i] != bl[j]);
                    } else {
                        assert(blockers_in(q, id)[j] == b0);
                        assert(bl.contains(bl[i]));
                    }
                }
            }
        }
    }
}

/// Ids strictly ascend along the sequence.
pub open spec fn ascending(q: Seq<IssueModel>) -> bool {
    forall|i: int, j: int| 0 <= i < j < q.len() ==> (#[trigger] q[i]).id < (#[trigger] q[j]).id
}

/// What `children_in` keeps: exactly the issues under `parent`, in order.
pub proof fn lemma_children_props(q: Seq<IssueModel>, parent: i64)
    ensures
        forall|x: IssueModel| #[trigger] children_in(q, parent).contains(x) <==> (q.contains(x)
            && x.parent_id == Some(parent)),
        ascending(q) ==> ascending(children_in(q, parent)),
    decreases q.len(),
{
    if q.len() == 0 {
        assert forall|x: IssueModel| #[trigger] children_in(q, parent).contains(x) <==> (
        q.contains(x) && x.parent_id == Some(parent)) by {
            assert(!children_in(q, parent).contains(x));
            assert(!q.contains(x));
        }
    } else {
        let d = q.drop_last();
        let ch = children_in(d, parent);
        lemma_children_props(d, parent);
        assert forall|x: IssueModel| #[trigger] children_in(q, parent).contains(x) <==> (
        q.contains(x) && x.parent_id == Some(parent)) by {
            lemma_contains_split(q, x);
            if q.last().parent_id == Some(parent) {
                lemma_contains_push(ch, q.last(), x);
            }
        }
        if ascending(q) {
            assert forall|i: int, j: int| 0 <= i < j < d.len() implies (#[trigger] d[i]).id < (
            #[trigger] d[j]).id by {
                assert(q[i].id < q[j].id);
            }
            if q.last().parent_id == Some(parent) {
                assert forall|i: int, j: int|
                    0 <= i < j < children_in(q, parent).len() implies (#[trigger] children_in(q,
                    parent)[i]).id < (#[trigger] children_in(q, parent)[j]).id by {
                    if j < ch.len() {
                        assert(ch[i].id < ch[j].id);
                    } else {
                        assert(children_in(q, parent)[j] == q.last());
                        assert(ch.contains(ch[i]));
                        let w = choose|w: int| 0 <= w < d.len() && d[w] == ch[i];
                        assert(q[w].id < q[q.len() - 1].id);
                    }
                }
            }
        }
    }
}

/// What `roots_in` keeps: exactly the parentless issues, in order.
pub proof fn lemma_roots_props(q: Seq<IssueModel>)
    ensures
        forall|x: IssueModel| #[trigger] roots_in(q).contains(x) <==> (q.contains(x)
            && x.parent_id is None),
        ascending(q) ==> ascending(roots_in(q)),
    decreases q.len(),
{
    if q.len() == 0 {
        assert forall|x: IssueModel| #[trigger] roots_in(q).contains(x) <==> (q.contains(x)
            && x.parent_id is None) by {
            assert(!roots_in(q).contains(x));
            assert(!q.contains(x));
        }
    } else {
        let d = q.drop_last();
        let rt = roots_in(d);
        lemma_roots_props(d);
        assert forall|x: IssueModel| #[trigger] roots_in(q).contains(x) <==> (q.contains(x)
            && x.parent_id is None) by {
            lemma_contains_split(q, x);
            if q.last().parent_id is None {
                lemma_contains_push(rt, q.last(), x);
            }
        }
        if ascending(q) {
            assert forall|i: int, j: int| 0 <= i < j < d.len() implies (#[trigger] d[i]).id < (
            #[trigger] d[j]).id by {
                assert(q[i].id < q[j].id);
            }
            if q.last().parent_id is None {
                assert forall|i: int, j: int|
                    0 <= i < j < roots_in(q).len() implies (#[trigger] roots_in(q)[i]).id < (
                    #[trigger] roots_in(q)[j]).id by {
                    if j < rt.len() {
                        assert(rt[i].id < rt[j].id);
                    } else {
                        assert(roots_in(q)[j] == q.last());
                        assert(rt.contains(rt[i]));
                        let w = choose|w: int| 0 <= w < d.len() && d[w] == rt[i];
                        assert(q[w].id < q[q.len() - 1].id);
                    }
                }
            }
        }
    }
}

/// What `ready_filter` keeps: exactly the issues ready in `s`.
pub proof fn lemma_ready_filter_props(s: StoreModel, q: Seq<IssueModel>)
    ensures
        forall|x: IssueModel| #[trigger] ready_filter(s, q).contains(x) <==> (q.contains(x)
            && s.is_ready(x.id)),
    decreases q.len(),
{
    if q.len() == 0 {
        assert forall|x: IssueModel| #[trigger] ready_filter(s, q).contains(x) <==> (q.contains(x)
            && s.is_ready(x.id)) by {
            assert(!ready_filter(s, q).contains(x));
            assert(!q.contains(x));
        }
    } else {
        let d = q.drop_last();
        lemma_ready_filter_props(s, d);
        assert forall|x: IssueModel| #[trigger] ready_filter(s, q).contains(x) <==> (q.contains(x)
            && s.is_ready(x.id)) by {
            lemma_contains_split(q, x);
            if s.is_ready(q.last().id) {
                lemma_contains_push(ready_filter(s, d), q.last(), x);
            }
        }
    }
}

/// What `blocked_filter` keeps: exactly the issues blocked in `s`.
pub proof fn lemma_blocked_filter_props(s: StoreModel, q: Seq<IssueModel>)
    ensures
        forall|x: IssueModel| #[trigger] blocked_filter(s, q).contains(x) <==> (q.contains(x)
            && s.is_blocked(x.id)),
    decreases q.len(),
{
    if q.len() == 0 {
        assert forall|x: IssueModel| #[trigger] blocked_filter(s, q).contains(x) <==> (q.contains(
            x) && s.is_blocked(x.id)) by {
            assert(!blocked_filter(s, q).contains(x));
            assert(!q.contains(x));
        }
    } else {
        let d = q.drop_last();
        lemma_blocked_filter_props(s, d);
        assert forall|x: IssueModel| #[trigger] blocked_filter(s, q).contains(x) <==> (q.contains(
            x) && s.is_blocked(x.id)) by {
            lemma_contains_split(q, x);
            if s.is_blocked(q.last().id) {
                lemma_contains_push(blocked_filter(s, d), q.last(), x);
            }
        }
    }
}

/// Whether an issue passes the filter, decided executably.
pub fn matches_filter(iss: &Issue, status_filter: Option<&str>) -> (r: bool)
    ensures
        r == passes_filter(iss@, filter_view(status_filter)),
{
    match status_filter {
        None => true,
        Some(f) => str_eq(f, "all") || str_eq(f, iss.status.as_str()),
    }
}

impl Store {
    /// Whether the edge is recorded.
    pub fn has_dependency(&self, issue_id: i64, blocker_id: i64) -> (r: bool)
        requires
            self.wf(),
        ensures
            r == self@.has_edge(issue_id, blocker_id),
    {
        let n = self.edges.len();
        for k in 0..n
            invariant
                n == self.edges@.len(),
                forall|j: int|
                    0 <= j < k ==> #[trigger] self.edges@[j] != (Edge {
                        issue: issue_id,
                        blocker: blocker_id,
                    }),
        {
            let e = self.edges[k];
            if e.issue == issue_id && e.blocker == blocker_id {
                proof {
                    assert(self.edges@[k as int] =~= (Edge {
                        issue: issue_id,
                        blocker: blocker_id,
                    }));
                }
                return true;
            }
        }
        proof {
            if self@.has_edge(issue_id, blocker_id) {
                let j = choose|j: int|
                    0 <= j < self.edges@.len() && self.edges@[j] == (Edge {
                        issue: issue_id,
                        blocker: blocker_id,
                    });
                assert(false);
            }
        }
        false
    }

    /// Records the edge; reports whether it was new. The caller has
    /// validated both endpoints.
    pub fn add_dependency(&mut self, issue_id: i64, blocker_id: i64) -> (r: bool)
        requires
            old(self).wf(),
            old(self)@.contains_id(issue_id),
            old(self)@.contains_id(blocker_id),
            issue_id != blocker_id,
        ensures
            final(self).wf(),
            r == !old(self)@.has_edge(issue_id, blocker_id),
            final(self)@ == old(self)@.with_edge(issue_id, blocker_id),
            final(self)@.has_edge(issue_id, blocker_id),
    {
        if self.has_dependency(issue_id, blocker_id) {
            return false;
        }
        let ghost s0 = self@;
        let ghost e = (Edge { issue: issue_id, blocker: blocker_id });
        self.edges.push(Edge { issue: issue_id, blocker: blocker_id });
        proof {
            let t = s0.with_edge(issue_id, blocker_id);
            assert(self@ =~= t);
            assert(t.edges[t.edges.len() - 1] == e);
            assert forall|k1: int, k2: int| 0 <= k1 < k2 < t.edges.len() implies #[trigger] t.edges[k1]
                != #[trigger] t.edges[k2] by {
                if k2 == t.edges.len() - 1 {
                    if t.edges[k1] == e {
                        assert(s0.edges[k1] == e);
                        assert(s0.edges.contains(e));
                    }
                } else {
                    assert(s0.edges[k1] != s0.edges[k2]);
                }
            }
            assert forall|k: int|
                0 <= k < t.edges.len() implies ((#[trigger] t.edges[k]).issue
                != t.edges[k].blocker && t.contains_id(t.edges[k].issue) && t.contains_id(
                t.edges[k].blocker)) by {
                if k < t.edges.len() - 1 {
                    assert(s0.edges[k].issue != s0.edges[k].blocker && s0.contains_id(
                        s0.edges[k].issue) && s0.contains_id(s0.edges[k].blocker));
                }
            }
        }
        true
    }

    /// Removes the edge if present; reports whether anything was removed.
    pub fn remove_dependency(&mut self, issue_id: i64, blocker_id: i64) -> (r: bool)
        requires
            old(self).wf(),
        ensures
            final(self).wf(),
            r == old(self)@.has_edge(issue_id, blocker_id),
            final(self)@ == old(self)@.without_edge(issue_id, blocker_id),
            !final(self)@.has_edge(issue_id, blocker_id),
    {
        let ghost s0 = self@;
        let ghost e = (Edge { issue: issue_id, blocker: blocker_id });
        let n = self.edges.len();
        let mut kept: Vec<Edge> = Vec::new();
        let mut removed = false;
        for k in 0..n
            invariant
                n == self.edges@.len(),
                self@ == s0,
                e == (Edge { issue: issue_id, blocker: blocker_id }),
                kept@ == remove_pair(s0.edges.take(k as int), e),
                removed == s0.edges.take(k as int).contains(e),
        {
            let cur = self.edges[k];
            proof {
                assert(s0.edges.take(k + 1).drop_last() =~= s0.edges.take(k as int));
                assert(s0.edges.take(k + 1).last() == s0.edges[k as int]);
                lemma_contains_split(s0.edges.take(k + 1), e);
            }
            proof {
                assert(cur == s0.edges[k as int]);
            }
            if cur.issue == issue_id && cur.blocker == blocker_id {
                removed = true;
                proof {
                    assert(s0.edges[k as int] =~= e);
                }
            } else {
                kept.push(cur);
                proof {
                    assert(s0.edges[k as int] != e);
                }
            }
        }
        proof {
            assert(s0.edges.take(n as int) =~= s0.edges);
        }
        self.edges = kept;
        proof {
            lemma_remove_pair_props(s0.edges, e);
            let t = s0.without_edge(issue_id, blocker_id);
            assert(self@ =~= t);
            assert forall|k: int|
                0 <= k < t.edges.len() implies ((#[trigger] t.edges[k]).issue
                != t.edges[k].blocker && t.contains_id(t.edges[k].issue) && t.contains_id(
                t.edges[k].blocker)) by {
                assert(t.edges.contains(t.edges[k]));
                assert(s0.edges.contains(t.edges[k]));
                let w = choose|w: int| 0 <= w < s0.edges.len() && s0.edges[w] == t.edges[k];
                assert(s0.edges[w].issue != s0.edges[w].blocker && s0.contains_id(
                    s0.edges[w].issue) && s0.contains_id(s0.edges[w].blocker));
            }
            assert(!t.edges.contains(e));
            if t.has_edge(issue_id, blocker_id) {
                assert(t.edges.contains(e));
            }
        }
        removed
    }

    /// The blockers recorded for `id`, in edge order, without duplicates.
    pub fn get_blockers(&self, id: i64) -> (r: Vec<i64>)
        requires
            self.wf(),
        ensures
            r@ == self@.blockers_seq(id),
            forall|i: int, j: int| 0 <= i < j < r@.len() ==> r@[i] != r@[j],
            forall|b: i64| #[trigger] r@.contains(b) <==> self@.has_edge(id, b),
    {
        let n = self.edges.len();
        let mut out: Vec<i64> = Vec::new();
        for k in 0..n
            invariant
                n == self.edges@.len(),
                out@ == blockers_in(self.edges@.take(k as int), id),
        {
            proof {
                assert(self.edges@.take(k + 1).drop_last() =~= self.edges@.take(k as int));
                assert(self.edges@.take(k + 1).last() == self.edges@[k as int]);
            }
            let cur = self.edges[k];
            if cur.issue == id {
                out.push(cur.blocker);
            }
        }
        proof {
            assert(self.edges@.take(n as int) =~= self.edges@);
            lemma_blockers_props(self@.edges, id);
        }
        out
    }

    /// Whether at least one blocker edge is recorded for `id`.
    pub fn has_blockers(&self, id: i64) -> (r: bool)
        requires
            self.wf(),
        ensures
            r == self@.is_blocked(id),
    {
        let n = self.edges.len();
        for k in 0..n
            invariant
                n == self.edges@.len(),
                forall|j: int| 0 <= j < k ==> (#[trigger] self@.edges[j]).issue != id,
        {
            if self.edges[k].issue == id {
                proof {
                    assert((self@.edges[k as int]).issue == id);
                }
                return true;
            }
        }
        false
    }

    /// Whether every blocker recorded for `id` is closed.
    fn blockers_all_closed(&self, id: i64) -> (r: bool)
        requires
            self.wf(),
        ensures
            r == self@.all_blockers_closed(id),
    {
        let n = self.edges.len();
        for k in 0..n
            invariant
                n == self.edges@.len(),
                self.wf(),
                forall|j: int|
                    0 <= j < k && (#[trigger] self@.edges[j]).issue == id ==> self@.is_closed(
                        self@.edges[j].blocker),
        {
            let cur = self.edges[k];
            proof {
                assert(cur == self@.edges[k as int]);
            }
            if cur.issue == id {
                match self.get_issue(cur.blocker) {
                    Some(b) => {
                        if !str_eq(b.status.as_str(), "closed") {
                            proof {
                                assert(!self@.is_closed(cur.blocker));
                                assert((self@.edges[k as int]).issue == id);
                            }
                            return false;
                        }
                    },
                    None => {
                        proof {
                            assert((self@.edges[k as int]).issue == id);
                            assert(self@.contains_id(self@.edges[k as int].blocker));
                            assert(false);
                        }
                        return false;
                    },
                }
            }
        }
        true
    }

    /// Issues kept by the status filter, ascending by id.
    pub fn list_issues(&self, status_filter: Option<&str>) -> (r: Vec<Issue>)
        requires
            self.wf(),
        ensures
            issues_view(r@) == filtered_issues(self@, filter_view(status_filter)),
    {
        let n = self.issues.len();
        let mut out: Vec<Issue> = Vec::new();
        for k in 0..n
            invariant
                n == self.issues@.len(),
                self.wf(),
                issues_view(out@) == status_filtered(
                    self@.issues.take(k as int),
                    filter_view(status_filter),
                ),
        {
            proof {
                assert(self@.issues.take(k + 1).drop_last() =~= self@.issues.take(k as int));
                assert(self@.issues.take(k + 1).last() == self@.issues[k as int]);
            }
            let cur = &self.issues[k];
            proof {
                assert(cur@ == self@.issues[k as int]);
            }
            if matches_filter(cur, status_filter) {
                let ghost pre = out@;
                out.push(cur.clone());
                proof {
                    assert(out@.drop_last() =~= pre);
                    assert(issues_view(out@) == issues_view(pre).push(self@.issues[k as int]));
                }
            }
        }
        proof {
            assert(self@.issues.take(n as int) =~= self@.issues);
        }
        out
    }

    /// Direct children of `parent_id`, ascending by id.
    pub fn get_subissues(&self, parent_id: i64) -> (r: Vec<Issue>)
        requires
            self.wf(),
        ensures
            issues_view(r@) == subissues_of(self@, parent_id),
    {
        let n = self.issues.len();
        let mut out: Vec<Issue> = Vec::new();
        for k in 0..n
            invariant
                n == self.issues@.len(),
                self.wf(),
                issues_view(out@) == children_in(self@.issues.take(k as int), parent_id),
        {
            proof {
                assert(self@.issues.take(k + 1).drop_last() =~= self@.issues.take(k as int));
                assert(self@.issues.take(k + 1).last() == self@.issues[k as int]);
            }
            let cur = &self.issues[k];
            proof {
                assert(cur@ == self@.issues[k as int]);
            }
            let is_child = match cur.parent_id {
                Some(p) => p == parent_id,
                None => false,
            };
            if is_child {
                let ghost pre = out@;
                out.push(cur.clone());
                proof {
                    assert(out@.drop_last() =~= pre);
                    assert(issues_view(out@) == issues_view(pre).push(self@.issues[k as int]));
                }
            }
        }
        proof {
            assert(self@.issues.take(n as int) =~= self@.issues);
        }
        out
    }

    /// Top-level issues, ascending by id.
    pub fn top_level_issues(&self) -> (r: Vec<Issue>)
        requires
            self.wf(),
        ensures
            issues_view(r@) == top_level(self@),
    {
        let n = self.issues.len();
        let mut out: Vec<Issue> = Vec::new();
        for k in 0..n
            invariant
                n == self.issues@.len(),
                self.wf(),
                issues_view(out@) == roots_in(self@.issues.take(k as int)),
        {
            proof {
                assert(self@.issues.take(k + 1).drop_last() =~= self@.issues.take(k as int));
                assert(self@.issues.take(k + 1).last() == self@.issues[k as int]);
            }
            let cur = &self.issues[k];
            proof {
                assert(cur@ == self@.issues[k as int]);
            }
            if cur.parent_id.is_none() {
                let ghost pre = out@;
                out.push(cur.clone());
                proof {
                    assert(out@.drop_last() =~= pre);
                    assert(issues_view(out@) == issues_view(pre).push(self@.issues[k as int]));
                }
            }
        }
        proof {
            assert(self@.issues.take(n as int) =~= self@.issues);
        }
        out
    }

    /// Issues with at least one blocker edge, ascending by id.
    pub fn list_blocked_issues(&self) -> (r: Vec<Issue>)
        requires
            self.wf(),
        ensures
            issues_view(r@) == blocked_list(self@),
    {
        let n = self.issues.len();
        let mut out: Vec<Issue> = Vec::new();
        for k in 0..n
            invariant
                n == self.issues@.len(),
                self.wf(),
                issues_view(out@) == blocked_filter(self@, self@.issues.take(k as int)),
        {
            proof {
                assert(self@.issues.take(k + 1).drop_last() =~= self@.issues.take(k as int));
                assert(self@.issues.take(k + 1).last() == self@.issues[k as int]);
            }
            let cur = &self.issues[k];
            proof {
                assert(cur@ == self@.issues[k as int]);
            }
            if self.has_blockers(cur.id) {
                let ghost pre = out@;
                out.push(cur.clone());
                proof {
                    assert(out@.drop_last() =~= pre);
                    assert(issues_view(out@) == issues_view(pre).push(self@.issues[k as int]));
                }
            }
        }
        proof {
            assert(self@.issues.take(n as int) =~= self@.issues);
        }
        out
    }

    /// Ready issues: open, with no open blocker; ascending by id.
    pub fn list_ready_issues(&self) -> (r: Vec<Issue>)
        requires
            self.wf(),
        ensures
            issues_view(r@) == ready_list(self@),
    {
        let n = self.issues.len();
        let mut out: Vec<Issue> = Vec::new();
        for k in 0..n
            invariant
                n == self.issues@.len(),
                self.wf(),
                issues_view(out@) == ready_filter(self@, self@.issues.take(k as int)),
        {
            proof {
                assert(self@.issues.take(k + 1).drop_last() =~= self@.issues.take(k as int));
                assert(self@.issues.take(k + 1).last() == self@.issues[k as int]);
                lemma_idx_of(self@, k as int);
            }
            let cur = &self.issues[k];
            proof {
                assert(cur@ == self@.issues[k as int]);
            }
            if str_eq(cur.status.as_str(), "open") && self.blockers_all_closed(cur.id) {
                let ghost pre = out@;
                out.push(cur.clone());
                proof {
                    assert(self@.is_ready(self@.issues[k as int].id));
                    assert(out@.drop_last() =~= pre);
                    assert(issues_view(out@) == issues_view(pre).push(self@.issues[k as int]));
                }
            } else {
                proof {
                    assert(!self@.is_ready(self@.issues[k as int].id));
                }
            }
        }
        proof {
            assert(self@.issues.take(n as int) =~= self@.issues);
        }
        out
    }
}

} // verus!
