use vstd::prelude::*;

use crate::issue::{issues_view, lemma_issues_view, str_eq, Issue, IssueModel};
use crate::store::{
    ascending, filter_view, lemma_children_props, lemma_contains_split, lemma_roots_props,
    matches_filter, passes_filter, subissues_of, top_level, Store, StoreModel,
};

verus! {

/// Abstract value of one rendered line: the issue and its depth in the
/// forest (number of ancestor edges from its root).
#[verifier::ext_equal]
pub struct RenderModel {
    pub issue: IssueModel,
    pub depth: int,
}

/// One rendered line: an issue and the indentation depth to print it at.
pub struct RenderRow {
    pub issue: Issue,
    pub depth: usize,
}

impl View for RenderRow {
    type V = RenderModel;

    open spec fn view(&self) -> RenderModel {
        RenderModel { issue: self.issue@, depth: self.depth as int }
    }
}

/// The abstract values of a sequence of rendered lines, in order.
pub open spec fn rows_view(v: Seq<RenderRow>) -> Seq<RenderModel>
    decreases v.len(),
{
    if v.len() == 0 {
        Seq::empty()
    } else {
        rows_view(v.drop_last()).push(v.last()@)
    }
}

/// The icon printed before an issue: blank for open, "x" for closed,
/// "?" for anything else.
pub open spec fn status_icon_model(status: Seq<char>) -> Seq<char> {
    if status == "open"@ {
        " "@
    } else if status == "closed"@ {
        "x"@
    } else {
        "?"@
    }
}

/// The icon for a status string.
pub fn status_icon(status: &str) -> (r: &'static str)
    ensures
        r@ == status_icon_model(status@),
{
    if str_eq(status, "open") {
        " "
    } else if str_eq(status, "closed") {
        "x"
    } else {
        "?"
    }
}

/// How many issues of `q` carry an id at most `x`.
pub open spec fn count_le(q: Seq<IssueModel>, x: i64) -> int
    decreases q.len(),
{
    if q.len() == 0 {
        0
    } else {
        count_le(q.drop_last(), x) + if q.last().id <= x {
            1int
        } else {
            0int
        }
    }
}

/// The count stays within the sequence length.
pub proof fn lemma_count_le_bounds(q: Seq<IssueModel>, x: i64)
    ensures
        0 <= count_le(q, x) <= q.len(),
    decreases q.len(),
{
    if q.len() > 0 {
        lemma_count_le_bounds(q.drop_last(), x);
    }
}

/// The count grows with the bound.
pub proof fn lemma_count_le_mono(q: Seq<IssueModel>, x: i64, y: i64)
    requires
        x <= y,
    ensures
        count_le(q, x) <= count_le(q, y),
    decreases q.len(),
{
    if q.len() > 0 {
        lemma_count_le_mono(q.drop_last(), x, y);
    }
}

/// A member above the bound raises the count at its own id.
pub proof fn lemma_count_le_member(q: Seq<IssueModel>, c: IssueModel, x: i64)
    requires
        q.contains(c),
        x < c.id,
    ensures
        count_le(q, c.id) >= count_le(q, x) + 1,
    decreases q.len(),
{
    lemma_contains_split(q, c);
    if q.last() == c {
        lemma_count_le_mono(q.drop_last(), x, c.id);
    } else {
        lemma_count_le_member(q.drop_last(), c, x);
    }
}

/// A member makes its own count at least one.
pub proof fn lemma_count_le_one(q: Seq<IssueModel>, c: IssueModel)
    requires
        q.contains(c),
    ensures
        count_le(q, c.id) >= 1,
    decreases q.len(),
{
    lemma_contains_split(q, c);
    lemma_count_le_bounds(q.drop_last(), c.id);
    if q.last() != c {
        lemma_count_le_one(q.drop_last(), c);
    }
}

/// A well-formed traversal list: issues of the store, ascending by id.
pub open spec fn list_ok(s: StoreModel, cs: Seq<IssueModel>) -> bool {
    &&& forall|k: int| 0 <= k < cs.len() ==> s.issues.contains(#[trigger] cs[k])
    &&& ascending(cs)
}

/// The id headroom of a traversal list: how far its first id sits below
/// the store's next id. Descending into children strictly shrinks it.
pub open spec fn head_gap(s: StoreModel, cs: Seq<IssueModel>) -> int {
    if cs.len() == 0 {
        0
    } else {
        s.next_id - cs[0].id
    }
}

/// The rendered line for one issue, or nothing when the filter hides it.
pub open spec fn row_for(iss: IssueModel, depth: int, f: Option<Seq<char>>) -> Seq<RenderModel> {
    if passes_filter(iss, f) {
        seq![RenderModel { issue: iss, depth }]
    } else {
        Seq::empty()
    }
}

/// Facts that keep the traversal well founded: the head gap is positive,
/// shrinks on the children of the last issue, and never goes negative.
pub proof fn lemma_walk_descend(s: StoreModel, cs: Seq<IssueModel>)
    requires
        s.hier_ok(),
        list_ok(s, cs),
        cs.len() > 0,
    ensures
        head_gap(s, cs) > 0,
        cs.len() > 1 ==> head_gap(s, cs.drop_last()) == head_gap(s, cs),
        cs.len() == 1 ==> head_gap(s, cs.drop_last()) == 0,
        0 <= head_gap(s, subissues_of(s, cs.last().id)) < head_gap(s, cs),
{
    assert(s.issues.contains(cs[0]));
    let w0 = choose|w: int| 0 <= w < s.issues.len() && s.issues[w] == cs[0];
    assert(1 <= s.issues[w0].id < s.next_id);
    let p = cs.last().id;
    assert(p >= cs[0].id);
    let ch = subissues_of(s, p);
    lemma_children_props(s.issues, p);
    if ch.len() > 0 {
        assert(ch.contains(ch[0]));
        let w = choose|w: int| 0 <= w < s.issues.len() && s.issues[w] == ch[0];
        assert(1 <= s.issues[w].id < s.next_id);
        assert(ch[0].parent_id == Some(p));
        assert(ch[0].id > p);
    }
}

/// The pre-order, status-filtered rendering of the forest under `cs`:
/// for each issue in order, its own line (when the filter keeps it)
/// followed by the rendering of its children one level deeper. Filtering
/// never prunes descendants. Meaningful when `cs` is a well-formed
/// traversal list of a well-formed store; empty otherwise.
pub open spec fn walk_forest(s: StoreModel, cs: Seq<IssueModel>, depth: int, f: Option<
    Seq<char>,
>) -> Seq<RenderModel>
    decreases head_gap(s, cs), cs.len(),
{
    if !(s.hier_ok() && list_ok(s, cs)) || cs.len() == 0 {
        Seq::empty()
    } else {
        proof {
            lemma_walk_descend(s, cs);
        }
        walk_forest(s, cs.drop_last(), depth, f) + row_for(cs.last(), depth, f) + walk_forest(
            s,
            subissues_of(s, cs.last().id),
            depth + 1,
            f,
        )
    }
}

/// One traversal step: the rendering of a prefix extended by one issue is
/// the prefix's rendering, the issue's own line, then its subtree.
proof fn lemma_walk_step(s: StoreModel, cs: Seq<IssueModel>, k: int, depth: int, f: Option<
    Seq<char>,
>)
    requires
        s.hier_ok(),
        list_ok(s, cs),
        0 <= k < cs.len(),
    ensures
        walk_forest(s, cs.take(k + 1), depth, f) == walk_forest(s, cs.take(k), depth, f) + row_for(
            cs[k],
            depth,
            f,
        ) + walk_forest(s, subissues_of(s, cs[k].id), depth + 1, f),
{
    assert(cs.take(k + 1).drop_last() =~= cs.take(k));
    assert(cs.take(k + 1).last() == cs[k]);
    assert forall|i: int| 0 <= i < cs.take(k + 1).len() implies s.issues.contains(
        #[trigger] cs.take(k + 1)[i],
    ) by {
        assert(cs.take(k + 1)[i] == cs[i]);
        assert(s.issues.contains(cs[i]));
    }
    assert forall|i: int, j: int| 0 <= i < j < cs.take(k + 1).len() implies (#[trigger] cs.take(
        k + 1,
    )[i]).id < (#[trigger] cs.take(k + 1)[j]).id by {
        assert(cs[i].id < cs[j].id);
    }
    assert(list_ok(s, cs.take(k + 1)));
}

/// Appends the rendering of the children of `parent_id`, depth-first and
/// status-filtered, at indentation `indent`.
pub fn print_tree_recursive(store: &Store, out: &mut Vec<RenderRow>, parent_id: i64, indent: usize,
    status_filter: Option<&str>)
    requires
        store.wf(),
        store@.contains_id(parent_id),
        indent as int <= count_le(store@.issues, parent_id),
    ensures
        rows_view(final(out)@) == rows_view(old(out)@) + walk_forest(
            store@,
            subissues_of(store@, parent_id),
            indent as int,
            filter_view(status_filter),
        ),
    decreases store@.next_id - parent_id,
{
    let total = store.issue_count();
    let subs = store.get_subissues(parent_id);
    proof {
        lemma_issues_view(subs@);
        lemma_children_props(store@.issues, parent_id);
    }
    let ghost cs = subissues_of(store@, parent_id);
    let ghost fv = filter_view(status_filter);
    let ghost base = rows_view(out@);
    let n = subs.len();
    for k in 0..n
        invariant
            n == subs@.len(),
            store.wf(),
            store@.contains_id(parent_id),
            indent as int <= count_le(store@.issues, parent_id),
            total == store@.issues.len(),
            cs == subissues_of(store@, parent_id),
            fv == filter_view(status_filter),
            issues_view(subs@) == cs,
            issues_view(subs@).len() == subs@.len(),
            forall|i: int| 0 <= i < subs@.len() ==> issues_view(subs@)[i] == (#[trigger] subs@[i])@,
            rows_view(out@) == base + walk_forest(store@, cs.take(k as int), indent as int, fv),
        decreases n - k,
    {
        let sub = &subs[k];
        proof {
            assert(sub@ == cs[k as int]);
            lemma_children_props(store@.issues, parent_id);
            assert(cs.contains(cs[k as int]));
            assert(store@.issues.contains(cs[k as int]));
            let w = choose|w: int|
                0 <= w < store@.issues.len() && store@.issues[w] == cs[k as int];
            assert(store@.issues[w].id == sub.id);
            assert(cs[k as int].parent_id == Some(parent_id));
            assert(sub.id > parent_id);
            lemma_count_le_member(store@.issues, cs[k as int], parent_id);
            lemma_count_le_bounds(store@.issues, cs[k as int].id);
        }
        let ghost before = rows_view(out@);
        if matches_filter(sub, status_filter) {
            let ghost pre = out@;
            out.push(RenderRow { issue: sub.clone(), depth: indent });
            proof {
                assert(out@.drop_last() =~= pre);
                assert(rows_view(out@) == before.push(
                    (RenderModel { issue: cs[k as int], depth: indent as int }),
                ));
                assert(rows_view(out@) =~= before + row_for(cs[k as int], indent as int, fv));
            }
        } else {
            proof {
                assert(rows_view(out@) =~= before + row_for(cs[k as int], indent as int, fv));
            }
        }
        print_tree_recursive(store, out, sub.id, indent + 1, status_filter);
        proof {
            assert(ascending(store@.issues));
            assert forall|i: int| 0 <= i < cs.len() implies store@.issues.contains(
                #[trigger] cs[i],
            ) by {
                assert(cs.contains(cs[i]));
            }
            assert(list_ok(store@, cs));
            lemma_walk_step(store@, cs, k as int, indent as int, fv);
            assert(rows_view(out@) =~= base + walk_forest(
                store@,
                cs.take(k as int + 1),
                indent as int,
                fv,
            ));
        }
    }
    proof {
        assert(cs.take(n as int) =~= cs);
    }
}

/// The number of ancestor edges above an issue (0 for a root, 0 when the
/// issue or the store is malformed).
pub open spec fn depth_of(s: StoreModel, id: i64) -> int
    decreases id,
{
    if !(s.hier_ok() && s.contains_id(id)) {
        0
    } else {
        match s.issue_of(id).parent_id {
            None => 0,
            Some(p) => {
                proof {
                    lemma_parent_facts(s, id);
                }
                1 + depth_of(s, p)
            },
        }
    }
}

/// Whether issue `x` lies strictly below issue `a` in the forest.
pub open spec fn is_desc(s: StoreModel, x: i64, a: i64) -> bool
    decreases x,
{
    if !(s.hier_ok() && s.contains_id(x)) {
        false
    } else {
        match s.issue_of(x).parent_id {
            None => false,
            Some(p) => p == a || {
                proof {
                    lemma_parent_facts(s, x);
                }
                is_desc(s, p, a)
            },
        }
    }
}

/// The parent of a present issue is a present, smaller, positive id.
pub proof fn lemma_parent_facts(s: StoreModel, id: i64)
    requires
        s.hier_ok(),
        s.contains_id(id),
    ensures
        s.issue_of(id).id == id,
        0 <= s.idx_of(id) < s.issues.len(),
        s.issue_of(id).parent_id matches Some(p) ==> 1 <= p < id && s.contains_id(p),
{
    let k = s.idx_of(id);
    assert(0 <= k < s.issues.len() && s.issues[k].id == id) by {
        assert(s.contains_id(id));
    }
    match s.issues[k].parent_id {
        None => {},
        Some(p) => {
            assert(p < s.issues[k].id && s.contains_id(p));
            let w = choose|w: int| 0 <= w < s.issues.len() && (#[trigger] s.issues[w]).id == p;
            assert(1 <= s.issues[w].id);
        },
    }
}

/// A descendant has a strictly larger id than its ancestor.
pub proof fn lemma_desc_gt(s: StoreModel, x: i64, a: i64)
    requires
        s.hier_ok(),
        is_desc(s, x, a),
    ensures
        x > a,
        s.contains_id(x),
    decreases x,
{
    lemma_parent_facts(s, x);
    match s.issue_of(x).parent_id {
        None => {},
        Some(p) => {
            if p != a {
                lemma_desc_gt(s, p, a);
            }
        },
    }
}

/// Two ancestors of one issue stand on one chain: one is an ancestor of
/// the other.
proof fn lemma_anc_total(s: StoreModel, x: i64, a: i64, b: i64)
    requires
        s.hier_ok(),
        is_desc(s, x, a),
        is_desc(s, x, b),
        a != b,
    ensures
        is_desc(s, a, b) || is_desc(s, b, a),
    decreases x,
{
    lemma_parent_facts(s, x);
    match s.issue_of(x).parent_id {
        None => {},
        Some(p) => {
            if p == a {
                assert(is_desc(s, p, b));
                assert(is_desc(s, a, b));
            } else if p == b {
                assert(is_desc(s, p, a));
                assert(is_desc(s, b, a));
            } else {
                lemma_anc_total(s, p, a, b);
            }
        },
    }
}

/// A sibling is never a descendant of its sibling.
proof fn lemma_siblings_not_desc(s: StoreModel, a: IssueModel, b: IssueModel)
    requires
        s.hier_ok(),
        s.issues.contains(a),
        s.issues.contains(b),
        a.parent_id == b.parent_id,
        a.id != b.id,
    ensures
        !is_desc(s, a.id, b.id),
{
    let wa = choose|w: int| 0 <= w < s.issues.len() && s.issues[w] == a;
    let wb = choose|w: int| 0 <= w < s.issues.len() && s.issues[w] == b;
    crate::store::lemma_idx_of(s, wa);
    crate::store::lemma_idx_of(s, wb);
    if is_desc(s, a.id, b.id) {
        assert(s.issue_of(a.id) == a);
        assert(s.issue_of(b.id) == b);
        match a.parent_id {
            None => {},
            Some(p) => {
                assert(p < a.id && p < b.id);
                if p == b.id {
                    assert(false);
                } else {
                    assert(is_desc(s, p, b.id));
                    lemma_desc_gt(s, p, b.id);
                }
            },
        }
    }
}

/// Being below `a` is being a child of `a` or below one of its children.
proof fn lemma_desc_children(s: StoreModel, x: i64, a: i64)
    requires
        s.hier_ok(),
    ensures
        is_desc(s, x, a) <==> exists|k: int|
            0 <= k < subissues_of(s, a).len() && (x == (#[trigger] subissues_of(s, a)[k]).id
                || is_desc(s, x, subissues_of(s, a)[k].id)),
    decreases x,
{
    let ch = subissues_of(s, a);
    lemma_children_props(s.issues, a);
    if is_desc(s, x, a) {
        lemma_parent_facts(s, x);
        match s.issue_of(x).parent_id {
            None => {},
            Some(p) => {
                if p == a {
                    let c = s.issue_of(x);
                    assert(s.issues.contains(c)) by {
                        assert(s.issues[s.idx_of(x)] == c);
                    }
                    assert(ch.contains(c));
                    let k = choose|k: int| 0 <= k < ch.len() && ch[k] == c;
                    assert(x == ch[k].id);
                } else {
                    lemma_desc_children(s, p, a);
                    let k = choose|k: int|
                        0 <= k < ch.len() && (p == (#[trigger] ch[k]).id || is_desc(
                            s,
                            p,
                            ch[k].id,
                        ));
                    assert(is_desc(s, x, ch[k].id));
                }
            },
        }
    }
    if exists|k: int|
        0 <= k < ch.len() && (x == (#[trigger] ch[k]).id || is_desc(s, x, ch[k].id)) {
        let k = choose|k: int|
            0 <= k < ch.len() && (x == (#[trigger] ch[k]).id || is_desc(s, x, ch[k].id));
        let c = ch[k];
        assert(ch.contains(c));
        assert(s.issues.contains(c) && c.parent_id == Some(a));
        let wc = choose|w: int| 0 <= w < s.issues.len() && s.issues[w] == c;
        crate::store::lemma_idx_of(s, wc);
        assert(s.issue_of(c.id) == c);
        if x == c.id {
            assert(is_desc(s, x, a));
        } else {
            assert(is_desc(s, x, c.id));
            lemma_desc_down(s, x, c.id, a);
        }
    }
}

/// Below a child of `a` is below `a`.
proof fn lemma_desc_down(s: StoreModel, x: i64, c: i64, a: i64)
    requires
        s.hier_ok(),
        is_desc(s, x, c),
        s.contains_id(c),
        s.issue_of(c).parent_id == Some(a),
    ensures
        is_desc(s, x, a),
    decreases x,
{
    lemma_parent_facts(s, x);
    match s.issue_of(x).parent_id {
        None => {},
        Some(p) => {
            if p == c {
                assert(is_desc(s, p, a)) by {
                    assert(s.issue_of(c).parent_id == Some(a));
                }
            } else {
                lemma_desc_down(s, p, c, a);
            }
        },
    }
}

/// Whether some issue of the list, or a descendant of one, carries `id`.
pub open spec fn under_list(s: StoreModel, cs: Seq<IssueModel>, id: i64) -> bool {
    exists|k: int|
        0 <= k < cs.len() && ((#[trigger] cs[k]).id == id || is_desc(s, id, cs[k].id))
}

/// How many rendered lines carry the issue with this id.
pub open spec fn count_id(rows: Seq<RenderModel>, id: i64) -> int
    decreases rows.len(),
{
    if rows.len() == 0 {
        0
    } else {
        count_id(rows.drop_last(), id) + if rows.last().issue.id == id {
            1int
        } else {
            0int
        }
    }
}

/// Counting distributes over concatenation.
proof fn lemma_count_id_concat(r1: Seq<RenderModel>, r2: Seq<RenderModel>, id: i64)
    ensures
        count_id(r1 + r2, id) == count_id(r1, id) + count_id(r2, id),
    decreases r2.len(),
{
    if r2.len() == 0 {
        assert(r1 + r2 =~= r1);
    } else {
        assert((r1 + r2).drop_last() =~= r1 + r2.drop_last());
        assert((r1 + r2).last() == r2.last());
        lemma_count_id_concat(r1, r2.drop_last(), id);
    }
}

/// The traversal of a sibling list renders the issue `id` exactly once
/// when it exists, passes the filter, and stands under the list; never
/// otherwise.
proof fn lemma_walk_count(s: StoreModel, cs: Seq<IssueModel>, depth: int, f: Option<Seq<char>>,
    id: i64, pv: Option<i64>)
    requires
        s.hier_ok(),
        list_ok(s, cs),
        forall|k: int| 0 <= k < cs.len() ==> (#[trigger] cs[k]).parent_id == pv,
    ensures
        count_id(walk_forest(s, cs, depth, f), id) == if s.contains_id(id) && passes_filter(
            s.issue_of(id),
            f,
        ) && under_list(s, cs, id) {
            1int
        } else {
            0int
        },
    decreases head_gap(s, cs), cs.len(),
{
    if cs.len() == 0 {
        assert(!under_list(s, cs, id));
    } else {
        lemma_walk_descend(s, cs);
        let d = cs.drop_last();
        let last = cs.last();
        let ch = subissues_of(s, last.id);
        lemma_children_props(s.issues, last.id);
        assert(ascending(s.issues));
        // the two sublists are well-formed sibling lists
        assert(list_ok(s, d)) by {
            assert(forall|k: int| 0 <= k < d.len() ==> d[k] == cs[k]);
            assert forall|k: int| 0 <= k < d.len() implies s.issues.contains(#[trigger] d[k]) by {
                assert(s.issues.contains(cs[k]));
            }
        }
        assert(list_ok(s, ch)) by {
            assert forall|k: int| 0 <= k < ch.len() implies s.issues.contains(#[trigger] ch[k]) by {
                assert(ch.contains(ch[k]));
            }
        }
        assert(forall|k: int| 0 <= k < ch.len() ==> (#[trigger] ch[k]).parent_id == Some(last.id))
            by {
            assert forall|k: int| 0 <= k < ch.len() implies (#[trigger] ch[k]).parent_id == Some(
                last.id,
            ) by {
                assert(ch.contains(ch[k]));
            }
        }
        lemma_walk_count(s, d, depth, f, id, pv);
        lemma_walk_count(s, ch, depth + 1, f, id, Some(last.id));
        let w1 = walk_forest(s, d, depth, f);
        let r = row_for(last, depth, f);
        let w2 = walk_forest(s, ch, depth + 1, f);
        lemma_count_id_concat(w1 + r, w2, id);
        lemma_count_id_concat(w1, r, id);
        // the issue of the last sibling is the last sibling itself
        let wl = choose|w: int| 0 <= w < s.issues.len() && s.issues[w] == last;
        crate::store::lemma_idx_of(s, wl);
        assert(s.issue_of(last.id) == last);
        assert(s.contains_id(last.id));
        let c1 = count_id(w1, id);
        let cr = count_id(r, id);
        let c2 = count_id(w2, id);
        assert(count_id(walk_forest(s, cs, depth, f), id) == c1 + cr + c2);
        // the line of the last sibling itself
        if passes_filter(last, f) {
            assert(r.len() == 1 && r[0] == (RenderModel { issue: last, depth }));
            assert(r.drop_last() =~= Seq::<RenderModel>::empty());
            assert(count_id(r.drop_last(), id) == 0);
            assert(cr == if last.id == id {
                1int
            } else {
                0int
            });
        } else {
            assert(cr == 0);
        }
        // being under the children of the last sibling is being below it
        lemma_desc_children(s, id, last.id);
        assert(under_list(s, ch, id) <==> is_desc(s, id, last.id));
        if !(s.contains_id(id) && passes_filter(s.issue_of(id), f)) {
            assert(c1 == 0 && c2 == 0);
            if last.id == id {
                assert(s.issue_of(id) == last);
                assert(!passes_filter(last, f));
            }
            assert(cr == 0);
        } else {
            // the three sources never overlap
            if under_list(s, d, id) {
                let k = choose|k: int|
                    0 <= k < d.len() && ((#[trigger] d[k]).id == id || is_desc(s, id, d[k].id));
                assert(d[k] == cs[k]);
                assert(cs[k].id < last.id);
                if last.id == id {
                    if cs[k].id == id {
                        assert(false);
                    } else {
                        lemma_siblings_not_desc(s, last, cs[k]);
                        assert(false);
                    }
                }
                if is_desc(s, id, last.id) {
                    if cs[k].id == id {
                        lemma_siblings_not_desc(s, cs[k], last);
                        assert(false);
                    } else {
                        lemma_anc_total(s, id, cs[k].id, last.id);
                        if is_desc(s, cs[k].id, last.id) {
                            lemma_siblings_not_desc(s, cs[k], last);
                        } else {
                            lemma_siblings_not_desc(s, last, cs[k]);
                        }
                        assert(false);
                    }
                }
            }
            if last.id == id && is_desc(s, id, last.id) {
                lemma_desc_gt(s, id, last.id);
                assert(false);
            }
            // under the whole list is under one of the three sources
            if under_list(s, cs, id) && !(last.id == id) && !is_desc(s, id, last.id) {
                let k = choose|k: int|
                    0 <= k < cs.len() && ((#[trigger] cs[k]).id == id || is_desc(s, id, cs[k].id));
                assert(k < cs.len() - 1);
                assert(d[k] == cs[k]);
                assert(under_list(s, d, id));
            }
            if under_list(s, d, id) {
                let k = choose|k: int|
                    0 <= k < d.len() && ((#[trigger] d[k]).id == id || is_desc(s, id, d[k].id));
                assert(cs[k] == d[k]);
                assert(under_list(s, cs, id));
            }
            if last.id == id || is_desc(s, id, last.id) {
                assert(cs[cs.len() - 1] == last);
                assert(under_list(s, cs, id));
            }
            if last.id == id {
                assert(s.issue_of(id) == last);
                assert(passes_filter(last, f));
                assert(cr == 1);
                assert(c1 == 0 && c2 == 0);
            } else if is_desc(s, id, last.id) {
                assert(c2 == 1);
                assert(cr == 0 && c1 == 0);
            } else if under_list(s, d, id) {
                assert(c1 == 1);
                assert(cr == 0 && c2 == 0);
            } else {
                assert(!under_list(s, cs, id));
                assert(c1 == 0 && cr == 0 && c2 == 0);
            }
        }
    }
}

/// Every present issue stands under the top-level list.
proof fn lemma_under_roots(s: StoreModel, id: i64)
    requires
        s.hier_ok(),
        s.contains_id(id),
    ensures
        under_list(s, top_level(s), id),
    decreases id,
{
    lemma_parent_facts(s, id);
    lemma_roots_props(s.issues);
    let rt = top_level(s);
    match s.issue_of(id).parent_id {
        None => {
            let x = s.issue_of(id);
            assert(s.issues.contains(x)) by {
                assert(s.issues[s.idx_of(id)] == x);
            }
            assert(rt.contains(x));
            let k = choose|k: int| 0 <= k < rt.len() && rt[k] == x;
            assert(rt[k].id == id);
        },
        Some(p) => {
            lemma_under_roots(s, p);
            let k = choose|k: int|
                0 <= k < rt.len() && ((#[trigger] rt[k]).id == p || is_desc(s, p, rt[k].id));
            assert(is_desc(s, id, rt[k].id));
        },
    }
}

/// Law: the rendering of the whole forest shows each issue exactly once
/// when it passes the filter (so with no filter, or "all", every issue
/// exactly once), and never otherwise.
pub proof fn lemma_render_visits_each_once(s: StoreModel, f: Option<Seq<char>>, id: i64)
    requires
        s.hier_ok(),
    ensures
        count_id(walk_forest(s, top_level(s), 0, f), id) == if s.contains_id(id) && passes_filter(
            s.issue_of(id),
            f,
        ) {
            1int
        } else {
            0int
        },
{
    let rt = top_level(s);
    lemma_roots_props(s.issues);
    assert(ascending(s.issues));
    assert(list_ok(s, rt)) by {
        assert forall|k: int| 0 <= k < rt.len() implies s.issues.contains(#[trigger] rt[k]) by {
            assert(rt.contains(rt[k]));
        }
    }
    assert forall|k: int| 0 <= k < rt.len() implies (#[trigger] rt[k]).parent_id == (None::<
        i64,
    >) by {
        assert(rt.contains(rt[k]));
    }
    lemma_walk_count(s, rt, 0, f, id, None);
    if s.contains_id(id) {
        lemma_under_roots(s, id);
    }
}

/// Law: every rendered line passes the status filter; with a concrete
/// status, every shown issue carries exactly that status.
pub proof fn lemma_render_respects_filter(s: StoreModel, cs: Seq<IssueModel>, depth: int, f:
    Option<Seq<char>>)
    ensures
        forall|i: int|
            0 <= i < walk_forest(s, cs, depth, f).len() ==> passes_filter(
                (#[trigger] walk_forest(s, cs, depth, f)[i]).issue,
                f,
            ),
    decreases head_gap(s, cs), cs.len(),
{
    if s.hier_ok() && list_ok(s, cs) && cs.len() > 0 {
        lemma_walk_descend(s, cs);
        let w1 = walk_forest(s, cs.drop_last(), depth, f);
        let r = row_for(cs.last(), depth, f);
        let w2 = walk_forest(s, subissues_of(s, cs.last().id), depth + 1, f);
        lemma_render_respects_filter(s, cs.drop_last(), depth, f);
        lemma_render_respects_filter(s, subissues_of(s, cs.last().id), depth + 1, f);
        assert forall|i: int| 0 <= i < walk_forest(s, cs, depth, f).len() implies passes_filter(
            (#[trigger] walk_forest(s, cs, depth, f)[i]).issue,
            f,
        ) by {
            if i < w1.len() {
                assert(walk_forest(s, cs, depth, f)[i] == w1[i]);
            } else if i < w1.len() + r.len() {
                assert(walk_forest(s, cs, depth, f)[i] == r[i - w1.len()]);
            } else {
                assert(walk_forest(s, cs, depth, f)[i] == w2[i - w1.len() - r.len()]);
            }
        }
    }
}

/// Law: each rendered line carries the issue's true depth in the forest
/// (its count of ancestor edges), whatever the filter hides above it.
pub proof fn lemma_render_depths(s: StoreModel, cs: Seq<IssueModel>, depth: int, f: Option<
    Seq<char>,
>)
    requires
        s.hier_ok(),
        list_ok(s, cs),
        forall|k: int| 0 <= k < cs.len() ==> depth_of(s, (#[trigger] cs[k]).id) == depth,
    ensures
        forall|i: int|
            0 <= i < walk_forest(s, cs, depth, f).len() ==> (#[trigger] walk_forest(
                s,
                cs,
                depth,
                f,
            )[i]).depth == depth_of(s, walk_forest(s, cs, depth, f)[i].issue.id),
    decreases head_gap(s, cs), cs.len(),
{
    if cs.len() > 0 {
        lemma_walk_descend(s, cs);
        let d = cs.drop_last();
        let last = cs.last();
        let ch = subissues_of(s, last.id);
        lemma_children_props(s.issues, last.id);
        assert(ascending(s.issues));
        assert(list_ok(s, d)) by {
            assert(forall|k: int| 0 <= k < d.len() ==> d[k] == cs[k]);
            assert forall|k: int| 0 <= k < d.len() implies s.issues.contains(#[trigger] d[k]) by {
                assert(s.issues.contains(cs[k]));
            }
        }
        assert(list_ok(s, ch)) by {
            assert forall|k: int| 0 <= k < ch.len() implies s.issues.contains(#[trigger] ch[k]) by {
                assert(ch.contains(ch[k]));
            }
        }
        assert forall|k: int| 0 <= k < d.len() implies depth_of(s, (#[trigger] d[k]).id) == depth
            by {
            assert(depth_of(s, cs[k].id) == depth);
        }
        assert forall|k: int| 0 <= k < ch.len() implies depth_of(s, (#[trigger] ch[k]).id) == depth
            + 1 by {
            assert(ch.contains(ch[k]));
            let w = choose|w: int| 0 <= w < s.issues.len() && s.issues[w] == ch[k];
            crate::store::lemma_idx_of(s, w);
            assert(s.issue_of(ch[k].id) == ch[k]);
            assert(ch[k].parent_id == Some(last.id));
            assert(s.contains_id(ch[k].id)) by {
                assert(s.issues[w].id == ch[k].id);
            }
            assert(depth_of(s, last.id) == depth) by {
                assert(depth_of(s, cs[cs.len() - 1].id) == depth);
            }
        }
        lemma_render_depths(s, d, depth, f);
        lemma_render_depths(s, ch, depth + 1, f);
        let w1 = walk_forest(s, d, depth, f);
        let r = row_for(last, depth, f);
        let w2 = walk_forest(s, ch, depth + 1, f);
        let wl = choose|w: int| 0 <= w < s.issues.len() && s.issues[w] == last;
        crate::store::lemma_idx_of(s, wl);
        assert(s.issue_of(last.id) == last);
        assert(depth_of(s, last.id) == depth) by {
            assert(depth_of(s, cs[cs.len() - 1].id) == depth);
        }
        assert forall|i: int| 0 <= i < walk_forest(s, cs, depth, f).len() implies (
        #[trigger] walk_forest(s, cs, depth, f)[i]).depth == depth_of(
            s,
            walk_forest(s, cs, depth, f)[i].issue.id,
        ) by {
            if i < w1.len() {
                assert(walk_forest(s, cs, depth, f)[i] == w1[i]);
            } else if i < w1.len() + r.len() {
                assert(walk_forest(s, cs, depth, f)[i] == r[i - w1.len()]);
            } else {
                assert(walk_forest(s, cs, depth, f)[i] == w2[i - w1.len() - r.len()]);
            }
        }
    }
}

/// Law: in the full rendering, each line's depth equals its issue's
/// ancestor count; the roots' list satisfies the depth-zero premise.
pub proof fn lemma_render_depths_from_roots(s: StoreModel, f: Option<Seq<char>>)
    requires
        s.hier_ok(),
    ensures
        forall|i: int|
            0 <= i < walk_forest(s, top_level(s), 0, f).len() ==> (#[trigger] walk_forest(
                s,
                top_level(s),
                0,
                f,
            )[i]).depth == depth_of(s, walk_forest(s, top_level(s), 0, f)[i].issue.id),
{
    let rt = top_level(s);
    lemma_roots_props(s.issues);
    assert(ascending(s.issues));
    assert(list_ok(s, rt)) by {
        assert forall|k: int| 0 <= k < rt.len() implies s.issues.contains(#[trigger] rt[k]) by {
            assert(rt.contains(rt[k]));
        }
    }
    assert forall|k: int| 0 <= k < rt.len() implies depth_of(s, (#[trigger] rt[k]).id) == 0 by {
        assert(rt.contains(rt[k]));
        let w = choose|w: int| 0 <= w < s.issues.len() && s.issues[w] == rt[k];
        crate::store::lemma_idx_of(s, w);
        assert(s.issue_of(rt[k].id) == rt[k]);
        assert(s.contains_id(rt[k].id)) by {
            assert(s.issues[w].id == rt[k].id);
        }
    }
    lemma_render_depths(s, rt, 0, f);
}

/// Renders the whole forest: every top-level issue in ascending-id order,
/// each followed by its subtree, depth-first, with per-node status
/// filtering that hides nodes but never prunes their descendants.
pub fn run(store: &Store, status_filter: Option<&str>) -> (r: Vec<RenderRow>)
    requires
        store.wf(),
    ensures
        rows_view(r@) == walk_forest(store@, top_level(store@), 0, filter_view(status_filter)),
{
    let roots = store.top_level_issues();
    proof {
        lemma_issues_view(roots@);
        lemma_roots_props(store@.issues);
    }
    let ghost cs = top_level(store@);
    let ghost fv = filter_view(status_filter);
    let mut out: Vec<RenderRow> = Vec::new();
    let n = roots.len();
    for k in 0..n
        invariant
            n == roots@.len(),
            store.wf(),
            cs == top_level(store@),
            fv == filter_view(status_filter),
            issues_view(roots@) == cs,
            issues_view(roots@).len() == roots@.len(),
            forall|i: int| 0 <= i < roots@.len() ==> issues_view(roots@)[i] == (
            #[trigger] roots@[i])@,
            rows_view(out@) == walk_forest(store@, cs.take(k as int), 0, fv),
        decreases n - k,
    {
        let root = &roots[k];
        proof {
            assert(root@ == cs[k as int]);
            lemma_roots_props(store@.issues);
            assert(cs.contains(cs[k as int]));
            assert(store@.issues.contains(cs[k as int]));
            let w = choose|w: int|
                0 <= w < store@.issues.len() && store@.issues[w] == cs[k as int];
            assert(store@.issues[w].id == root.id);
            lemma_count_le_one(store@.issues, cs[k as int]);
        }
        let ghost before = rows_view(out@);
        if matches_filter(root, status_filter) {
            let ghost pre = out@;
            out.push(RenderRow { issue: root.clone(), depth: 0 });
            proof {
                assert(out@.drop_last() =~= pre);
                assert(rows_view(out@) == before.push((RenderModel { issue: cs[k as int], depth: 0 })));
                assert(rows_view(out@) =~= before + row_for(cs[k as int], 0, fv));
            }
        } else {
            proof {
                assert(rows_view(out@) =~= before + row_for(cs[k as int], 0, fv));
            }
        }
        print_tree_recursive(store, &mut out, root.id, 1, status_filter);
        proof {
            assert(ascending(store@.issues));
            lemma_roots_props(store@.issues);
            assert forall|i: int| 0 <= i < cs.len() implies store@.issues.contains(
                #[trigger] cs[i],
            ) by {
                assert(cs.contains(cs[i]));
            }
            assert(list_ok(store@, cs));
            lemma_walk_step(store@, cs, k as int, 0, fv);
            assert(rows_view(out@) =~= walk_forest(store@, cs.take(k as int + 1), 0, fv));
        }
    }
    proof {
        assert(cs.take(n as int) =~= cs);
    }
    out
}

} // verus!
