use chainlink::deps::{block, list_blocked, unblock};
use chainlink::store::{CoreError, Store};
use chainlink::tree::run;

#[test]
fn test_self_block_error_value() {
    let mut db = Store::new();
    let a = db.create_issue("Solo", None, "low").unwrap();
    assert_eq!(block(&mut db, a, a), Err(CoreError::SelfBlock));
}

#[test]
fn test_not_found_error_names_missing_id() {
    let mut db = Store::new();
    let a = db.create_issue("Here", None, "low").unwrap();
    assert_eq!(block(&mut db, 424242, a), Err(CoreError::NotFound(424242)));
    assert_eq!(block(&mut db, a, 424242), Err(CoreError::NotFound(424242)));
}

#[test]
fn test_self_block_on_missing_id_reports_not_found() {
    let mut db = Store::new();
    assert_eq!(block(&mut db, 7, 7), Err(CoreError::NotFound(7)));
}

#[test]
fn test_create_subissue_missing_parent() {
    let mut db = Store::new();
    let r = db.create_subissue(555, "Orphan", None, "low");
    assert_eq!(r, Err(CoreError::NotFound(555)));
    assert!(CoreError::NotFound(555).message().contains("not found"));
}

#[test]
fn test_error_messages_exact() {
    assert_eq!(CoreError::NotFound(3).message(), "issue not found");
    assert_eq!(CoreError::SelfBlock.message(), "an issue cannot block itself");
    assert_eq!(CoreError::StoreError.message(), "store failure");
}

#[test]
fn test_block_then_blockers_contains() {
    let mut db = Store::new();
    let a = db.create_issue("A", None, "medium").unwrap();
    let b = db.create_issue("B", None, "medium").unwrap();
    assert_eq!(block(&mut db, a, b), Ok(true));
    assert!(db.get_blockers(a).contains(&b));
}

#[test]
fn test_block_idempotent_reports_existing() {
    let mut db = Store::new();
    let a = db.create_issue("A", None, "medium").unwrap();
    let b = db.create_issue("B", None, "medium").unwrap();
    assert_eq!(block(&mut db, a, b), Ok(true));
    assert_eq!(block(&mut db, a, b), Ok(false));
    assert_eq!(db.get_blockers(a).len(), 1);
}

#[test]
fn test_unblock_missing_leaves_other_blockers() {
    let mut db = Store::new();
    let a = db.create_issue("A", None, "medium").unwrap();
    let b = db.create_issue("B", None, "medium").unwrap();
    let c = db.create_issue("C", None, "medium").unwrap();
    block(&mut db, a, c).unwrap();
    assert!(!unblock(&mut db, a, b));
    assert_eq!(db.get_blockers(a), vec![c]);
}

#[test]
fn test_unblock_reports_removed() {
    let mut db = Store::new();
    let a = db.create_issue("A", None, "medium").unwrap();
    let b = db.create_issue("B", None, "medium").unwrap();
    block(&mut db, a, b).unwrap();
    assert!(unblock(&mut db, a, b));
    assert!(!unblock(&mut db, a, b));
}

#[test]
fn test_reopen_restores_readiness_of_blocked() {
    let mut db = Store::new();
    let a = db.create_issue("A", None, "medium").unwrap();
    let b = db.create_issue("B", None, "medium").unwrap();
    block(&mut db, a, b).unwrap();
    db.close_issue(b).unwrap();
    assert!(db.list_ready_issues().iter().any(|i| i.id == a));
    db.reopen_issue(b).unwrap();
    assert!(!db.list_ready_issues().iter().any(|i| i.id == a));
}

#[test]
fn test_closed_blocker_keeps_block_record_but_frees_issue() {
    let mut db = Store::new();
    let blocked = db.create_issue("Waiting", None, "medium").unwrap();
    let blocker = db.create_issue("Gate", None, "medium").unwrap();
    block(&mut db, blocked, blocker).unwrap();

    assert!(db.list_blocked_issues().iter().any(|i| i.id == blocked));
    assert!(!db.list_ready_issues().iter().any(|i| i.id == blocked));

    db.close_issue(blocker).unwrap();

    // the block record persists, yet the issue is ready again
    assert!(db.list_blocked_issues().iter().any(|i| i.id == blocked));
    assert!(db.list_ready_issues().iter().any(|i| i.id == blocked));
}

#[test]
fn test_list_blocked_pairs_each_issue_with_blockers() {
    let mut db = Store::new();
    let a = db.create_issue("A", None, "medium").unwrap();
    let b = db.create_issue("B", None, "medium").unwrap();
    let c = db.create_issue("C", None, "medium").unwrap();
    block(&mut db, a, b).unwrap();
    block(&mut db, a, c).unwrap();
    let entries = list_blocked(&db);
    assert_eq!(entries.len(), 1);
    assert_eq!(entries[0].issue.id, a);
    assert_eq!(entries[0].blockers, vec![b, c]);
}

#[test]
fn test_render_open_filter_keeps_child_depth() {
    let mut db = Store::new();
    let parent = db.create_issue("Parent", None, "medium").unwrap();
    let open_child = db
        .create_subissue(parent, "Open child", None, "medium")
        .unwrap();
    let closed_child = db
        .create_subissue(parent, "Closed child", None, "medium")
        .unwrap();
    db.close_issue(closed_child).unwrap();

    let rows = run(&db, Some("open"));
    assert_eq!(rows.len(), 2);
    assert_eq!(rows[0].issue.id, parent);
    assert_eq!(rows[0].depth, 0);
    assert_eq!(rows[1].issue.id, open_child);
    assert_eq!(rows[1].depth, 1);
}

#[test]
fn test_render_hidden_parent_keeps_descendants_and_depths() {
    let mut db = Store::new();
    let root = db.create_issue("Closed root", None, "medium").unwrap();
    let child = db
        .create_subissue(root, "Open child", None, "medium")
        .unwrap();
    db.close_issue(root).unwrap();

    let rows = run(&db, Some("open"));
    assert_eq!(rows.len(), 1);
    assert_eq!(rows[0].issue.id, child);
    assert_eq!(rows[0].depth, 1, "depth is not renumbered under a hidden parent");
}

#[test]
fn test_render_all_visits_each_issue_once() {
    let mut db = Store::new();
    let r1 = db.create_issue("R1", None, "medium").unwrap();
    let r2 = db.create_issue("R2", None, "medium").unwrap();
    let c1 = db.create_subissue(r1, "C1", None, "medium").unwrap();
    let g1 = db.create_subissue(c1, "G1", None, "medium").unwrap();
    db.close_issue(c1).unwrap();

    for filter in [None, Some("all")] {
        let rows = run(&db, filter);
        let mut ids: Vec<i64> = rows.iter().map(|r| r.issue.id).collect();
        ids.sort();
        assert_eq!(ids, vec![r1, r2, c1, g1]);
    }
}

#[test]
fn test_render_concrete_filter_shows_only_that_status() {
    let mut db = Store::new();
    let r1 = db.create_issue("R1", None, "medium").unwrap();
    let c1 = db.create_subissue(r1, "C1", None, "medium").unwrap();
    db.create_subissue(c1, "G1", None, "medium").unwrap();
    db.close_issue(c1).unwrap();

    let rows = run(&db, Some("closed"));
    assert_eq!(rows.len(), 1);
    assert_eq!(rows[0].issue.id, c1);
    assert!(rows.iter().all(|r| r.issue.status == "closed"));
}

#[test]
fn test_pre_order_interleaved_ids() {
    let mut db = Store::new();
    let r1 = db.create_issue("R1", None, "medium").unwrap();
    let r2 = db.create_issue("R2", None, "medium").unwrap();
    let c1 = db.create_subissue(r1, "C1", None, "medium").unwrap();

    // pre-order: r1 and its whole subtree before r2, despite c1 > r2
    let rows = run(&db, None);
    let ids: Vec<i64> = rows.iter().map(|r| r.issue.id).collect();
    assert_eq!(ids, vec![r1, c1, r2]);
}

#[test]
fn test_cycle_of_blocks_marks_both_not_ready() {
    let mut db = Store::new();
    let a = db.create_issue("A", None, "medium").unwrap();
    let b = db.create_issue("B", None, "medium").unwrap();
    block(&mut db, a, b).unwrap();
    block(&mut db, b, a).unwrap();
    let ready = db.list_ready_issues();
    assert!(!ready.iter().any(|i| i.id == a || i.id == b));
}

#[test]
fn test_lists_are_ascending_by_id() {
    let mut db = Store::new();
    let a = db.create_issue("A", None, "medium").unwrap();
    let b = db.create_issue("B", None, "medium").unwrap();
    let c = db.create_issue("C", None, "medium").unwrap();
    block(&mut db, c, a).unwrap();
    block(&mut db, b, a).unwrap();
    let blocked: Vec<i64> = db.list_blocked_issues().iter().map(|i| i.id).collect();
    assert_eq!(blocked, vec![b, c]);
    db.close_issue(a).unwrap();
    let ready: Vec<i64> = db.list_ready_issues().iter().map(|i| i.id).collect();
    assert_eq!(ready, vec![b, c]);
}

#[test]
fn test_created_issue_fields() {
    let mut db = Store::new();
    let id = db
        .create_issue("Title", Some("Describes it"), "high")
        .unwrap();
    let iss = db.get_issue(id).unwrap();
    assert_eq!(iss.id, id);
    assert_eq!(iss.title, "Title");
    assert_eq!(iss.description.as_deref(), Some("Describes it"));
    assert_eq!(iss.priority, "high");
    assert_eq!(iss.status, "open");
    assert_eq!(iss.parent_id, None);
}
