use chainlink::store::Store;
use chainlink::tree::{run, status_icon};

fn setup_test_db() -> Store {
    Store::new()
}

#[test]
fn test_status_icon_open() {
    assert_eq!(status_icon("open"), " ");
}

#[test]
fn test_status_icon_closed() {
    assert_eq!(status_icon("closed"), "x");
}

#[test]
fn test_status_icon_unknown() {
    assert_eq!(status_icon("archived"), "?");
}

#[test]
fn test_run_empty() {
    let db = setup_test_db();
    run(&db, None);
    let issues = db.list_issues(None);
    assert!(issues.is_empty());
}

#[test]
fn test_run_single_issue() {
    let mut db = setup_test_db();
    let id = db.create_issue("Test issue", None, "medium").unwrap();
    run(&db, None);
    let issues = db.list_issues(None);
    assert_eq!(issues.len(), 1);
    assert_eq!(issues[0].id, id);
}

#[test]
fn test_run_with_hierarchy() {
    let mut db = setup_test_db();
    let parent = db.create_issue("Parent", None, "high").unwrap();
    let c1 = db
        .create_subissue(parent, "Child 1", None, "medium")
        .unwrap();
    let c2 = db.create_subissue(parent, "Child 2", None, "low").unwrap();
    run(&db, None);
    let subs = db.get_subissues(parent);
    assert_eq!(subs.len(), 2);
    assert!(subs.iter().any(|s| s.id == c1));
    assert!(subs.iter().any(|s| s.id == c2));
}

#[test]
fn test_run_nested_hierarchy() {
    let mut db = setup_test_db();
    let grandparent = db.create_issue("Grandparent", None, "high").unwrap();
    let parent = db
        .create_subissue(grandparent, "Parent", None, "medium")
        .unwrap();
    let child = db.create_subissue(parent, "Child", None, "low").unwrap();
    run(&db, None);
    let child_issue = db.get_issue(child).unwrap();
    assert_eq!(child_issue.parent_id, Some(parent));
    let parent_issue = db.get_issue(parent).unwrap();
    assert_eq!(parent_issue.parent_id, Some(grandparent));
}

#[test]
fn test_run_with_status_filter() {
    let mut db = setup_test_db();
    let closed_id = db.create_issue("Closed issue", None, "medium").unwrap();
    let open_id = db.create_issue("Open issue", None, "medium").unwrap();
    db.close_issue(closed_id).unwrap();
    run(&db, Some("open"));
    let open_issues = db.list_issues(Some("open"));
    assert_eq!(open_issues.len(), 1);
    assert_eq!(open_issues[0].id, open_id);
}

#[test]
fn test_run_closed_filter() {
    let mut db = setup_test_db();
    let id = db.create_issue("Issue", None, "medium").unwrap();
    db.close_issue(id).unwrap();
    run(&db, Some("closed"));
    let closed = db.list_issues(Some("closed"));
    assert_eq!(closed.len(), 1);
    assert_eq!(closed[0].id, id);
}

#[test]
fn test_run_all_filter() {
    let mut db = setup_test_db();
    db.create_issue("Open issue", None, "medium").unwrap();
    let id = db.create_issue("Closed issue", None, "medium").unwrap();
    db.close_issue(id).unwrap();
    run(&db, Some("all"));
    let all = db.list_issues(Some("all"));
    assert_eq!(all.len(), 2);
}

#[test]
fn test_run_many_roots() {
    let mut db = setup_test_db();
    for i in 0..4 {
        db.create_issue(&format!("Issue {}", i), None, "medium")
            .unwrap();
    }
    let rows = run(&db, None);
    assert_eq!(rows.len(), 4);
    assert!(rows.iter().all(|r| r.depth == 0));
}

#[test]
fn test_run_deep_chain() {
    let mut db = setup_test_db();
    let mut parent_id = db.create_issue("Root", None, "high").unwrap();
    for i in 0..3 {
        parent_id = db
            .create_subissue(parent_id, &format!("Child {}", i), None, "medium")
            .unwrap();
    }
    let rows = run(&db, None);
    assert_eq!(rows.len(), 4);
    for (expected_depth, row) in rows.iter().enumerate() {
        assert_eq!(row.depth, expected_depth);
    }
}
