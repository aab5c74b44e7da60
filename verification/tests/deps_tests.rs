use chainlink::deps::{block, list_blocked, list_ready, unblock};
use chainlink::store::Store;

fn setup_test_db() -> Store {
    Store::new()
}

// Block function tests
#[test]
fn test_block_success() {
    let mut db = setup_test_db();
    let issue1 = db.create_issue("Issue 1", None, "medium").unwrap();
    let issue2 = db.create_issue("Issue 2", None, "medium").unwrap();

    block(&mut db, issue1, issue2).unwrap();
    let blockers = db.get_blockers(issue1);
    assert!(
        blockers.contains(&issue2),
        "Issue 2 should be a blocker of Issue 1"
    );
}

#[test]
fn test_block_nonexistent_issue() {
    let mut db = setup_test_db();
    let issue = db.create_issue("Issue", None, "medium").unwrap();

    let result = block(&mut db, 99999, issue);
    assert!(result.is_err());
    assert!(result.unwrap_err().message().contains("not found"));
}

#[test]
fn test_block_nonexistent_blocker() {
    let mut db = setup_test_db();
    let issue = db.create_issue("Issue", None, "medium").unwrap();

    let result = block(&mut db, issue, 99999);
    assert!(result.is_err());
    assert!(result.unwrap_err().message().contains("not found"));
}

#[test]
fn test_block_self() {
    let mut db = setup_test_db();
    let issue = db.create_issue("Issue", None, "medium").unwrap();

    let result = block(&mut db, issue, issue);
    assert!(result.is_err());
    assert!(result.unwrap_err().message().contains("cannot block itself"));
}

#[test]
fn test_block_duplicate() {
    let mut db = setup_test_db();
    let issue1 = db.create_issue("Issue 1", None, "medium").unwrap();
    let issue2 = db.create_issue("Issue 2", None, "medium").unwrap();

    block(&mut db, issue1, issue2).unwrap();
    block(&mut db, issue1, issue2).unwrap(); // Should succeed, report "already exists"
    let blockers = db.get_blockers(issue1);
    assert_eq!(
        blockers.len(),
        1,
        "Duplicate block should not create second dependency"
    );
    assert!(blockers.contains(&issue2));
}

// Unblock function tests
#[test]
fn test_unblock_success() {
    let mut db = setup_test_db();
    let issue1 = db.create_issue("Issue 1", None, "medium").unwrap();
    let issue2 = db.create_issue("Issue 2", None, "medium").unwrap();
    db.add_dependency(issue1, issue2);

    unblock(&mut db, issue1, issue2);
    let blockers = db.get_blockers(issue1);
    assert!(
        blockers.is_empty(),
        "Blocker should be removed after unblock"
    );
}

#[test]
fn test_unblock_nonexistent_dependency() {
    let mut db = setup_test_db();
    let issue1 = db.create_issue("Issue 1", None, "medium").unwrap();
    let issue2 = db.create_issue("Issue 2", None, "medium").unwrap();

    // Should succeed gracefully even when no dependency exists
    unblock(&mut db, issue1, issue2);
    let blockers = db.get_blockers(issue1);
    assert!(blockers.is_empty(), "No blockers should exist");
}

// List blocked tests
#[test]
fn test_list_blocked_empty() {
    let db = setup_test_db();

    list_blocked(&db);
    let blocked = db.list_blocked_issues();
    assert!(blocked.is_empty());
}

#[test]
fn test_list_blocked_with_issues() {
    let mut db = setup_test_db();
    let issue1 = db.create_issue("Blocked issue", None, "medium").unwrap();
    let issue2 = db.create_issue("Blocker", None, "medium").unwrap();
    db.add_dependency(issue1, issue2);

    list_blocked(&db);
    let blocked = db.list_blocked_issues();
    assert_eq!(blocked.len(), 1);
    assert_eq!(blocked[0].id, issue1);
}

#[test]
fn test_list_blocked_multiple_blockers() {
    let mut db = setup_test_db();
    let blocked = db.create_issue("Blocked", None, "medium").unwrap();
    let blocker1 = db.create_issue("Blocker 1", None, "medium").unwrap();
    let blocker2 = db.create_issue("Blocker 2", None, "medium").unwrap();
    db.add_dependency(blocked, blocker1);
    db.add_dependency(blocked, blocker2);

    list_blocked(&db);
    let blockers = db.get_blockers(blocked);
    assert_eq!(blockers.len(), 2);
    assert!(blockers.contains(&blocker1));
    assert!(blockers.contains(&blocker2));
}

// List ready tests
#[test]
fn test_list_ready_empty() {
    let db = setup_test_db();

    list_ready(&db);
    let ready = db.list_ready_issues();
    assert!(ready.is_empty());
}

#[test]
fn test_list_ready_with_issues() {
    let mut db = setup_test_db();
    let id = db.create_issue("Ready issue", None, "medium").unwrap();

    list_ready(&db);
    let ready = db.list_ready_issues();
    assert_eq!(ready.len(), 1);
    assert_eq!(ready[0].id, id);
}

#[test]
fn test_list_ready_excludes_blocked() {
    let mut db = setup_test_db();
    let blocked = db.create_issue("Blocked", None, "high").unwrap();
    let blocker = db.create_issue("Blocker", None, "medium").unwrap();
    db.add_dependency(blocked, blocker);

    let ready = db.list_ready_issues();
    assert!(!ready.iter().any(|i| i.id == blocked));
    assert!(ready.iter().any(|i| i.id == blocker));
}

#[test]
fn test_list_ready_excludes_closed() {
    let mut db = setup_test_db();
    let issue = db.create_issue("Closed issue", None, "medium").unwrap();
    db.close_issue(issue).unwrap();

    let ready = db.list_ready_issues();
    assert!(!ready.iter().any(|i| i.id == issue));
}

// Integration tests
#[test]
fn test_block_unblock_roundtrip() {
    let mut db = setup_test_db();
    let issue1 = db.create_issue("Issue 1", None, "medium").unwrap();
    let issue2 = db.create_issue("Issue 2", None, "medium").unwrap();

    block(&mut db, issue1, issue2).unwrap();
    let blocked = db.list_blocked_issues();
    assert!(blocked.iter().any(|i| i.id == issue1));

    unblock(&mut db, issue1, issue2);
    let blocked = db.list_blocked_issues();
    assert!(!blocked.iter().any(|i| i.id == issue1));
}

#[test]
fn test_closing_blocker_unblocks() {
    let mut db = setup_test_db();
    let blocked = db.create_issue("Blocked", None, "high").unwrap();
    let blocker = db.create_issue("Blocker", None, "medium").unwrap();
    db.add_dependency(blocked, blocker);

    // Blocked issue should not be ready
    let ready = db.list_ready_issues();
    assert!(!ready.iter().any(|i| i.id == blocked));

    // Close the blocker
    db.close_issue(blocker).unwrap();

    // Now blocked issue should be ready
    let ready = db.list_ready_issues();
    assert!(ready.iter().any(|i| i.id == blocked));
}

#[test]
fn test_block_creates_dependency_listing() {
    let mut db = setup_test_db();
    let issue1 = db.create_issue("alpha task", None, "medium").unwrap();
    let issue2 = db.create_issue("beta task", None, "medium").unwrap();

    block(&mut db, issue1, issue2).unwrap();
    let blockers = db.get_blockers(issue1);
    assert!(blockers.contains(&issue2));
    let blocked = db.list_blocked_issues();
    assert!(blocked.iter().any(|i| i.id == issue1));
}
