use mammal_store::errors::StoreError;
use mammal_store::store::{Node, NodeContent, Store};

fn node(role: &str, created_at: u64, message: Option<&str>) -> Node {
    Node {
        role: role.to_string(),
        name: "someone".to_string(),
        created_at,
        message: message.map(|m| m.to_string()),
        metadata: "{}".to_string(),
    }
}

fn paths(rows: &[(String, Node)]) -> Vec<String> {
    rows.iter().map(|r| r.0.clone()).collect()
}

#[test]
fn insert_and_get_round_trip() {
    let mut s = Store::new();
    s.insert("1", &node("user", 11, Some("hello"))).unwrap();
    let n = s.get("1").unwrap();
    assert_eq!(n.role, "user");
    assert_eq!(n.created_at, 11);
    assert_eq!(n.message, Some("hello".to_string()));
}

#[test]
fn duplicate_insert_rejected_and_store_unchanged() {
    let mut s = Store::new();
    s.insert("1", &node("user", 1, Some("original"))).unwrap();
    let r = s.insert("1", &node("assistant", 2, Some("usurper")));
    assert_eq!(r, Err(StoreError::DuplicatePath));
    let n = s.get("1").unwrap();
    assert_eq!(n.role, "user");
    assert_eq!(n.created_at, 1);
    assert_eq!(n.message, Some("original".to_string()));
}

#[test]
fn get_absent_is_not_found() {
    let s = Store::new();
    assert_eq!(s.get("1").map(|_| ()), Err(StoreError::NotFound));
}

#[test]
fn malformed_paths_rejected_everywhere() {
    let mut s = Store::new();
    assert_eq!(
        s.insert("1..2", &node("user", 0, None)),
        Err(StoreError::MalformedPath)
    );
    assert_eq!(s.get("x").map(|_| ()), Err(StoreError::MalformedPath));
    assert_eq!(s.delete("01"), Err(StoreError::MalformedPath));
    assert_eq!(
        s.list_subtree("").map(|_| ()),
        Err(StoreError::MalformedPath)
    );
}

#[test]
fn update_replaces_content_keeps_created_at() {
    let mut s = Store::new();
    s.insert("1", &node("user", 42, Some("before"))).unwrap();
    s.update(
        "1",
        NodeContent {
            role: "assistant".to_string(),
            name: "other".to_string(),
            message: Some("after".to_string()),
            metadata: "{\"edited\":true}".to_string(),
        },
    )
    .unwrap();
    let n = s.get("1").unwrap();
    assert_eq!(n.role, "assistant");
    assert_eq!(n.name, "other");
    assert_eq!(n.created_at, 42);
    assert_eq!(n.message, Some("after".to_string()));
}

#[test]
fn update_absent_is_not_found() {
    let mut s = Store::new();
    let r = s.update(
        "9",
        NodeContent {
            role: "user".to_string(),
            name: "n".to_string(),
            message: None,
            metadata: String::new(),
        },
    );
    assert_eq!(r, Err(StoreError::NotFound));
}

#[test]
fn delete_removes_only_named_node() {
    let mut s = Store::new();
    s.insert("1", &node("user", 0, None)).unwrap();
    s.insert("1.1", &node("user", 0, None)).unwrap();
    s.delete("1").unwrap();
    assert_eq!(s.get("1").map(|_| ()), Err(StoreError::NotFound));
    // descendants are orphaned, not removed
    assert!(s.get("1.1").is_ok());
    assert_eq!(s.delete("1"), Err(StoreError::NotFound));
}

#[test]
fn subtree_scan_is_exact() {
    let mut s = Store::new();
    for p in ["1", "1.1", "1.2", "1.2.1", "2"] {
        s.insert(p, &node("user", 0, None)).unwrap();
    }
    let rows = s.list_subtree("1.2").unwrap();
    assert_eq!(paths(&rows), vec!["1.2", "1.2.1"]);
    let rows = s.list_subtree("1").unwrap();
    assert_eq!(paths(&rows), vec!["1", "1.1", "1.2", "1.2.1"]);
    let rows = s.list_subtree("3").unwrap();
    assert!(rows.is_empty());
}

#[test]
fn subtree_order_is_numeric() {
    let mut s = Store::new();
    for p in ["1.10", "1.2", "1.9", "1"] {
        s.insert(p, &node("user", 0, None)).unwrap();
    }
    let rows = s.list_subtree("1").unwrap();
    assert_eq!(paths(&rows), vec!["1", "1.2", "1.9", "1.10"]);
}

#[test]
fn children_are_direct_only() {
    let mut s = Store::new();
    for p in ["1", "1.1", "1.2", "1.2.1", "1.10", "2"] {
        s.insert(p, &node("user", 0, None)).unwrap();
    }
    let rows = s.list_children("1").unwrap();
    assert_eq!(paths(&rows), vec!["1.1", "1.2", "1.10"]);
}

#[test]
fn search_scenario_with_scope_and_delete() {
    let mut s = Store::new();
    s.insert("1", &node("user", 0, Some("hello world"))).unwrap();
    s.insert("1.1", &node("assistant", 1, Some("hello again")))
        .unwrap();
    let hits = s.search("hello", None).unwrap();
    assert_eq!(
        hits.iter().map(|h| h.0.clone()).collect::<Vec<_>>(),
        vec!["1", "1.1"]
    );
    let hits = s.search("hello", Some("1.1")).unwrap();
    assert_eq!(hits.len(), 1);
    assert_eq!(hits[0].0, "1.1");
    assert_eq!(hits[0].1, "hello again");
    s.delete("1.1").unwrap();
    let hits = s.search("hello", None).unwrap();
    assert_eq!(hits.len(), 1);
    assert_eq!(hits[0].0, "1");
}

#[test]
fn search_matches_arbitrary_substrings() {
    let mut s = Store::new();
    s.insert("1", &node("user", 0, Some("hello world"))).unwrap();
    assert_eq!(s.search("lo wo", None).unwrap().len(), 1);
    assert_eq!(s.search("world", None).unwrap().len(), 1);
    assert_eq!(s.search("worlds", None).unwrap().len(), 0);
    // the empty query matches every indexed body
    assert_eq!(s.search("", None).unwrap().len(), 1);
}

#[test]
fn search_ignores_nodes_without_message() {
    let mut s = Store::new();
    s.insert("1", &node("user", 0, None)).unwrap();
    s.insert("2", &node("user", 0, Some("text"))).unwrap();
    assert_eq!(s.search("", None).unwrap().len(), 1);
    assert_eq!(s.search("text", None).unwrap()[0].0, "2");
}

#[test]
fn search_scope_is_segment_prefix() {
    let mut s = Store::new();
    s.insert("1.2", &node("user", 0, Some("alpha"))).unwrap();
    s.insert("1.20", &node("user", 0, Some("alpha"))).unwrap();
    let hits = s.search("alpha", Some("1.2")).unwrap();
    assert_eq!(hits.len(), 1);
    assert_eq!(hits[0].0, "1.2");
    assert_eq!(
        s.search("alpha", Some("1,2")).map(|_| ()),
        Err(StoreError::MalformedPath)
    );
}

#[test]
fn update_keeps_index_in_step() {
    let mut s = Store::new();
    s.insert("1", &node("user", 0, Some("old text"))).unwrap();
    s.update(
        "1",
        NodeContent {
            role: "user".to_string(),
            name: "someone".to_string(),
            message: Some("new text".to_string()),
            metadata: String::new(),
        },
    )
    .unwrap();
    assert_eq!(s.search("old", None).unwrap().len(), 0);
    assert_eq!(s.search("new", None).unwrap().len(), 1);
    // removing the message removes the index row
    s.update(
        "1",
        NodeContent {
            role: "user".to_string(),
            name: "someone".to_string(),
            message: None,
            metadata: String::new(),
        },
    )
    .unwrap();
    assert_eq!(s.search("", None).unwrap().len(), 0);
    assert!(s.check_index().is_ok());
}

#[test]
fn reindex_is_identity_on_consistent_store() {
    let mut s = Store::new();
    s.insert("1", &node("user", 0, Some("hello world"))).unwrap();
    s.insert("1.1", &node("user", 1, Some("hello again"))).unwrap();
    s.insert("2", &node("user", 2, None)).unwrap();
    s.delete("1.1").unwrap();
    let before: Vec<(String, String)> = s.search("", None).unwrap();
    s.reindex();
    let after: Vec<(String, String)> = s.search("", None).unwrap();
    assert_eq!(before, after);
    assert!(s.check_index().is_ok());
}

#[test]
fn check_index_passes_after_every_operation() {
    let mut s = Store::new();
    assert!(s.check_index().is_ok());
    s.insert("1", &node("user", 0, Some("a"))).unwrap();
    assert!(s.check_index().is_ok());
    s.insert("1.1", &node("user", 0, None)).unwrap();
    assert!(s.check_index().is_ok());
    s.update(
        "1.1",
        NodeContent {
            role: "user".to_string(),
            name: "someone".to_string(),
            message: Some("b".to_string()),
            metadata: String::new(),
        },
    )
    .unwrap();
    assert!(s.check_index().is_ok());
    s.delete("1").unwrap();
    assert!(s.check_index().is_ok());
}
