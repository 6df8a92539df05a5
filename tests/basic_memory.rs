use kb_memory::store::BasicConstructDB;

fn new_db() -> BasicConstructDB {
    BasicConstructDB::new(
        "localhost".to_string(),
        5432,
        "test".to_string(),
        "user".to_string(),
        "pass".to_string(),
        "test_table".to_string(),
    )
}

fn add_family(db: &mut BasicConstructDB) {
    let _ = db.store("root", r#"{"type":"root"}"#.to_string(), None, None);
    let _ = db.store("root.child1", r#"{"type":"child"}"#.to_string(), None, None);
    let _ = db.store("root.child2", r#"{"type":"child"}"#.to_string(), None, None);
    let _ = db.store("root.child1.grandchild", r#"{"type":"grandchild"}"#.to_string(), None, None);
}

#[test]
fn test_validate_path() {
    let db = new_db();

    assert!(db.validate_path("root"));
    assert!(db.validate_path("root.child"));
    assert!(db.validate_path("root.child.grandchild"));
    assert!(db.validate_path("_underscore"));
    assert!(db.validate_path("with_123"));

    assert!(!db.validate_path(""));
    assert!(!db.validate_path("123invalid"));
    assert!(!db.validate_path("invalid-dash"));
    assert!(!db.validate_path("invalid space"));
    assert!(!db.validate_path(".invalid"));
    assert!(!db.validate_path("invalid."));
}

#[test]
fn test_ltree_operations() {
    let db = new_db();

    assert!(db.ltree_ancestor("root", "root.child"));
    assert!(db.ltree_ancestor("root.child", "root.child.grandchild"));
    assert!(!db.ltree_ancestor("root", "root"));
    assert!(!db.ltree_ancestor("root.child", "root"));

    assert!(db.ltree_descendant("root.child", "root"));
    assert!(db.ltree_descendant("root.child.grandchild", "root.child"));

    assert_eq!(db.path_depth("root"), 1);
    assert_eq!(db.path_depth("root.child"), 2);
    assert_eq!(db.path_depth("root.child.grandchild"), 3);

    assert_eq!(db.ltree_concatenate("root", "child"), "root.child");
    assert_eq!(db.ltree_concatenate("", "child"), "child");
    assert_eq!(db.ltree_concatenate("root", ""), "root");
}

#[test]
fn test_store_and_retrieve() {
    let mut db = new_db();

    let data = r#"{"name":"test","value":42}"#.to_string();

    assert!(db.store("root", data.clone(), None, None).is_ok());
    assert!(db.contains_path("root"));

    let retrieved = db.get("root").unwrap().unwrap();
    assert_eq!(retrieved, data);

    let node = db.get_node("root").unwrap().unwrap();
    assert_eq!(node.path, "root");
    assert_eq!(node.data, data);
}

#[test]
fn test_query_operations() {
    let mut db = new_db();
    add_family(&mut db);

    let results = db.query("root.*");
    assert_eq!(results.len(), 2);

    let results = db.query("root.**");
    assert_eq!(results.len(), 3);

    let ancestors = db.query_ancestors("root.child1.grandchild").unwrap();
    assert_eq!(ancestors.len(), 2);

    let descendants = db.query_descendants("root").unwrap();
    assert_eq!(descendants.len(), 3);

    let subtree = db.query_subtree("root.child1").unwrap();
    assert_eq!(subtree.len(), 2);
}

#[test]
fn test_delete_operations() {
    let mut db = new_db();
    add_family(&mut db);

    assert_eq!(db.size(), 4);

    assert!(db.delete("root.child2"));
    assert_eq!(db.size(), 3);
    assert!(!db.contains_path("root.child2"));

    let deleted_count = db.delete_subtree("root.child1");
    assert_eq!(deleted_count, 2);
    assert_eq!(db.size(), 1);
    assert!(!db.contains_path("root.child1"));
    assert!(!db.contains_path("root.child1.grandchild"));
    assert!(db.contains_path("root"));
}

#[test]
fn test_lca() {
    let db = new_db();

    let paths = vec![
        "root.a.b.c".to_string(),
        "root.a.b.d".to_string(),
        "root.a.e".to_string(),
    ];

    let lca = db.lca(&paths);
    assert_eq!(lca, Some("root.a".to_string()));

    let paths2 = vec!["root.a.b".to_string(), "other.x.y".to_string()];

    let lca2 = db.lca(&paths2);
    assert_eq!(lca2, None);
}

#[test]
fn test_tree_stats() {
    let mut db = new_db();
    add_family(&mut db);
    let _ = db.store("other_root", r#"{"type":"root"}"#.to_string(), None, None);

    let stats = db.get_stats();
    assert_eq!(stats.total_nodes, 5);
    assert_eq!(stats.max_depth, 3);
    assert_eq!(stats.root_nodes, 2);
    assert_eq!(stats.leaf_nodes, 3);
}
