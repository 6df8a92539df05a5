use kb_memory::construct::ConstructMemDB;

fn key_value(v: &str) -> Vec<(String, String)> {
    vec![("key".to_string(), format!("\"{}\"", v))]
}

#[test]
fn test_new_construct_mem_db() {
    let db = ConstructMemDB::default();
    assert!(db.get_working_kb().is_none());
    assert!(db.get_all_kb_names().is_empty());
}

#[test]
fn test_add_and_select_kb() {
    let mut db = ConstructMemDB::default();

    assert!(db.add_kb("test_kb".to_string(), "Test KB description".to_string()).is_ok());
    assert_eq!(db.get_all_kb_names(), vec!["test_kb"]);

    assert!(db.add_kb("test_kb".to_string(), "Another description".to_string()).is_err());

    assert!(db.select_kb("test_kb".to_string()).is_ok());
    assert_eq!(db.get_working_kb(), Some(&"test_kb".to_string()));

    assert!(db.select_kb("nonexistent".to_string()).is_err());
}

#[test]
fn test_add_header_node() {
    let mut db = ConstructMemDB::default();

    let node_data = key_value("value");
    assert!(db
        .add_header_node(
            "link1".to_string(),
            "node1".to_string(),
            node_data.clone(),
            Some("Test description".to_string())
        )
        .is_err());

    assert!(db.add_kb("test_kb".to_string(), "Test KB".to_string()).is_ok());
    assert!(db.select_kb("test_kb".to_string()).is_ok());

    assert!(db
        .add_header_node(
            "link1".to_string(),
            "node1".to_string(),
            node_data,
            Some("Test description".to_string())
        )
        .is_ok());

    let path = db.get_current_path().unwrap();
    assert_eq!(path, vec!["test_kb", "link1", "node1"]);
    assert_eq!(db.get_current_path_string(), "test_kb.link1.node1");
}

#[test]
fn test_add_info_node() {
    let mut db = ConstructMemDB::default();

    assert!(db.add_kb("test_kb".to_string(), "Test KB".to_string()).is_ok());
    assert!(db.select_kb("test_kb".to_string()).is_ok());

    let node_data = vec![("info".to_string(), "\"temporary\"".to_string())];

    assert!(db
        .add_info_node("info_link".to_string(), "info_node".to_string(), node_data, None)
        .is_ok());

    let path = db.get_current_path().unwrap();
    assert_eq!(path, vec!["test_kb"]);
}

#[test]
fn test_leave_header_node() {
    let mut db = ConstructMemDB::default();

    assert!(db.add_kb("test_kb".to_string(), "Test KB".to_string()).is_ok());
    assert!(db.select_kb("test_kb".to_string()).is_ok());

    let node_data = key_value("value");

    assert!(db
        .add_header_node("link1".to_string(), "node1".to_string(), node_data, None)
        .is_ok());

    assert!(db.leave_header_node("link1".to_string(), "node1".to_string()).is_ok());

    let path = db.get_current_path().unwrap();
    assert_eq!(path, vec!["test_kb"]);

    assert!(db.leave_header_node("test_kb".to_string(), "root".to_string()).is_err());
}

#[test]
fn test_leave_header_node_wrong_values() {
    let mut db = ConstructMemDB::default();

    assert!(db.add_kb("test_kb".to_string(), "Test KB".to_string()).is_ok());
    assert!(db.select_kb("test_kb".to_string()).is_ok());

    let node_data = key_value("value");

    assert!(db
        .add_header_node("link1".to_string(), "node1".to_string(), node_data, None)
        .is_ok());

    let path = db.get_current_path().unwrap();
    assert_eq!(path, vec!["test_kb", "link1", "node1"]);
}

#[test]
fn test_check_installation() {
    let mut db = ConstructMemDB::default();

    assert!(db.check_installation().is_ok());

    assert!(db.add_kb("test_kb".to_string(), "Test KB".to_string()).is_ok());
    assert!(db.select_kb("test_kb".to_string()).is_ok());

    assert!(db.check_installation().is_ok());

    let node_data = key_value("value");
    assert!(db
        .add_header_node("link1".to_string(), "node1".to_string(), node_data, None)
        .is_ok());

    assert!(db.check_installation().is_err());

    assert!(db.leave_header_node("link1".to_string(), "node1".to_string()).is_ok());

    assert!(db.check_installation().is_ok());
}

#[test]
fn test_remove_kb() {
    let mut db = ConstructMemDB::default();

    assert!(db.add_kb("test_kb".to_string(), "Test KB".to_string()).is_ok());
    assert!(db.select_kb("test_kb".to_string()).is_ok());

    let node_data = key_value("value");
    assert!(db
        .add_header_node("link1".to_string(), "node1".to_string(), node_data, None)
        .is_ok());

    assert!(db.remove_kb("test_kb").is_ok());

    assert!(db.get_working_kb().is_none());
    assert!(db.get_all_kb_names().is_empty());

    assert!(db.remove_kb("nonexistent").is_err());
}

#[test]
fn test_kb_stats_and_paths() {
    let mut db = ConstructMemDB::default();

    assert!(db.add_kb("test_kb".to_string(), "Test KB".to_string()).is_ok());
    assert!(db.select_kb("test_kb".to_string()).is_ok());

    let node_data = key_value("value1");
    assert!(db
        .add_header_node("link1".to_string(), "node1".to_string(), node_data, None)
        .is_ok());
    assert!(db.leave_header_node("link1".to_string(), "node1".to_string()).is_ok());

    let node_data = key_value("value2");
    assert!(db
        .add_header_node("link2".to_string(), "node2".to_string(), node_data, None)
        .is_ok());
    assert!(db.leave_header_node("link2".to_string(), "node2".to_string()).is_ok());

    let stats = db.get_kb_stats("test_kb").unwrap();
    assert_eq!(stats.0, 2);
    assert_eq!(stats.1, vec!["test_kb"]);

    let paths = db.list_kb_paths("test_kb").unwrap();
    assert_eq!(paths.len(), 2);
    assert!(paths.contains(&"test_kb.link1.node1".to_string()));
    assert!(paths.contains(&"test_kb.link2.node2".to_string()));
}
