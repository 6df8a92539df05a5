use kb_memory::search::SearchMemDB;

fn create_test_db() -> SearchMemDB {
    let mut db = SearchMemDB::default();
    let _ = db.add_data(
        "kb1.section1.item2".to_string(),
        r#"{"description": "Second item", "category": "B"}"#.to_string(),
        None,
        None,
    );
    let _ = db.add_data(
        "kb1.section1.item1".to_string(),
        r#"{"description": "First item", "category": "A"}"#.to_string(),
        None,
        None,
    );
    let _ = db.add_data(
        "kb1.section1.item2".to_string(),
        r#"{"description": "Second item", "category": "B"}"#.to_string(),
        None,
        None,
    );
    let _ = db.add_data(
        "kb1.section2.item3".to_string(),
        r#"{"description": "Third item", "category": "A"}"#.to_string(),
        None,
        None,
    );
    let _ = db.add_data(
        "kb2.section1.item4".to_string(),
        r#"{"description": "Fourth item", "category": "C"}"#.to_string(),
        None,
        None,
    );
    db
}

fn description_at(ds: &[(String, String)], path: &str) -> String {
    ds.iter().find(|(p, _)| p == path).map(|(_, d)| d.clone()).unwrap()
}

#[test]
fn test_new_search_mem_db() {
    let db = SearchMemDB::default();
    assert_eq!(db.get_stats().total_items, 0);
}

#[test]
fn test_add_data_and_indices() {
    let mut db = SearchMemDB::default();

    assert!(db
        .add_data(
            "test_kb.test_label.test_name".to_string(),
            r#"{"description": "Test item"}"#.to_string(),
            None,
            None
        )
        .is_ok());

    assert!(db.get_kbs().contains_key("test_kb"));
    assert!(db.get_labels().contains_key("test_label"));
    assert!(db.get_names().contains_key("test_name"));
    assert_eq!(db.get_stats().total_items, 1);
}

#[test]
fn test_search_kb() {
    let mut db = create_test_db();

    let results = db.search_kb("kb1");
    assert_eq!(results.len(), 3);

    for key in results.keys() {
        assert!(key.starts_with("kb1."));
    }
}

#[test]
fn test_search_label() {
    let mut db = create_test_db();

    let results = db.search_label("section1");
    assert_eq!(results.len(), 3);

    for key in results.keys() {
        assert!(key.contains(".section1."));
    }
}

#[test]
fn test_search_name() {
    let mut db = create_test_db();

    let results = db.search_name("item1");
    assert_eq!(results.len(), 1);
    assert!(results.contains_key("kb1.section1.item1"));
}

#[test]
fn test_search_property_key() {
    let mut db = create_test_db();

    let results = db.search_property_key("category");
    assert_eq!(results.len(), 4);

    db.clear_filters();
    let results = db.search_property_key("nonexistent");
    assert_eq!(results.len(), 0);
}

#[test]
fn test_search_property_value() {
    let mut db = create_test_db();

    let results = db.search_property_value("category", "\"A\"");
    assert_eq!(results.len(), 2);

    assert!(results.contains_key("kb1.section1.item1"));
    assert!(results.contains_key("kb1.section2.item3"));
}

#[test]
fn test_chained_search() {
    let db = create_test_db();

    let results = db
        .chain_search()
        .kb("kb1")
        .label("section1")
        .property_value("category", "\"A\"")
        .results();

    assert_eq!(results.len(), 1);
    assert!(results.contains_key("kb1.section1.item1"));
}

#[test]
fn test_clear_filters() {
    let mut db = create_test_db();

    db.search_kb("kb1");
    assert_eq!(db.get_filter_results().len(), 3);

    db.clear_filters();
    assert_eq!(db.get_filter_results().len(), 4);
}

#[test]
fn test_find_descriptions() {
    let db = create_test_db();

    let descriptions = db.find_descriptions();
    assert_eq!(descriptions.len(), 4);
    assert_eq!(description_at(&descriptions, "kb1.section1.item1"), "First item");
    assert_eq!(description_at(&descriptions, "kb1.section1.item2"), "Second item");
}

#[test]
fn test_remove_data() {
    let mut db = create_test_db();

    assert_eq!(db.get_stats().total_items, 4);

    assert!(db.remove_data("kb1.section1.item1"));
    assert_eq!(db.get_stats().total_items, 3);

    let results = db.search_name("item1");
    assert_eq!(results.len(), 0);
}

#[test]
fn test_get_stats() {
    let db = create_test_db();

    let stats = db.get_stats();
    assert_eq!(stats.total_items, 4);
    assert_eq!(stats.filter_results, 4);
    assert_eq!(stats.knowledge_bases, 2);
    assert!(stats.unique_labels >= 2);
    assert!(stats.unique_names >= 4);
}
