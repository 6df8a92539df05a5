use kb_memory::construct::{ConstructMemDB, ConstructMemError};
use kb_memory::search::{SearchMemDB, SearchMemError};
use kb_memory::store::{sync_directions, BasicConstructDB, KbError, QueryResult};

fn new_db() -> BasicConstructDB {
    BasicConstructDB::new(
        "localhost".to_string(),
        5432,
        "test".to_string(),
        "user".to_string(),
        "pass".to_string(),
        "test_table".to_string(),
    )
}

fn family() -> BasicConstructDB {
    let mut db = new_db();
    for p in ["root", "root.child1", "root.child2", "root.child1.grandchild"] {
        assert!(db.store(p, "{}".to_string(), None, None).is_ok());
    }
    db
}

fn paths_of(rows: &[QueryResult]) -> Vec<String> {
    rows.iter().map(|r| r.path.clone()).collect()
}

#[test]
fn concatenate_identity_and_depth() {
    let db = new_db();
    assert_eq!(db.ltree_concatenate("a.b", ""), "a.b");
    assert_eq!(db.ltree_concatenate("", "c.d"), "c.d");
    let joined = db.ltree_concatenate("a.b", "c.d.e");
    assert_eq!(joined, "a.b.c.d.e");
    assert_eq!(db.nlevel(&joined), db.nlevel("a.b") + db.nlevel("c.d.e"));
}

#[test]
fn ancestor_relations() {
    let db = new_db();
    assert!(db.ltree_ancestor_or_equal("root.a", "root.a"));
    assert!(!db.ltree_ancestor("root.a", "root.a"));
    assert!(db.ltree_descendant_or_equal("root.a", "root.a"));
    assert!(!db.ltree_ancestor("root", "rootx.a"));
    for (a, b) in [("root", "root.a"), ("root.a", "root"), ("root", "rooted.a")] {
        assert_eq!(db.ltree_ancestor(a, b), db.ltree_descendant(b, a));
    }
}

#[test]
fn lca_of_none_and_one() {
    let db = new_db();
    assert_eq!(db.lca(&[]), None);
    assert_eq!(db.lca(&["root.a.b".to_string()]), Some("root.a.b".to_string()));
    assert_eq!(
        db.lca(&["root.a.b.c".to_string(), "root.a.b.d".to_string(), "root.a.e".to_string()]),
        Some("root.a".to_string())
    );
}

#[test]
fn store_get_delete() {
    let mut db = new_db();
    assert!(db.store("a.b", "[1,2]".to_string(), Some("t0".to_string()), None).is_ok());
    assert_eq!(db.get("a.b").unwrap(), Some("[1,2]".to_string()));
    assert!(db.store("a.b", "3".to_string(), None, None).is_ok());
    assert_eq!(db.get("a.b").unwrap(), Some("3".to_string()));
    assert_eq!(db.size(), 1);
    assert!(db.delete("a.b"));
    assert!(!db.contains_path("a.b"));
    assert!(!db.delete("a.b"));
    assert_eq!(db.get("a.b").unwrap(), None);
}

#[test]
fn delete_subtree_removes_exactly_the_subtree() {
    let mut db = new_db();
    for p in ["root", "root.a", "root.a.b", "root.ab", "root.b", "rootx"] {
        assert!(db.store(p, "{}".to_string(), None, None).is_ok());
    }
    assert_eq!(db.delete_subtree("root.a"), 2);
    assert_eq!(db.get_all_paths(), vec!["root", "root.ab", "root.b", "rootx"]);
    assert_eq!(db.delete_subtree("root.missing"), 0);
    assert_eq!(db.delete_subtree("root"), 3);
    assert_eq!(db.get_all_paths(), vec!["rootx"]);
}

#[test]
fn wildcard_queries_return_exact_sets() {
    let db = family();
    assert_eq!(paths_of(&db.query("root.*")), vec!["root.child1", "root.child2"]);
    assert_eq!(
        paths_of(&db.query("root.**")),
        vec!["root.child1", "root.child1.grandchild", "root.child2"]
    );
    assert_eq!(paths_of(&db.query("root.{child2,none}")), vec!["root.child2"]);
    assert_eq!(paths_of(&db.query("root@child1")), vec!["root.child1"]);
}

#[test]
fn ancestors_shallowest_first() {
    let db = family();
    let rows = db.query_ancestors("root.child1.grandchild").unwrap();
    assert_eq!(paths_of(&rows), vec!["root", "root.child1"]);
    assert!(matches!(db.query_ancestors("bad-path"), Err(KbError::InvalidPath(_))));
}

#[test]
fn operator_queries() {
    let db = family();
    assert_eq!(paths_of(&db.query_by_operator("@>", "root.child1.grandchild", "")), vec!["root", "root.child1"]);
    assert_eq!(
        paths_of(&db.query_by_operator("<@", "root", "")),
        vec!["root.child1", "root.child1.grandchild", "root.child2"]
    );
    assert_eq!(paths_of(&db.query_by_operator("~", "root.*", "")), vec!["root.child1", "root.child2"]);
    assert_eq!(paths_of(&db.query_by_operator("@@", "grandchild", "")), vec!["root.child1.grandchild"]);
    assert!(db.query_by_operator("??", "root", "").is_empty());
}

#[test]
fn regex_compilation() {
    let db = new_db();
    assert_eq!(db.convert_ltree_query_to_regex("a.*{2,3}.b"), r"^a\.([^.]+){2,3}[^.]*\.b$");
    assert_eq!(db.convert_ltree_query_to_regex("a.*{,3}"), r"^a\.([^.]+){0,3}[^.]*$");
    assert_eq!(db.convert_ltree_query_to_regex("a.*{2}"), r"^a\.([^.]+){2}[^.]*$");
    assert_eq!(db.convert_ltree_query_to_regex("root.{x,y}"), r"^root\.(x|y)$");
    assert_eq!(db.convert_ltree_query_to_regex("a@b"), r"^a\.b$");
    assert!(db.ltree_match("a.xyz.b", "a.*{2,3}.b"));
    assert!(!db.ltree_match("a.b", "a.*{2,3}.b"));
}

#[test]
fn word_predicates() {
    let db = new_db();
    assert!(db.ltxtquery_match("root.child1", " child1 "));
    assert!(db.ltxtquery_match("root.child1", "child1 & root"));
    assert!(!db.ltxtquery_match("root.child1", "child1 & other"));
    assert!(db.ltxtquery_match("root.child1", "other | root"));
    assert!(!db.ltxtquery_match("root.child1", "other | none"));
    assert!(db.ltxtquery_match("root.child1", "root & x | child1") == false);
    assert!(!db.ltxtquery_match("root.child1", "!root"));
}

#[test]
fn subpath_subltree_index() {
    let db = new_db();
    assert_eq!(db.subpath("a.b.c.d", 1, Some(2)), "b.c");
    assert_eq!(db.subpath("a.b.c.d", -2, None), "c.d");
    assert_eq!(db.subpath_func("a.b.c.d", 0, Some(10)), "a.b.c.d");
    assert_eq!(db.subltree("a.b.c.d", 1, 3), "b.c");
    assert_eq!(db.subltree("a.b.c.d", 5, 7), "");
    assert_eq!(db.subltree("a.b.c.d", 2, 99), "c.d");
    assert_eq!(db.index_func("a.b.c.b.c", "b.c", 0), Some(1));
    assert_eq!(db.index_func("a.b.c.b.c", "b.c", 2), Some(3));
    assert_eq!(db.index_func("a.b", "a.b.c", 0), None);
    assert_eq!(db.text2ltree("a.b").unwrap(), "a.b");
    assert!(matches!(db.text2ltree("a..b"), Err(KbError::ValidationError(_))));
    assert_eq!(db.ltree2text("x.y"), "x.y");
    assert_eq!(db.path_labels("x.y"), vec!["x", "y"]);
}

#[test]
fn store_errors() {
    let mut db = new_db();
    assert!(matches!(db.store("1bad", "{}".to_string(), None, None), Err(KbError::InvalidPath(_))));
    assert!(matches!(db.get("a b"), Err(KbError::InvalidPath(_))));
    assert!(matches!(db.add_subtree("root", &[]), Err(KbError::PathNotFound(_))));
    assert!(db.add_kb("k", "d").is_ok());
    assert!(matches!(db.add_kb("k", "d"), Err(KbError::KnowledgeBaseExists(_))));
}

#[test]
fn add_subtree_grafts_entries() {
    let mut db = family();
    let rows = vec![
        QueryResult { path: "x".to_string(), data: "1".to_string(), created_at: None, updated_at: Some("t".to_string()) },
        QueryResult { path: "x.y".to_string(), data: "2".to_string(), created_at: None, updated_at: None },
    ];
    assert!(db.add_subtree("root.child2", &rows).is_ok());
    assert_eq!(db.get("root.child2.x.y").unwrap(), Some("2".to_string()));
    let node = db.get_node("root.child2.x").unwrap().unwrap();
    assert_eq!(node.updated_at, Some("t".to_string()));
    let bad = vec![QueryResult { path: "9z".to_string(), data: "0".to_string(), created_at: None, updated_at: None }];
    assert!(matches!(db.add_subtree("root", &bad), Err(KbError::InvalidPath(_))));
}

fn kb_with_scope() -> ConstructMemDB {
    let mut db = ConstructMemDB::default();
    assert!(db.add_kb("k".to_string(), "d".to_string()).is_ok());
    assert!(db.select_kb("k".to_string()).is_ok());
    assert!(db.add_header_node("L".to_string(), "N".to_string(), vec![], None).is_ok());
    db
}

#[test]
fn open_close_and_mismatch() {
    let mut db = kb_with_scope();
    let r = db.leave_header_node("L".to_string(), "X".to_string());
    assert!(matches!(r, Err(ConstructMemError::AssertionError(_))));
    assert_eq!(db.get_current_path().unwrap(), vec!["k", "L", "N"]);
    assert!(matches!(db.check_installation(), Err(ConstructMemError::InstallationCheckFailed(_))));
    assert!(db.leave_header_node("L".to_string(), "N".to_string()).is_ok());
    assert_eq!(db.get_current_path().unwrap(), vec!["k"]);
    assert!(db.check_installation().is_ok());
    assert!(matches!(
        db.leave_header_node("L".to_string(), "N".to_string()),
        Err(ConstructMemError::NotEnoughElements)
    ));
}

#[test]
fn reopening_a_path_fails() {
    let mut db = kb_with_scope();
    assert!(db.leave_header_node("L".to_string(), "N".to_string()).is_ok());
    let r = db.add_header_node("L".to_string(), "N".to_string(), vec![], None);
    assert!(matches!(r, Err(ConstructMemError::PathAlreadyExists(_))));
    assert_eq!(db.get_current_path().unwrap(), vec!["k"]);
    let r = db.add_info_node("L".to_string(), "N".to_string(), vec![], None);
    assert!(matches!(r, Err(ConstructMemError::PathAlreadyExists(_))));
    assert!(db.path_exists_in_working_kb("k.L.N"));
}

#[test]
fn construct_errors() {
    let mut db = ConstructMemDB::default();
    assert!(matches!(db.add_header_node("a".to_string(), "b".to_string(), vec![], None), Err(ConstructMemError::NoWorkingKB)));
    assert!(matches!(db.leave_header_node("a".to_string(), "b".to_string()), Err(ConstructMemError::NoWorkingKB)));
    assert!(matches!(db.select_kb("k".to_string()), Err(ConstructMemError::KBNotFound(_))));
    assert!(db.add_kb("k".to_string(), "d".to_string()).is_ok());
    assert!(matches!(db.add_kb("k".to_string(), "d".to_string()), Err(ConstructMemError::KBAlreadyExists(_))));
    assert!(db.select_kb("k".to_string()).is_ok());
    let r = db.add_header_node("bad-link".to_string(), "b".to_string(), vec![], None);
    assert!(matches!(r, Err(ConstructMemError::Basic(KbError::InvalidPath(_)))));
    assert_eq!(db.get_current_path().unwrap(), vec!["k"]);
    assert!(matches!(db.remove_kb("zz"), Err(ConstructMemError::KBNotFound(_))));
}

#[test]
fn node_value_holds_members_and_description() {
    let mut db = ConstructMemDB::default();
    assert!(db.add_kb("k".to_string(), "d".to_string()).is_ok());
    assert!(db.select_kb("k".to_string()).is_ok());
    let members = vec![
        ("a".to_string(), "1".to_string()),
        ("description".to_string(), "\"old\"".to_string()),
    ];
    assert!(db.add_info_node("L".to_string(), "N".to_string(), members, Some("say \"hi\"".to_string())).is_ok());
    let stored = db.basic_db().get("k.L.N").unwrap().unwrap();
    assert_eq!(stored, r#"{"a":1,"description":"say \"hi\""}"#);
    let v: serde_json::Value = serde_json::from_str(&stored).unwrap();
    assert_eq!(v["description"], serde_json::Value::String("say \"hi\"".to_string()));
    assert_eq!(db.get_current_path_string(), "k");
}

#[test]
fn remove_kb_deletes_its_entries() {
    let mut db = kb_with_scope();
    assert!(db.add_kb("k2".to_string(), "d".to_string()).is_ok());
    assert!(db.remove_kb("k").is_ok());
    assert!(db.get_working_kb().is_none());
    assert_eq!(db.get_all_kb_names(), vec!["k2"]);
    assert_eq!(db.basic_db().size(), 0);
}

fn two_kbs() -> SearchMemDB {
    let mut db = SearchMemDB::default();
    let rows = [
        ("kbA.s1.i1", r#"{"category":"A","n":1}"#),
        ("kbA.s2.i2", r#"{"category":"B"}"#),
        ("kbB.s1.i3", r#"{"category": "A"}"#),
        ("kbB.s1.i4", r#"[1]"#),
    ];
    for (p, d) in rows {
        assert!(db.add_data(p.to_string(), d.to_string(), None, None).is_ok());
    }
    db
}

#[test]
fn search_kb_is_exact_and_chains_shrink() {
    let mut db = two_kbs();
    assert_eq!(db.search_kb("kbA").keys(), vec!["kbA.s1.i1", "kbA.s2.i2"]);
    db.clear_filters();
    let mut counts = vec![db.get_filter_results().len()];
    counts.push(db.search_kb("kbA").len());
    counts.push(db.search_label("s1").len());
    counts.push(db.search_property_value("category", " \"A\" ").len());
    assert_eq!(counts, vec![4, 2, 1, 1]);
    assert!(counts.windows(2).all(|w| w[1] <= w[0]));
}

#[test]
fn search_path_and_starting_path() {
    let mut db = two_kbs();
    assert_eq!(db.search_path("~", "kbB.*.*").keys(), vec!["kbB.s1.i3", "kbB.s1.i4"]);
    db.clear_filters();
    assert_eq!(db.search_starting_path("kbA.s1.i1").unwrap().keys(), vec!["kbA.s1.i1"]);
    db.clear_filters();
    assert_eq!(db.search_starting_path("kbA").unwrap().len(), 0);
    db.clear_filters();
    assert_eq!(db.search_property_key("n").keys(), vec!["kbA.s1.i1"]);
}

#[test]
fn search_errors_and_descriptions() {
    let mut db = two_kbs();
    assert!(matches!(db.add_data("bad path".to_string(), "{}".to_string(), None, None), Err(SearchMemError::Basic(_))));
    assert!(db.add_data("kbA.s3.i5".to_string(), r#"{"description":"x\ny"}"#.to_string(), None, None).is_ok());
    let ds = db.find_descriptions();
    assert_eq!(ds.len(), 5);
    assert_eq!(ds[2], ("kbA.s3.i5".to_string(), "x\ny".to_string()));
    assert_eq!(ds[0].1, "");
    assert_eq!(db.get_kbs().get("kbB"), Some(vec!["kbB.s1.i3".to_string(), "kbB.s1.i4".to_string()]));
    assert_eq!(db.get_decoded_keys().len(), 5);
}

#[test]
fn links_and_mounts_record_the_current_path() {
    let mut db = ConstructMemDB::default();
    assert!(matches!(db.add_link_node("l0"), Err(ConstructMemError::NoWorkingKB)));
    assert!(db.add_kb("k".to_string(), "d".to_string()).is_ok());
    assert!(db.select_kb("k".to_string()).is_ok());
    assert!(db.add_header_node("L".to_string(), "N".to_string(), vec![], None).is_ok());
    assert!(db.add_link_node("link1").is_ok());
    assert!(db.add_link_mount("mount1", Some("a mount")).is_ok());
    assert!(db.add_link_mount("mount2", None).is_ok());
    assert_eq!(db.get_links(), &vec![("k".to_string(), "k.L.N".to_string(), "link1".to_string())]);
    assert_eq!(db.get_link_mounts()[0].3, "a mount");
    assert_eq!(db.get_link_mounts()[1].3, "");
    assert_eq!(db.get_current_path().unwrap(), vec!["k", "L", "N"]);
}

#[test]
fn import_rows_and_sync_directions() {
    assert_eq!(sync_directions("import"), (true, false));
    assert_eq!(sync_directions("export"), (false, true));
    assert_eq!(sync_directions("both"), (true, true));
    assert_eq!(sync_directions("none"), (false, false));

    let rows = vec![
        QueryResult { path: "a.b".to_string(), data: "1".to_string(), created_at: None, updated_at: None },
        QueryResult { path: "bad path".to_string(), data: "2".to_string(), created_at: None, updated_at: None },
        QueryResult { path: "a.b".to_string(), data: "3".to_string(), created_at: None, updated_at: None },
    ];
    let mut db = new_db();
    assert_eq!(db.import_rows(&rows), 2);
    assert_eq!(db.get("a.b").unwrap(), Some("3".to_string()));
    assert_eq!(db.size(), 1);

    let mut s = SearchMemDB::default();
    let rows = vec![QueryResult { path: "k.l.n".to_string(), data: "{}".to_string(), created_at: None, updated_at: None }];
    assert_eq!(s.import_rows(&rows), 1);
    assert!(s.get_names().contains_key("n"));
    assert_eq!(s.get_filter_result_keys(), vec!["k.l.n"]);
}

#[test]
fn error_messages() {
    assert_eq!(KbError::InvalidPath("a-b".to_string()).message(), "Invalid ltree path: a-b");
    assert_eq!(KbError::PathNotFound("x".to_string()).message(), "Path x does not exist");
    assert_eq!(
        ConstructMemError::Basic(KbError::KnowledgeBaseExists("k".to_string())).message(),
        "Basic DB error: Knowledge base k already exists"
    );
    assert_eq!(ConstructMemError::NoWorkingKB.message(), "No working knowledge base selected");
    assert_eq!(SearchMemError::QueryFailed("q".to_string()).message(), "Error querying: q");
}

#[test]
fn readding_a_removed_kb_succeeds() {
    let mut db = kb_with_scope();
    assert!(db.remove_kb("k").is_ok());
    assert!(db.add_kb("k".to_string(), "again".to_string()).is_ok());
    assert!(db.select_kb("k".to_string()).is_ok());
    assert_eq!(db.get_current_path().unwrap(), vec!["k"]);
    assert!(db.add_header_node("L".to_string(), "N".to_string(), vec![], None).is_ok());
}

#[test]
fn node_data_must_be_json() {
    let mut db = ConstructMemDB::default();
    assert!(db.add_kb("k".to_string(), "d".to_string()).is_ok());
    assert!(db.select_kb("k".to_string()).is_ok());
    let bad = vec![("a".to_string(), "not json".to_string())];
    let r = db.add_header_node("L".to_string(), "N".to_string(), bad, None);
    assert!(matches!(r, Err(ConstructMemError::InvalidNodeData)));
    assert_eq!(db.get_current_path().unwrap(), vec!["k"]);
    let members = vec![("b".to_string(), "2".to_string()), ("a".to_string(), "1".to_string()), ("b".to_string(), "3".to_string())];
    assert!(db.add_info_node("L".to_string(), "N".to_string(), members, None).is_ok());
    assert_eq!(db.basic_db().get("k.L.N").unwrap().unwrap(), r#"{"a":1,"b":3}"#);
}

#[test]
fn error_payloads_carry_the_input() {
    let mut db = new_db();
    match db.store("a-b", "{}".to_string(), None, None) {
        Err(KbError::InvalidPath(p)) => assert_eq!(p, "a-b"),
        _ => panic!("expected an invalid path"),
    }
    match db.query_subtree("x..y") {
        Err(KbError::InvalidPath(p)) => assert_eq!(p, "x..y"),
        _ => panic!("expected an invalid path"),
    }
    let mut c = ConstructMemDB::default();
    assert!(c.add_kb("k".to_string(), "d".to_string()).is_ok());
    match c.add_kb("k".to_string(), "d".to_string()) {
        Err(ConstructMemError::KBAlreadyExists(n)) => assert_eq!(n, "k"),
        _ => panic!("expected a duplicate"),
    }
    match c.remove_kb("zz") {
        Err(ConstructMemError::KBNotFound(n)) => assert_eq!(n, "zz"),
        _ => panic!("expected a missing knowledge base"),
    }
    let mut s = SearchMemDB::default();
    match s.add_data("9x".to_string(), "1".to_string(), None, None) {
        Err(SearchMemError::Basic(KbError::InvalidPath(p))) => assert_eq!(p, "9x"),
        _ => panic!("expected an invalid path"),
    }
}

#[test]
fn wildcards_inside_alternatives_and_depth_sum() {
    let db = family();
    assert_eq!(db.convert_ltree_query_to_regex("root.{a,*}"), r"^root\.(a|[^.]+)$");
    assert_eq!(db.convert_ltree_query_to_regex("root.{a,**}"), r"^root\.(a|.*)$");
    assert_eq!(paths_of(&db.query("root.{x,*}")), vec!["root.child1", "root.child2"]);
    let stats = db.get_stats();
    assert_eq!(stats.depth_sum, 1 + 2 + 2 + 3);
    assert!(db.ltxtquery_match("root.child1", "\u{3000}child1\t"));
}
