use project_tree::path::{
    escapes_project, find_node, is_top_reference, resolve_file_path, resolve_path,
};
use project_tree::types::Node;

fn node(id: &str, name: &str, parent: Option<&str>, hidden: bool) -> Node {
    Node {
        id: id.to_string(),
        name: name.to_string(),
        node_type: "folder".to_string(),
        extension: None,
        parent_id: parent.map(|p| p.to_string()),
        project_id: "p".to_string(),
        hidden: Some(hidden),
        file_path: None,
        size: None,
        modified: None,
        is_binary: None,
    }
}

fn forest() -> Vec<Node> {
    vec![
        node("root", "__PROJECT_ROOT__", None, true),
        node("a", "src", Some("root"), false),
        node("b", "lib", Some("a"), false),
        node("c", "main.rs", Some("b"), false),
    ]
}

#[test]
fn path_follows_ancestors() {
    assert_eq!(resolve_path(&forest(), "b", "new.rs"), "src/lib/new.rs");
    assert_eq!(resolve_path(&forest(), "root", "top.txt"), "top.txt");
    assert_eq!(resolve_path(&forest(), "", "top.txt"), "top.txt");
    assert_eq!(resolve_path(&forest(), "__PROJECT_ROOT__", "top.txt"), "top.txt");
}

#[test]
fn missing_parent_truncates_path() {
    let mut nodes = forest();
    nodes[1].parent_id = Some("nowhere".to_string());
    assert_eq!(resolve_path(&nodes, "b", "x"), "src/lib/x");
    assert_eq!(resolve_path(&nodes, "ghost", "x"), "x");
}

#[test]
fn cycle_stops_at_revisit() {
    let nodes = vec![node("a", "one", Some("b"), false), node("b", "two", Some("a"), false)];
    assert_eq!(resolve_path(&nodes, "a", "leaf"), "two/one/leaf");
    let selfloop = vec![node("s", "me", Some("s"), false)];
    assert_eq!(resolve_path(&selfloop, "s", "leaf"), "me/leaf");
}

#[test]
fn cycle_does_not_repeat_the_node() {
    let nodes = vec![node("a", "one", Some("b"), false), node("b", "two", Some("a"), false)];
    assert_eq!(resolve_file_path(&nodes, "a", ""), Ok("two/one".to_string()));
    let selfloop = vec![node("s", "me", Some("s"), false)];
    assert_eq!(resolve_file_path(&selfloop, "s", ""), Ok("me".to_string()));
}

#[test]
fn escaping_paths_are_refused() {
    let err = Err("Path escapes the project directory".to_string());
    assert_eq!(resolve_file_path(&forest(), "c", "/etc/x"), err);
    assert_eq!(resolve_file_path(&forest(), "c", "../x"), err);
    assert_eq!(resolve_file_path(&forest(), "c", "a/../b"), err);
    assert_eq!(resolve_file_path(&forest(), "c", "a\\..\\b"), err);
    assert_eq!(resolve_file_path(&forest(), "c", "C:\\x"), err);
    assert_eq!(resolve_file_path(&forest(), "c", "a/.."), err);
    assert_eq!(resolve_file_path(&forest(), "c", "a..b/..c"), Ok("a..b/..c".to_string()));
    let mut nodes = forest();
    nodes[2].name = "..".to_string();
    assert_eq!(resolve_file_path(&nodes, "c", ""), err);
    assert!(escapes_project("/abs"));
    assert!(!escapes_project("rel/x.txt"));
}

#[test]
fn file_path_given_is_used() {
    assert_eq!(resolve_file_path(&forest(), "c", "docs/readme.md"), Ok("docs/readme.md".to_string()));
}

#[test]
fn file_path_composed_from_node() {
    assert_eq!(resolve_file_path(&forest(), "c", ""), Ok("src/lib/main.rs".to_string()));
    assert_eq!(
        resolve_file_path(&forest(), "c", "__PROJECT_ROOT__"),
        Ok("src/lib/main.rs".to_string())
    );
}

#[test]
fn unknown_node_is_reported() {
    assert_eq!(resolve_file_path(&forest(), "zz", ""), Err("Node not found".to_string()));
}

#[test]
fn lookup_and_top_references() {
    assert_eq!(find_node(&forest(), "b"), Some(2));
    assert_eq!(find_node(&forest(), "q"), None);
    assert!(is_top_reference(""));
    assert!(!is_top_reference("root"));
}
