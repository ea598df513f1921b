use std::collections::HashMap;

use project_tree::reconcile::{
    ids_needed_for_rebuild, ids_needed_for_sync, rebuild_project, sync_project, ReconcileError,
};
use project_tree::scan::{RawEntry, Scan, ScanEntry};
use project_tree::types::{Node, Project, ProjectData};

fn raw_dir(name: &str) -> RawEntry {
    RawEntry { name: name.to_string(), is_dir: true, is_file: false, size: 0, modified: 0 }
}

fn raw_file(name: &str, size: u64) -> RawEntry {
    RawEntry { name: name.to_string(), is_dir: false, is_file: true, size, modified: 1_700_000_000 }
}

/// Walks an in-memory directory tree, keyed by relative directory path.
fn walk(tree: &HashMap<String, Vec<RawEntry>>) -> Vec<ScanEntry> {
    let mut scan = Scan::new();
    while let Some(dir) = scan.next_dir() {
        let listing = tree.get(&dir).cloned().unwrap_or_default();
        scan.add_listing(&listing);
    }
    scan.entries
}

fn root_node(id: &str, project: &str) -> Node {
    Node {
        id: id.to_string(),
        name: "__PROJECT_ROOT__".to_string(),
        node_type: "folder".to_string(),
        extension: None,
        parent_id: None,
        project_id: project.to_string(),
        hidden: Some(true),
        file_path: None,
        size: None,
        modified: None,
        is_binary: None,
    }
}

fn tracked_node(id: &str, project: &str, path: &str) -> Node {
    Node {
        id: id.to_string(),
        name: path.rsplit('/').next().unwrap().to_string(),
        node_type: "file".to_string(),
        extension: None,
        parent_id: Some("root".to_string()),
        project_id: project.to_string(),
        hidden: Some(false),
        file_path: Some(path.to_string()),
        size: None,
        modified: None,
        is_binary: None,
    }
}

fn dataset(nodes: Vec<Node>) -> ProjectData {
    ProjectData {
        projects: vec![Project {
            id: "alpha".to_string(),
            name: "Project".to_string(),
            root_id: Some("root".to_string()),
            client_id: None,
        }],
        nodes,
        clients: Vec::new(),
    }
}

fn fresh_ids(tag: &str, n: usize) -> Vec<String> {
    (0..n).map(|i| format!("{}-{}", tag, i)).collect()
}

/// Syncs with identifiers that no stored node carries.
fn sync(data: &mut ProjectData, pid: &str, found: &[ScanEntry]) -> Result<Vec<Node>, ReconcileError> {
    let found = found.to_vec();
    let ids = fresh_ids(&format!("s{}", data.nodes.len()), found.len());
    sync_project(data, pid, &found, &ids)
}

fn rebuild(data: &mut ProjectData, pid: &str, found: &[ScanEntry]) -> Result<Vec<Node>, ReconcileError> {
    let found = found.to_vec();
    let ids = fresh_ids("r", found.len());
    rebuild_project(data, pid, &found, &ids)
}

fn notes_tree() -> HashMap<String, Vec<RawEntry>> {
    let mut tree = HashMap::new();
    tree.insert(String::new(), vec![raw_dir("notes")]);
    tree.insert("notes".to_string(), vec![raw_file("todo.md", 12)]);
    tree
}

#[test]
fn empty_directory_syncs_nothing_then_picks_up_notes() {
    let mut data = dataset(vec![root_node("root", "alpha")]);
    let empty: HashMap<String, Vec<RawEntry>> = HashMap::new();
    let first = sync(&mut data, "alpha", &walk(&empty)).unwrap();
    assert!(first.is_empty());
    assert_eq!(data.nodes.len(), 1);

    let second = sync(&mut data, "alpha", &walk(&notes_tree())).unwrap();
    assert_eq!(second.len(), 2);
    let folder = &second[0];
    let file = &second[1];
    assert_eq!(folder.name, "notes");
    assert_eq!(folder.node_type, "folder");
    assert_eq!(folder.file_path.as_deref(), Some("notes"));
    assert_eq!(folder.parent_id.as_deref(), Some("root"));
    assert_eq!(folder.size, None);
    assert_eq!(file.name, "todo.md");
    assert_eq!(file.node_type, "file");
    assert_eq!(file.file_path.as_deref(), Some("notes/todo.md"));
    assert_eq!(file.parent_id.as_deref(), Some(folder.id.as_str()));
    assert_eq!(file.extension.as_deref(), Some("md"));
    assert_eq!(file.size, Some(12));
    assert_eq!(file.modified, Some(1_700_000_000));
    assert_eq!(file.is_binary, Some(false));
    assert_eq!(file.hidden, Some(false));
    assert_eq!(file.project_id, "alpha");
    assert_eq!(folder.id, "s1-0");
    assert_eq!(file.id, "s1-1");
    assert_eq!(data.nodes.len(), 3);
}

#[test]
fn second_sync_on_unchanged_directory_adds_nothing() {
    let mut data = dataset(vec![root_node("root", "alpha")]);
    let found = walk(&notes_tree());
    assert_eq!(sync(&mut data, "alpha", &found).unwrap().len(), 2);
    assert!(sync(&mut data, "alpha", &found).unwrap().is_empty());
    assert_eq!(data.nodes.len(), 3);
}

#[test]
fn interleaved_syncs_never_duplicate_paths() {
    let mut data = dataset(vec![root_node("root", "alpha")]);
    let mut tree = notes_tree();
    sync(&mut data, "alpha", &walk(&tree)).unwrap();
    tree.get_mut("notes").unwrap().push(raw_file("idea.txt", 3));
    tree.get_mut("").unwrap().push(raw_file("photo.PNG", 99));
    let added = sync(&mut data, "alpha", &walk(&tree)).unwrap();
    assert_eq!(added.len(), 2);
    let idea = added.iter().find(|n| n.name == "idea.txt").unwrap();
    let notes = data.nodes.iter().find(|n| n.name == "notes").unwrap();
    assert_eq!(idea.parent_id.as_deref(), Some(notes.id.as_str()));
    let photo = added.iter().find(|n| n.name == "photo.PNG").unwrap();
    assert_eq!(photo.is_binary, Some(true));
    assert_eq!(photo.extension.as_deref(), Some("png"));
    sync(&mut data, "alpha", &walk(&tree)).unwrap();
    let mut paths: Vec<&str> =
        data.nodes.iter().filter_map(|n| n.file_path.as_deref()).collect();
    let before = paths.len();
    paths.sort();
    paths.dedup();
    assert_eq!(paths.len(), before);
    assert_eq!(before, 4);
}

#[test]
fn backslash_paths_count_as_tracked() {
    let mut data = dataset(vec![
        root_node("root", "alpha"),
        tracked_node("n1", "alpha", "notes"),
        tracked_node("n2", "alpha", "notes\\todo.md"),
    ]);
    let added = sync(&mut data, "alpha", &walk(&notes_tree())).unwrap();
    assert!(added.is_empty());
}

#[test]
fn other_projects_paths_do_not_count() {
    let mut data = dataset(vec![
        root_node("root", "alpha"),
        root_node("root2", "beta"),
        tracked_node("n1", "beta", "notes"),
    ]);
    let added = sync(&mut data, "alpha", &walk(&notes_tree())).unwrap();
    assert_eq!(added.len(), 2);
    assert_eq!(added[0].parent_id.as_deref(), Some("root"));
}

#[test]
fn hidden_and_reserved_entries_are_skipped() {
    let mut tree = HashMap::new();
    tree.insert(
        String::new(),
        vec![raw_dir(".git"), raw_dir("__pycache__"), raw_file(".env", 1), raw_file("main.py", 5)],
    );
    tree.insert(".git".to_string(), vec![raw_file("HEAD", 1)]);
    let found = walk(&tree);
    assert_eq!(found.len(), 1);
    assert_eq!(found[0].relative_path, "main.py");
    assert_eq!(found[0].parent_path, "");
}

#[test]
fn entries_neither_file_nor_directory_are_skipped() {
    let mut tree = HashMap::new();
    let odd = RawEntry { name: "dangling".to_string(), is_dir: false, is_file: false, size: 0, modified: 0 };
    tree.insert(String::new(), vec![odd, raw_file("a.txt", 1)]);
    let found = walk(&tree);
    assert_eq!(found.len(), 1);
    assert_eq!(found[0].name, "a.txt");
}

#[test]
fn nested_paths_are_joined_with_slashes() {
    let mut tree = HashMap::new();
    tree.insert(String::new(), vec![raw_dir("a")]);
    tree.insert("a".to_string(), vec![raw_dir("b")]);
    tree.insert("a/b".to_string(), vec![raw_file("c.CSV", 7)]);
    let found = walk(&tree);
    let paths: Vec<&str> = found.iter().map(|e| e.relative_path.as_str()).collect();
    assert_eq!(paths, vec!["a", "a/b", "a/b/c.CSV"]);
    assert_eq!(found[2].parent_path, "a/b");
    assert!(!found[2].is_binary);
}

#[test]
fn sync_without_root_fails() {
    let mut data = dataset(vec![tracked_node("n1", "alpha", "x.txt")]);
    let before = data.nodes.len();
    let r = sync(&mut data, "alpha", &walk(&notes_tree()));
    assert_eq!(r.unwrap_err(), ReconcileError::RootNotFound);
    assert_eq!(data.nodes.len(), before);
    assert_eq!(ReconcileError::RootNotFound.message(), "Project root not found");
}

#[test]
fn root_found_by_sentinel_name() {
    let mut root = root_node("r9", "alpha");
    root.hidden = None;
    let mut data = dataset(vec![root]);
    let added = sync(&mut data, "alpha", &walk(&notes_tree())).unwrap();
    assert_eq!(added[0].parent_id.as_deref(), Some("r9"));
}

#[test]
fn rebuild_mirrors_disk() {
    let mut data = dataset(vec![
        root_node("root", "alpha"),
        tracked_node("stale", "alpha", "gone.txt"),
        tracked_node("keep", "beta", "other.txt"),
    ]);
    let found = walk(&notes_tree());
    let new = rebuild(&mut data, "alpha", &found).unwrap();
    assert_eq!(new.len(), 2);
    assert!(data.nodes.iter().all(|n| n.id != "stale"));
    assert!(data.nodes.iter().any(|n| n.id == "keep"));
    assert!(data.nodes.iter().any(|n| n.id == "root"));
    let mut mine: Vec<&str> = data
        .nodes
        .iter()
        .filter(|n| n.project_id == "alpha" && n.hidden != Some(true))
        .filter_map(|n| n.file_path.as_deref())
        .collect();
    mine.sort();
    assert_eq!(mine, vec!["notes", "notes/todo.md"]);
    assert_eq!(new[1].parent_id.as_deref(), Some(new[0].id.as_str()));
}

#[test]
fn rebuild_without_root_fails() {
    let mut data = dataset(vec![tracked_node("n1", "alpha", "x.txt")]);
    let r = rebuild(&mut data, "alpha", &walk(&notes_tree()));
    assert_eq!(r.unwrap_err(), ReconcileError::RootNotFound);
    assert_eq!(data.nodes.len(), 1);
}

#[test]
fn empty_dataset_has_no_records() {
    let d = ProjectData::empty();
    assert!(d.projects.is_empty() && d.nodes.is_empty() && d.clients.is_empty());
}

#[test]
fn ids_needed_counts_new_nodes() {
    let mut data = dataset(vec![root_node("root", "alpha")]);
    let found = walk(&notes_tree());
    assert_eq!(ids_needed_for_sync(&data, "alpha", &found), Ok(2));
    assert_eq!(ids_needed_for_rebuild(&data, "alpha", &found), Ok(2));
    sync(&mut data, "alpha", &found).unwrap();
    assert_eq!(ids_needed_for_sync(&data, "alpha", &found), Ok(0));
    assert_eq!(ids_needed_for_rebuild(&data, "alpha", &found), Ok(2));
    assert_eq!(ids_needed_for_sync(&data, "beta", &found), Err(ReconcileError::RootNotFound));
}

#[test]
fn too_few_ids_is_refused() {
    let mut data = dataset(vec![root_node("root", "alpha")]);
    let found = walk(&notes_tree());
    let r = sync_project(&mut data, "alpha", &found, &vec!["only".to_string()]);
    assert_eq!(r.unwrap_err(), ReconcileError::TooFewIds);
    assert_eq!(data.nodes.len(), 1);
    let r = rebuild_project(&mut data, "alpha", &found, &Vec::new());
    assert_eq!(r.unwrap_err(), ReconcileError::TooFewIds);
    assert_eq!(ReconcileError::TooFewIds.message(), "Not enough node identifiers");
}

#[test]
fn taken_or_repeated_ids_are_refused() {
    let mut data = dataset(vec![root_node("root", "alpha")]);
    let found = walk(&notes_tree());
    let taken = vec!["x".to_string(), "root".to_string()];
    assert_eq!(sync_project(&mut data, "alpha", &found, &taken).unwrap_err(), ReconcileError::IdInUse);
    let repeated = vec!["x".to_string(), "x".to_string()];
    assert_eq!(rebuild_project(&mut data, "alpha", &found, &repeated).unwrap_err(), ReconcileError::IdInUse);
    assert_eq!(data.nodes.len(), 1);
    let extra = vec!["x".to_string(), "y".to_string(), "root".to_string()];
    assert_eq!(sync_project(&mut data, "alpha", &found, &extra).unwrap().len(), 2);
    assert_eq!(ReconcileError::IdInUse.message(), "Node identifier already in use");
}
