use project_tree::conflict::{is_taken, resolve_destination};

fn names(v: &[&str]) -> Vec<String> {
    v.iter().map(|s| s.to_string()).collect()
}

#[test]
fn first_conflict_gets_one() {
    assert_eq!(resolve_destination("a.txt", &names(&["a.txt"])), "a (1).txt");
}

#[test]
fn second_conflict_gets_two() {
    assert_eq!(
        resolve_destination("a.txt", &names(&["a.txt", "a (1).txt"])),
        "a (2).txt"
    );
}

#[test]
fn free_name_is_kept() {
    assert_eq!(resolve_destination("a.txt", &names(&["b.txt"])), "a.txt");
    assert_eq!(resolve_destination("a.txt", &Vec::new()), "a.txt");
}

#[test]
fn gap_is_filled_first() {
    assert_eq!(
        resolve_destination("a.txt", &names(&["a.txt", "a (2).txt"])),
        "a (1).txt"
    );
}

#[test]
fn folder_without_extension() {
    assert_eq!(resolve_destination("photos", &names(&["photos"])), "photos (1)");
}

#[test]
fn multi_dot_and_empty_extension() {
    assert_eq!(
        resolve_destination("b.tar.gz", &names(&["b.tar.gz"])),
        "b.tar (1).gz"
    );
    assert_eq!(resolve_destination("c.", &names(&["c."])), "c (1)");
    assert_eq!(resolve_destination(".env", &names(&[".env"])), ".env (1)");
}

#[test]
fn many_conflicts_reach_two_digits() {
    let mut existing = names(&["r.md"]);
    for n in 1..=11 {
        existing.push(format!("r ({}).md", n));
    }
    assert_eq!(resolve_destination("r.md", &existing), "r (12).md");
}

#[test]
fn taken_check() {
    let existing = names(&["x", "y"]);
    assert!(is_taken(&existing, &"y".to_string()));
    assert!(!is_taken(&existing, &"z".to_string()));
}
