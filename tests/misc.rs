use project_tree::import::imported_entry;
use project_tree::maintenance::{backup_file_name, safe_file_operation};
use project_tree::text::{decimal_string, join_with_slash, normalize_separators, starts_with, str_eq};
use project_tree::web::{method_from_upper, parse_http_method, request_timeout, HttpMethod, HttpRequest};

#[test]
fn imported_file_record() {
    let r = imported_file_for("Scan.PDF");
    assert_eq!(r.name, "Scan.PDF");
    assert_eq!(r.node_type, "file");
    assert_eq!(r.extension.as_deref(), Some("pdf"));
    assert!(r.is_binary);
    assert_eq!(r.size, 42);
    assert_eq!(r.file_path.as_deref(), Some("Scan.PDF"));
    assert_eq!(r.node_id, "id-7");
}

fn imported_file_for(name: &str) -> project_tree::types::ImportResult {
    imported_entry("id-7".to_string(), name, false, 42)
}

#[test]
fn imported_folder_record() {
    let r = imported_entry("f".to_string(), "photos (1)", true, 1000);
    assert_eq!(r.node_type, "folder");
    assert_eq!(r.extension, None);
    assert!(!r.is_binary);
    assert_eq!(r.size, 1000);
}

#[test]
fn failures_are_prefixed() {
    let ok: Result<u32, String> = Ok(7);
    assert_eq!(safe_file_operation(ok, "Failed to read"), Ok(7));
    let bad: Result<u32, String> = Err("denied".to_string());
    assert_eq!(safe_file_operation(bad, "Failed to read"), Err("Failed to read: denied".to_string()));
}

#[test]
fn backup_names() {
    assert_eq!(
        backup_file_name("projects_backup", "20240102_030405"),
        "projects_backup_20240102_030405.json"
    );
}

#[test]
fn http_methods() {
    assert_eq!(parse_http_method("get"), Ok(HttpMethod::Get));
    assert_eq!(parse_http_method("Delete"), Ok(HttpMethod::Delete));
    assert_eq!(parse_http_method("PATCH"), Err("Unsupported HTTP method".to_string()));
    assert_eq!(method_from_upper("post"), None);
    assert_eq!(method_from_upper("PUT"), Some(HttpMethod::Put));
}

#[test]
fn timeouts_default_to_thirty() {
    let mut req = HttpRequest {
        url: "http://example.com".to_string(),
        method: "GET".to_string(),
        headers: None,
        body: None,
        timeout_seconds: None,
    };
    assert_eq!(request_timeout(&req), 30);
    req.timeout_seconds = Some(5);
    assert_eq!(request_timeout(&req), 5);
}

#[test]
fn text_helpers() {
    assert_eq!(decimal_string(0), "0");
    assert_eq!(decimal_string(1907), "1907");
    assert_eq!(normalize_separators("a\\b\\c.txt"), "a/b/c.txt");
    assert_eq!(join_with_slash(&vec!["x".to_string(), "y".to_string()]), "x/y");
    assert_eq!(join_with_slash(&Vec::new()), "");
    assert!(starts_with("__init__.py", "__"));
    assert!(!starts_with("_", "__"));
    assert!(str_eq("ä", "ä") && !str_eq("a", "ab"));
}
