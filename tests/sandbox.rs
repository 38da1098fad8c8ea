use workspace_store::error::StoreError;
use workspace_store::sandbox::{join_under, resolve, resolve_under, split_segments};

fn parts(v: &[&str]) -> Vec<String> {
    v.iter().map(|s| s.to_string()).collect()
}

#[test]
fn split_keeps_empty_pieces() {
    assert_eq!(split_segments("a//b/"), parts(&["a", "", "b", ""]));
    assert_eq!(split_segments(""), parts(&[""]));
}

#[test]
fn resolve_drops_empty_and_current_components() {
    assert_eq!(resolve("./a//b/./c/").unwrap(), parts(&["a", "b", "c"]));
    assert_eq!(resolve("").unwrap(), Vec::<String>::new());
    assert_eq!(resolve(".").unwrap(), Vec::<String>::new());
}

#[test]
fn resolve_rejects_parent_components() {
    assert_eq!(resolve(".."), Err(StoreError::PathEscape));
    assert_eq!(resolve("a/../b"), Err(StoreError::PathEscape));
    assert_eq!(resolve("a/b/.."), Err(StoreError::PathEscape));
}

#[test]
fn resolve_rejects_absolute_paths() {
    assert_eq!(resolve("/etc/passwd"), Err(StoreError::PathEscape));
    assert_eq!(resolve("/"), Err(StoreError::PathEscape));
}

#[test]
fn resolve_keeps_dotted_names() {
    assert_eq!(resolve("...").unwrap(), parts(&["..."]));
    assert_eq!(resolve("..a/.b").unwrap(), parts(&["..a", ".b"]));
}

#[test]
fn join_places_parts_below_base() {
    assert_eq!(join_under("root", &parts(&["a", "b.txt"])), "root/a/b.txt");
    assert_eq!(join_under("root", &Vec::new()), "root");
}

#[test]
fn resolve_under_root() {
    assert_eq!(resolve_under("./decisions/3", "dir/./x.json").unwrap(), "./decisions/3/dir/x.json");
    assert_eq!(resolve_under("./decisions/3", "../4/x"), Err(StoreError::PathEscape));
}

#[test]
fn escaping_inputs_never_resolve() {
    for p in ["../x", "a/../../x", "/abs", "x/..", "./../y"] {
        assert_eq!(resolve_under("root", p), Err(StoreError::PathEscape));
    }
    for p in ["x", "a/b", "a/./b", "./c"] {
        let r = resolve_under("root", p).unwrap();
        assert!(r.starts_with("root/"));
        assert!(!r.split('/').any(|c| c == ".."));
    }
}
