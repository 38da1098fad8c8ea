use workspace_store::text::{child_path, str_less};
use workspace_store::tree::{key_precedes, sort_nodes, Node};

fn node(name: &str, dir: bool) -> Node {
    Node {
        name: name.to_string(),
        path: name.to_string(),
        is_directory: dir,
        modified: 0,
        size: if dir { None } else { Some(0) },
        children: if dir { Some(Vec::new()) } else { None },
    }
}

fn names(v: &[Node]) -> Vec<String> {
    v.iter().map(|n| n.name.clone()).collect()
}

#[test]
fn listing_puts_directories_first_then_folded_names() {
    let out = sort_nodes(vec![node("b.txt", false), node("A", true), node("a.txt", false)]);
    assert_eq!(names(&out), vec!["A", "a.txt", "b.txt"]);
}

#[test]
fn listing_ignores_case() {
    let out = sort_nodes(vec![
        node("Zeta", false),
        node("alpha", false),
        node("Beta", false),
        node("src", true),
        node("Docs", true),
    ]);
    assert_eq!(names(&out), vec!["Docs", "src", "alpha", "Beta", "Zeta"]);
}

#[test]
fn listing_of_nothing_is_empty() {
    assert!(sort_nodes(Vec::new()).is_empty());
}

#[test]
fn folded_key_order() {
    assert!(key_precedes(true, "z", false, "a"));
    assert!(!key_precedes(false, "a", true, "z"));
    assert!(key_precedes(false, "a", false, "b"));
    assert!(key_precedes(false, "ab", false, "abc"));
    assert!(!key_precedes(false, "abc", false, "abc"));
}

#[test]
fn text_order_is_by_code_point() {
    assert!(str_less("B", "a"));
    assert!(str_less("", "a"));
    assert!(!str_less("b", "ab"));
}

#[test]
fn child_paths() {
    assert_eq!(child_path("", "a.txt"), "a.txt");
    assert_eq!(child_path("dir/sub", "a.txt"), "dir/sub/a.txt");
}
