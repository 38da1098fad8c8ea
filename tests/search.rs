use workspace_store::error::StoreError;
use workspace_store::search::{
    classify, match_folded, prepare_query, search_files, FileEntry, MatchKind, MAX_CONTENT_BYTES,
};

fn file(path: &str, content: &str) -> FileEntry {
    FileEntry { path: path.to_string(), size: content.len() as u64, content: Some(content.to_string()) }
}

#[test]
fn empty_query_is_a_bad_request() {
    assert_eq!(prepare_query(""), Err(StoreError::BadRequest));
}

#[test]
fn query_is_folded() {
    assert_eq!(prepare_query("FoO").unwrap(), "foo");
}

#[test]
fn name_content_and_both() {
    let needle = prepare_query("foo").unwrap();
    let files = vec![
        file("FOO.txt", ""),
        file("bar.txt", "...foo..."),
        file("foo.md", "foo again"),
        file("other.txt", "nothing here"),
    ];
    let hits = search_files(&needle, &files);
    let got: Vec<(String, MatchKind)> = hits.iter().map(|h| (h.path.clone(), h.matched)).collect();
    assert_eq!(
        got,
        vec![
            ("FOO.txt".to_string(), MatchKind::Name),
            ("bar.txt".to_string(), MatchKind::Content),
            ("foo.md".to_string(), MatchKind::Name),
        ]
    );
    assert_eq!(hits[0].matched.label(), "name");
    assert_eq!(hits[1].matched.label(), "content");
}

#[test]
fn content_match_ignores_case() {
    let needle = prepare_query("Foo").unwrap();
    assert_eq!(classify(&needle, &file("x.txt", "A FOO B")), Some(MatchKind::Content));
}

#[test]
fn large_files_are_not_searched_by_content() {
    let needle = prepare_query("foo").unwrap();
    let big = FileEntry { path: "big.txt".to_string(), size: MAX_CONTENT_BYTES + 1, content: Some("foo".to_string()) };
    assert_eq!(classify(&needle, &big), None);
    let edge = FileEntry { path: "edge.txt".to_string(), size: MAX_CONTENT_BYTES, content: Some("foo".to_string()) };
    assert_eq!(classify(&needle, &edge), Some(MatchKind::Content));
}

#[test]
fn unreadable_content_is_skipped() {
    let needle = prepare_query("foo").unwrap();
    let f = FileEntry { path: "bin.dat".to_string(), size: 3, content: None };
    assert_eq!(classify(&needle, &f), None);
}

#[test]
fn match_on_folded_text() {
    assert_eq!(match_folded("ab", "xaby", Some("ab")), Some(MatchKind::Name));
    assert_eq!(match_folded("ab", "xy", Some("cab")), Some(MatchKind::Content));
    assert_eq!(match_folded("ab", "xy", None), None);
    assert_eq!(match_folded("ab", "AB", Some("AB")), None);
}

#[test]
fn directories_in_the_path_do_not_make_a_name_hit() {
    let needle = prepare_query("foo").unwrap();
    assert_eq!(classify(&needle, &file("foo/bar.txt", "")), None);
    assert_eq!(classify(&needle, &file("foo/bar.txt", "has FOO")), Some(MatchKind::Content));
    assert_eq!(classify(&needle, &file("x/y/Foo.md", "")), Some(MatchKind::Name));
}
