use std::io::Write;

use base64::Engine;
use workspace_store::archive::{entry_action, plan_entries, plan_import, ArchiveEntry, ExtractAction};
use workspace_store::error::StoreError;
use workspace_store::workspace::{removal_for, Removal};

fn zip_of(entries: &[(&str, &[u8])]) -> String {
    let mut w = zip::ZipWriter::new(std::io::Cursor::new(Vec::new()));
    for (name, data) in entries {
        if name.ends_with('/') {
            w.add_directory(*name, zip::write::FileOptions::default()).unwrap();
        } else {
            w.start_file(*name, zip::write::FileOptions::default()).unwrap();
            w.write_all(data).unwrap();
        }
    }
    let bytes = w.finish().unwrap().into_inner();
    base64::engine::general_purpose::STANDARD.encode(bytes)
}

fn entry(name: &str, data: &[u8]) -> ArchiveEntry {
    ArchiveEntry { name: name.to_string(), data: data.to_vec() }
}

#[test]
fn import_extracts_every_entry() {
    let payload = zip_of(&[("a.txt", b"alpha"), ("dir/b.txt", b"\x00beta\xff")]);
    let actions = plan_import("./decisions/7", &payload).unwrap();
    assert_eq!(actions.len(), 2);
    match &actions[0] {
        ExtractAction::WriteFile { path, data } => {
            assert_eq!(path, "./decisions/7/a.txt");
            assert_eq!(data, b"alpha");
        }
        other => panic!("unexpected {other:?}"),
    }
    match &actions[1] {
        ExtractAction::WriteFile { path, data } => {
            assert_eq!(path, "./decisions/7/dir/b.txt");
            assert_eq!(data, b"\x00beta\xff");
        }
        other => panic!("unexpected {other:?}"),
    }
}

#[test]
fn import_creates_directory_entries() {
    let payload = zip_of(&[("sub/", b""), ("sub/c.json", b"{}")]);
    let actions = plan_import("d", &payload).unwrap();
    match &actions[0] {
        ExtractAction::CreateDir { path } => assert_eq!(path, "d/sub"),
        other => panic!("unexpected {other:?}"),
    }
}

#[test]
fn import_rejects_bad_base64() {
    assert_eq!(plan_import("d", "not base64!").unwrap_err(), StoreError::Internal);
}

#[test]
fn import_rejects_bytes_that_are_no_archive() {
    let payload = base64::engine::general_purpose::STANDARD.encode(b"hello");
    assert_eq!(plan_import("d", &payload).unwrap_err(), StoreError::Internal);
}

#[test]
fn import_rejects_escaping_entries() {
    let payload = zip_of(&[("ok.txt", b"1"), ("../evil.txt", b"2")]);
    assert_eq!(plan_import("d", &payload).unwrap_err(), StoreError::Internal);
}

#[test]
fn entry_actions() {
    match entry_action("d", &entry("x/y.txt", b"z")).unwrap() {
        ExtractAction::WriteFile { path, data } => {
            assert_eq!(path, "d/x/y.txt");
            assert_eq!(data, b"z");
        }
        other => panic!("unexpected {other:?}"),
    }
    match entry_action("d", &entry("x\\", b"")).unwrap() {
        ExtractAction::CreateDir { path } => assert_eq!(path, "d/x\\"),
        other => panic!("unexpected {other:?}"),
    }
    assert_eq!(entry_action("d", &entry("/etc/passwd", b"")).unwrap_err(), StoreError::PathEscape);
}

#[test]
fn plan_refuses_whole_archive_on_escape() {
    let entries = vec![entry("a", b"1"), entry("b/../../c", b"2")];
    assert_eq!(plan_entries("d", &entries).unwrap_err(), StoreError::PathEscape);
    let entries = vec![entry("a", b"1"), entry("b/c", b"2")];
    assert_eq!(plan_entries("d", &entries).unwrap().len(), 2);
}

#[test]
fn delete_decisions() {
    assert_eq!(removal_for(false, false), Err(StoreError::NotFound));
    assert_eq!(removal_for(false, true), Err(StoreError::NotFound));
    assert_eq!(removal_for(true, true), Ok(Removal::Tree));
    assert_eq!(removal_for(true, false), Ok(Removal::Entry));
}
