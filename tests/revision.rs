use workspace_store::error::StoreError;
use workspace_store::revision::{
    decimal, parse_u64, plan_bump, revision_dir, revision_path, trim, RevisionStore,
};

#[test]
fn marker_is_read_tolerantly() {
    assert_eq!(RevisionStore::from_marker("7").head, 7);
    assert_eq!(RevisionStore::from_marker("  12\n").head, 12);
    assert_eq!(RevisionStore::from_marker("").head, 0);
    assert_eq!(RevisionStore::from_marker("garbage").head, 0);
    assert_eq!(RevisionStore::from_marker("-3").head, 0);
    assert_eq!(RevisionStore::from_marker("18446744073709551616").head, 0);
}

#[test]
fn parse_matches_std() {
    for t in ["0", "+5", "18446744073709551615", "18446744073709551616", "", "+", "1a", " 1", "007"] {
        assert_eq!(parse_u64(t), t.parse::<u64>().ok(), "{t}");
    }
}

#[test]
fn trim_matches_std() {
    for t in ["  a b \t", "\u{3000}x\u{a0}", "", "   ", "x"] {
        assert_eq!(trim(t), t.trim());
    }
}

#[test]
fn decimal_spelling() {
    assert_eq!(decimal(0), "0");
    assert_eq!(decimal(42), "42");
    assert_eq!(decimal(u64::MAX), "18446744073709551615");
}

#[test]
fn marker_round_trip() {
    for n in [0u64, 1, 9, 10, 999, u64::MAX] {
        let s = RevisionStore { head: n };
        assert_eq!(RevisionStore::from_marker(&s.marker()).head, n);
    }
}

#[test]
fn bumps_are_consecutive() {
    let mut s = RevisionStore::new();
    let ids: Vec<u64> = (0..5).map(|_| s.bump().unwrap()).collect();
    assert_eq!(ids, vec![1, 2, 3, 4, 5]);
    assert_eq!(s.latest(), 5);
}

#[test]
fn bump_at_the_last_id_fails() {
    let mut s = RevisionStore { head: u64::MAX };
    assert_eq!(s.bump(), Err(StoreError::Internal));
    assert_eq!(s.head, u64::MAX);
}

#[test]
fn list_is_dense() {
    assert_eq!(RevisionStore { head: 3 }.list(), vec![0, 1, 2, 3]);
    assert_eq!(RevisionStore::new().list(), vec![0]);
}

#[test]
fn bump_plan() {
    let p = plan_bump("./decisions", "4\n").unwrap();
    assert_eq!(p.id, 5);
    assert_eq!(p.dir, "./decisions/5");
    assert_eq!(p.marker, "5");
    assert_eq!(plan_bump("./decisions", "x").unwrap().id, 1);
    assert!(plan_bump("./decisions", "18446744073709551615").is_err());
}

#[test]
fn revision_paths() {
    assert_eq!(revision_dir("./decisions", 12), "./decisions/12");
    assert_eq!(revision_path("./decisions", 2, "dir/b.txt").unwrap(), "./decisions/2/dir/b.txt");
    assert_eq!(revision_path("./decisions", 2, "../1/b.txt"), Err(StoreError::PathEscape));
}
