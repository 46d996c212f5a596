use ancheck::db::Database;

fn fresh_db() -> Database {
    Database::open(":memory:").expect("open in-memory store")
}

#[test]
fn test_upsert_idempotence_keeps_usage() {
    let mut db = fresh_db();
    db.upsert_file("a.txt", "/docs/a.txt", "txt", 10, 100, "document").unwrap();
    db.record_click_at("/docs/a.txt", 5000).unwrap();
    db.upsert_file("a-renamed.txt", "/docs/a.txt", "txt", 22, 200, "document").unwrap();
    assert_eq!(db.file_count().unwrap(), 1);
    let rows = db.get_all_filenames().unwrap();
    assert_eq!(rows.len(), 1);
    let (_, filename, filepath, _, clicks, last, modified) = rows[0].clone();
    assert_eq!(filename, "a-renamed.txt");
    assert_eq!(filepath, "/docs/a.txt");
    assert_eq!(clicks, 1);
    assert_eq!(last, 5000);
    assert_eq!(modified, 200);
}

#[test]
fn test_upsert_uniqueness() {
    let mut db = fresh_db();
    for _ in 0..3 {
        db.upsert_file("b.txt", "/docs/b.txt", "txt", 1, 1, "document").unwrap();
    }
    db.upsert_file("c.txt", "/docs/c.txt", "txt", 1, 1, "document").unwrap();
    assert_eq!(db.file_count().unwrap(), 2);
    let rows = db.get_all_filenames().unwrap();
    let mut paths: Vec<String> = rows.iter().map(|r| r.2.clone()).collect();
    paths.sort();
    paths.dedup();
    assert_eq!(paths.len(), 2);
}

#[test]
fn test_remove_paths_counts_removals() {
    let mut db = fresh_db();
    db.upsert_file("a", "/x/a", "", 0, 0, "other").unwrap();
    db.upsert_file("b", "/x/b", "", 0, 0, "other").unwrap();
    db.upsert_file("c", "/x/c", "", 0, 0, "other").unwrap();
    let gone = vec!["/x/a".to_string(), "/x/c".to_string(), "/x/nothere".to_string()];
    let removed = db.remove_paths(&gone).unwrap();
    assert_eq!(removed, 2);
    assert_eq!(db.file_count().unwrap(), 1);
}

#[test]
fn test_reconcile_missing_removes_vanished() {
    let mut db = fresh_db();
    // "/" exists on every unix-like host; the others cannot.
    db.upsert_file("root", "/", "", 0, 0, "folder").unwrap();
    db.upsert_file("gone1", "/definitely/not/here/one", "", 0, 0, "other").unwrap();
    db.upsert_file("gone2", "/definitely/not/here/two", "", 0, 0, "other").unwrap();
    let removed = db.remove_missing_files().unwrap();
    assert_eq!(removed, 2);
    assert_eq!(db.file_count().unwrap(), 1);
}

#[test]
fn test_meta_roundtrip() {
    let mut db = fresh_db();
    assert_eq!(db.get_meta("k").unwrap(), None);
    db.set_meta("k", "v1").unwrap();
    assert_eq!(db.get_meta("k").unwrap(), Some("v1".to_string()));
    db.set_meta("k", "v2").unwrap();
    assert_eq!(db.get_meta("k").unwrap(), Some("v2".to_string()));
    assert_eq!(db.get_meta("other").unwrap(), None);
}

#[test]
fn test_get_file_by_id() {
    let mut db = fresh_db();
    db.upsert_file("a.txt", "/docs/a.txt", "txt", 10, 100, "document").unwrap();
    let rows = db.get_all_filenames().unwrap();
    let id = rows[0].0;
    let e = db.get_file_by_id(id).unwrap().expect("stored row");
    assert_eq!(e.filepath, "/docs/a.txt");
    assert!(db.get_file_by_id(id + 1000).unwrap().is_none());
}

#[test]
fn test_search_files_tier_order() {
    let mut db = fresh_db();
    db.upsert_file("notes_report.txt", "/d/notes_report.txt", "txt", 1, 1, "document").unwrap();
    db.upsert_file("report", "/d/report", "", 1, 1, "other").unwrap();
    db.upsert_file("report_final.txt", "/d/report_final.txt", "txt", 1, 1, "document").unwrap();
    let out = db.search_files("report", 10).unwrap();
    assert_eq!(out.len(), 3);
    // exact filename match first, then the prefix match, then the substring match
    assert_eq!(out[0].filename, "report");
    assert_eq!(out[1].filename, "report_final.txt");
    assert_eq!(out[2].filename, "notes_report.txt");
}

#[test]
fn test_search_files_case_insensitive_and_limited() {
    let mut db = fresh_db();
    db.upsert_file("Alpha.TXT", "/d/Alpha.TXT", "txt", 1, 1, "document").unwrap();
    db.upsert_file("beta-alpha.txt", "/d/beta-alpha.txt", "txt", 1, 1, "document").unwrap();
    db.upsert_file("gamma.txt", "/d/gamma.txt", "txt", 1, 1, "document").unwrap();
    let out = db.search_files("ALPHA", 10).unwrap();
    assert_eq!(out.len(), 2);
    let capped = db.search_files("ALPHA", 1).unwrap();
    assert_eq!(capped.len(), 1);
}

#[test]
fn test_reopen_keeps_rows_and_meta() {
    let path = "/tmp/ancheck_reopen_test.db";
    {
        let mut db = Database::open(path).expect("open store file");
        db.upsert_file("persisted.txt", "/p/persisted.txt", "txt", 7, 70, "document").unwrap();
        db.set_meta("probe", "kept").unwrap();
    }
    let db = Database::open(path).expect("reopen store file");
    assert_eq!(db.get_meta("probe").unwrap(), Some("kept".to_string()));
    let rows = db.get_all_filenames().unwrap();
    assert!(rows.iter().any(|r| r.2 == "/p/persisted.txt"));
}
