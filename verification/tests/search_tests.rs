use ancheck::db::Database;
use ancheck::db::FileEntry;
use ancheck::searcher::file_type_boost;
use ancheck::searcher::score_entry;
use ancheck::searcher::search;
use ancheck::searcher::usage_boost;

fn fresh_db() -> Database {
    Database::open(":memory:").expect("open in-memory store")
}

fn entry(filename: &str, filepath: &str, file_type: &str, clicks: i64, last: i64) -> FileEntry {
    FileEntry {
        id: 1,
        filename: filename.to_string(),
        filepath: filepath.to_string(),
        extension: String::new(),
        file_size: 0,
        modified_at: 0,
        file_type: file_type.to_string(),
        click_count: clicks,
        last_accessed: last,
        icon_path: None,
    }
}

#[test]
fn test_file_type_boost_values() {
    assert!(file_type_boost("app") > file_type_boost("document"));
    assert!(file_type_boost("document") > file_type_boost("other"));
}

#[test]
fn test_file_type_boost_exact_values() {
    assert_eq!(file_type_boost("app"), 50000);
    assert_eq!(file_type_boost("shortcut"), 40000);
    assert_eq!(file_type_boost("document"), 20000);
    assert_eq!(file_type_boost("folder"), 15000);
    assert_eq!(file_type_boost("code"), 10000);
    assert_eq!(file_type_boost("image"), 5000);
    assert_eq!(file_type_boost("anything-else"), 0);
}

#[test]
fn test_usage_boost_monotone_and_recency_cap() {
    let now = 1_000_000i64;
    assert_eq!(usage_boost(0, 0, now), 0);
    // a click one minute ago earns the full 30-point recency cap
    assert_eq!(usage_boost(0, now - 60, now), 30000);
    // more clicks never score lower, everything else equal
    let mut prev = usage_boost(0, 0, now);
    for clicks in [1i64, 2, 3, 10, 100, 1000] {
        let b = usage_boost(clicks, 0, now);
        assert!(b >= prev);
        prev = b;
    }
}

#[test]
fn test_score_entry_kinds() {
    let now = 1_000_000i64;
    let e = entry("Report.pdf", "/docs/Report.pdf", "document", 0, 0);
    let exact = score_entry(&e, "report.pdf", now);
    assert_eq!(exact.1, "exact");
    assert_eq!(exact.0, 1_000_000 + 20_000);
    assert_eq!(exact.2, vec![0usize, 1, 2, 3, 4, 5, 6, 7, 8, 9]);
    let noext = score_entry(&e, "report", now);
    assert_eq!(noext.1, "exact");
    assert_eq!(noext.0, 950_000 + 20_000);
    let prefix = score_entry(&e, "repo", now);
    assert_eq!(prefix.1, "prefix");
    assert_eq!(prefix.0, 800_000 + 20_000);
    let substring = score_entry(&e, "port", now);
    assert_eq!(substring.1, "substring");
    assert_eq!(substring.0, 600_000 + 20_000);
    assert_eq!(substring.2, vec![2usize, 3, 4, 5]);
    let path = score_entry(&e, "docs", now);
    assert_eq!(path.1, "path");
    assert_eq!(path.0, 300_000 + 20_000);
    assert!(path.2.is_empty());
}

#[test]
fn test_score_monotone_in_clicks() {
    let now = 1_000_000i64;
    let low = entry("a.txt", "/a.txt", "document", 1, 0);
    let high = entry("a.txt", "/a.txt", "document", 50, 0);
    let s_low = score_entry(&low, "a.txt", now);
    let s_high = score_entry(&high, "a.txt", now);
    assert!(s_high.0 >= s_low.0);
}

#[test]
fn test_exact_match_priority() {
    let mut db = fresh_db();
    db.upsert_file("report.pdf", "/d/report.pdf", "pdf", 1, 1, "document").unwrap();
    db.upsert_file("report_final.pdf", "/d/report_final.pdf", "pdf", 1, 1, "document").unwrap();
    let out = search(&db, "report.pdf", 10).unwrap();
    assert!(out.len() >= 2);
    assert_eq!(out[0].filename, "report.pdf");
    assert_eq!(out[0].match_type, "exact");
    let other = out.iter().find(|r| r.filename == "report_final.pdf").expect("both returned");
    assert!(out[0].score > other.score);
}

#[test]
fn test_search_cap_honored() {
    let mut db = fresh_db();
    for i in 0..6 {
        let path = format!("/d/match{}.txt", i);
        let name = format!("match{}.txt", i);
        db.upsert_file(&name, &path, "txt", 1, 1, "document").unwrap();
    }
    let out = search(&db, "match", 2).unwrap();
    assert_eq!(out.len(), 2);
    let all = search(&db, "match", 50).unwrap();
    assert_eq!(all.len(), 6);
}

#[test]
fn test_search_dedup_across_phases() {
    let mut db = fresh_db();
    db.upsert_file("notes.txt", "/d/notes.txt", "txt", 1, 1, "document").unwrap();
    db.upsert_file("nts.txt", "/d/nts.txt", "txt", 1, 1, "document").unwrap();
    // "nts" is a substring of one name and a fuzzy subsequence of the other,
    // so both phases run; no id may appear twice.
    let out = search(&db, "nts", 10).unwrap();
    let mut ids: Vec<i64> = out.iter().map(|r| r.id).collect();
    let n = ids.len();
    ids.sort();
    ids.dedup();
    assert_eq!(ids.len(), n);
}

#[test]
fn test_search_fuzzy_fallback_and_order() {
    let mut db = fresh_db();
    db.upsert_file("readme.md", "/d/readme.md", "md", 1, 1, "document").unwrap();
    db.upsert_file("resadmin.txt", "/d/resadmin.txt", "txt", 1, 1, "document").unwrap();
    let out = search(&db, "rdme", 10).unwrap();
    // no substring match anywhere: results, if any, come from the fuzzy pass
    assert!(out.iter().any(|r| r.filename == "readme.md"));
    for w in out.windows(2) {
        assert!(w[0].score >= w[1].score);
    }
}

#[test]
fn test_search_blank_query_is_empty() {
    let db = fresh_db();
    assert!(search(&db, "   ", 10).unwrap().is_empty());
    assert!(search(&db, "", 10).unwrap().is_empty());
}

#[test]
fn test_search_uppercase_query_matches() {
    let mut db = fresh_db();
    db.upsert_file("Setup.exe", "/apps/Setup.exe", "exe", 1, 1, "app").unwrap();
    let out = search(&db, "SETUP", 10).unwrap();
    assert_eq!(out.len(), 1);
    assert_eq!(out[0].filename, "Setup.exe");
}
