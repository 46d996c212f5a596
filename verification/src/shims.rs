//! Trusted boundary of the library: declarations of outside types and thin
//! wrappers around outside-crate and standard-library calls. Every contract
//! in this module is believed, not proved; each doc comment names the
//! function relied upon.

use fuzzy_matcher::FuzzyMatcher;
use vstd::prelude::*;

verus! {

// ---------- outside types ----------

#[verifier::external_type_specification]
#[verifier::external_body]
pub struct ExConnection(rusqlite::Connection);

#[verifier::external_type_specification]
#[verifier::external_body]
pub struct ExSqlError(rusqlite::Error);

#[verifier::external_type_specification]
#[verifier::external_body]
pub struct ExWalkError(walkdir::Error);

#[verifier::external_type_specification]
#[verifier::external_body]
pub struct ExWalkIntoIter(walkdir::IntoIter);

#[verifier::external_type_specification]
#[verifier::external_body]
pub struct ExWalkDirEntry(walkdir::DirEntry);

// ---------- named results of outside functions ----------

/// The lowercase form of a string, as `str::to_lowercase` computes it.
pub uninterp spec fn lower_of(s: Seq<char>) -> Seq<char>;

/// The string with leading and trailing whitespace removed, as `str::trim`
/// computes it.
pub uninterp spec fn trimmed_of(s: Seq<char>) -> Seq<char>;

/// `r` is a contiguous slice of `s`.
pub open spec fn is_contiguous_slice_of(r: Seq<char>, s: Seq<char>) -> bool {
    exists|p: (int, int)| 0 <= p.0 <= p.1 <= s.len() && r == #[trigger] s.subrange(p.0, p.1)
}

/// What `SkimMatcherV2::fuzzy_match` (with the default configuration)
/// returns for a choice string and a pattern.
pub uninterp spec fn fuzzy_score_of(choice: Seq<char>, pattern: Seq<char>) -> Option<i64>;

/// What `SkimMatcherV2::fuzzy_indices` (with the default configuration)
/// returns for a choice string and a pattern: a score and the matched
/// character positions.
pub uninterp spec fn fuzzy_indices_of(choice: Seq<char>, pattern: Seq<char>) -> Option<
    (i64, Seq<usize>),
>;

// ---------- string wrappers ----------

/// Relies on `str::to_lowercase`: the result depends on the characters
/// alone, and the lowercase form of the empty string is empty.
#[verifier::external_body]
pub(crate) fn to_lower(s: &str) -> (r: String)
    ensures
        r@ == lower_of(s@),
        s@.len() == 0 ==> r@.len() == 0,
{
    s.to_lowercase()
}

/// Relies on `str::trim`: the input without leading and trailing
/// whitespace — a contiguous slice of it; the result depends on the
/// characters alone, and trimming the empty string leaves it empty.
#[verifier::external_body]
pub(crate) fn str_trim(s: &str) -> (r: String)
    ensures
        r@ == trimmed_of(s@),
        is_contiguous_slice_of(r@, s@),
        s@.len() == 0 ==> r@.len() == 0,
{
    s.trim().to_owned()
}

// ---------- fuzzy matching (fuzzy-matcher crate) ----------

/// Relies on `fuzzy_matcher::skim::SkimMatcherV2::fuzzy_match` with the
/// default configuration, whose result depends on the two strings alone.
#[verifier::external_body]
pub(crate) fn fuzzy_match_score(choice: &str, pattern: &str) -> (r: Option<i64>)
    ensures
        r == fuzzy_score_of(choice@, pattern@),
{
    fuzzy_matcher::skim::SkimMatcherV2::default().fuzzy_match(choice, pattern)
}

/// Relies on `fuzzy_matcher::skim::SkimMatcherV2::fuzzy_indices` with the
/// default configuration, whose result depends on the two strings alone.
#[verifier::external_body]
pub(crate) fn fuzzy_match_positions(choice: &str, pattern: &str) -> (r: Option<(i64, Vec<usize>)>)
    ensures
        match r {
            Some(p) => fuzzy_indices_of(choice@, pattern@) == Some((p.0, p.1@)),
            None => fuzzy_indices_of(choice@, pattern@) is None,
        },
{
    fuzzy_matcher::skim::SkimMatcherV2::default().fuzzy_indices(choice, pattern)
}

// ---------- clock and filesystem probes ----------

/// Relies on `chrono::Utc::now`: the current time in seconds since the
/// epoch. Nothing can be promised of the clock's value.
#[verifier::external_body]
pub(crate) fn now_unix() -> i64 {
    chrono::Utc::now().timestamp()
}

/// Relies on `std::path::Path::exists`: whether the path currently points
/// at an existing entity on disk. Nothing can be promised of disk state.
#[verifier::external_body]
pub(crate) fn path_exists(p: &str) -> bool {
    std::path::Path::new(p).exists()
}

// ---------- sqlite store (rusqlite crate) ----------

/// Relies on `rusqlite::Connection::open`: opens (or creates) the database
/// file at the given path.
#[verifier::external_body]
pub(crate) fn open_sqlite(path: &str) -> Result<rusqlite::Connection, rusqlite::Error> {
    rusqlite::Connection::open(path)
}

/// Relies on `rusqlite::Connection::execute_batch`: runs the given SQL
/// statements, without parameters.
#[verifier::external_body]
pub(crate) fn exec_sql_batch(conn: &rusqlite::Connection, sql: &str) -> Result<(), rusqlite::Error> {
    conn.execute_batch(sql)
}

/// Relies on `rusqlite::Connection::execute`: runs one SQL statement with
/// the seven row parameters bound in order.
#[verifier::external_body]
pub(crate) fn exec_sql_row(
    conn: &rusqlite::Connection,
    sql: &str,
    id: i64,
    filename: &str,
    filepath: &str,
    extension: &str,
    file_size: i64,
    modified_at: i64,
    file_type: &str,
) -> Result<(), rusqlite::Error> {
    conn.execute(sql, (id, filename, filepath, extension, file_size, modified_at, file_type)).map(
        |_| (),
    )
}

/// Relies on `rusqlite::Connection::execute`: runs one SQL statement with
/// two string parameters bound in order.
#[verifier::external_body]
pub(crate) fn exec_sql_str2(
    conn: &rusqlite::Connection,
    sql: &str,
    a: &str,
    b: &str,
) -> Result<(), rusqlite::Error> {
    conn.execute(sql, (a, b)).map(|_| ())
}

/// Relies on `rusqlite::Connection::execute`: runs one SQL statement with
/// an integer and a string parameter bound in order.
#[verifier::external_body]
pub(crate) fn exec_sql_i64_str(
    conn: &rusqlite::Connection,
    sql: &str,
    a: i64,
    b: &str,
) -> Result<(), rusqlite::Error> {
    conn.execute(sql, (a, b)).map(|_| ())
}

/// Relies on `rusqlite::Connection::execute`: runs one SQL statement with
/// one string parameter bound.
#[verifier::external_body]
pub(crate) fn exec_sql_str(
    conn: &rusqlite::Connection,
    sql: &str,
    a: &str,
) -> Result<(), rusqlite::Error> {
    conn.execute(sql, (a,)).map(|_| ())
}

/// Relies on `rusqlite::Connection::prepare`, `Statement::query_map` and
/// `MappedRows`: reads every stored row, converting each to a tuple of
/// plain values. Nothing is promised of the contents read from disk.
#[verifier::external_body]
pub(crate) fn load_sqlite_rows(
    conn: &rusqlite::Connection,
    sql: &str,
) -> Result<Vec<(i64, String, String, String, i64, i64, String, i64, i64, Option<String>)>, rusqlite::Error> {
    let mut stmt = conn.prepare(sql)?;
    let rows = stmt.query_map([], |r| {
        Ok((
            r.get(0)?, r.get(1)?, r.get(2)?, r.get(3)?, r.get(4)?, r.get(5)?, r.get(6)?,
            r.get(7)?, r.get(8)?, r.get(9)?,
        ))
    })?;
    Ok(rows.filter_map(|r| r.ok()).collect())
}

/// Relies on `rusqlite::Connection::prepare`, `Statement::query_map` and
/// `MappedRows`: reads every stored key/value pair, converting each to a
/// pair of strings. Nothing is promised of the contents read from disk.
#[verifier::external_body]
pub(crate) fn load_sqlite_pairs(
    conn: &rusqlite::Connection,
    sql: &str,
) -> Result<Vec<(String, String)>, rusqlite::Error> {
    let mut stmt = conn.prepare(sql)?;
    let rows = stmt.query_map([], |r| Ok((r.get(0)?, r.get(1)?)))?;
    Ok(rows.filter_map(|r| r.ok()).collect())
}

/// Relies on `rusqlite::Error`'s `Display` implementation via
/// `ToString::to_string`: a human-readable description of the failure.
#[verifier::external_body]
pub(crate) fn sql_error_message(e: &rusqlite::Error) -> String {
    e.to_string()
}

// ---------- filesystem walk (walkdir crate) ----------

/// Relies on `walkdir::WalkDir::new`, `max_depth`, `follow_links` and
/// `into_iter`: a depth-bounded, link-following traversal of the tree
/// rooted at `root`.
#[verifier::external_body]
pub(crate) fn walk_new(root: &str, max_depth: usize, follow: bool) -> walkdir::IntoIter {
    walkdir::WalkDir::new(root).max_depth(max_depth).follow_links(follow).into_iter()
}

/// Relies on `<walkdir::IntoIter as Iterator>::next`: the next traversal
/// event. `None` means the walk is over; `Some(None)` stands for a
/// traversal error (converted away, since only its presence matters);
/// `Some(Some(e))` is the next entry. Nothing is promised of disk state.
#[verifier::external_body]
pub(crate) fn walk_next(it: &mut walkdir::IntoIter) -> Option<Option<walkdir::DirEntry>> {
    match it.next() {
        None => None,
        Some(Ok(e)) => Some(Some(e)),
        Some(Err(_)) => Some(None),
    }
}

/// Relies on `walkdir::IntoIter::skip_current_dir`: prunes the directory
/// whose entry was yielded most recently, so the walk does not descend
/// into it.
#[verifier::external_body]
pub(crate) fn walk_skip_current(it: &mut walkdir::IntoIter) {
    it.skip_current_dir()
}

/// Relies on `walkdir::DirEntry::path` and `Path::to_string_lossy`: the
/// entry's full path as a string.
#[verifier::external_body]
pub(crate) fn entry_path(e: &walkdir::DirEntry) -> String {
    e.path().to_string_lossy().into_owned()
}

/// Relies on `walkdir::DirEntry::file_type` and `FileType::is_dir`:
/// whether the entry is a directory (following links, as the walk does).
#[verifier::external_body]
pub(crate) fn entry_is_dir(e: &walkdir::DirEntry) -> bool {
    e.file_type().is_dir()
}

/// Relies on `walkdir::DirEntry::metadata` and the metadata accessors
/// `is_file`, `len` and `modified` (the type cannot be named here, since
/// its module path is not accepted in this crate): whether the entry is
/// a regular file, its size in bytes, and its modification time in
/// seconds since the epoch (absent when unreadable). `None` when the
/// metadata itself could not be read.
#[verifier::external_body]
pub(crate) fn entry_stat(e: &walkdir::DirEntry) -> Option<(bool, u64, Option<i64>)> {
    match e.metadata() {
        Ok(m) => {
            let mt = m
                .modified()
                .ok()
                .and_then(|t| t.duration_since(std::time::SystemTime::UNIX_EPOCH).ok())
                .map(|d| d.as_secs() as i64);
            Some((m.is_file(), m.len(), mt))
        },
        Err(_) => None,
    }
}

} // verus!
