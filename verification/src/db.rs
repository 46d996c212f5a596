//! Storage layer: a store of indexed file entries and a small key/value
//! metadata table. The authoritative contents live in memory, where every
//! operation is specified and proved; each mutation is first written
//! through to an on-disk SQLite database so the index survives restarts.

use crate::shims;
use crate::strutil;
use vstd::prelude::*;

verus! {

/// One indexed filesystem entry.
#[derive(Debug, Clone)]
pub struct FileEntry {
    pub id: i64,
    pub filename: String,
    pub filepath: String,
    pub extension: String,
    pub file_size: i64,
    pub modified_at: i64,
    pub file_type: String,
    pub click_count: i64,
    pub last_accessed: i64,
    pub icon_path: Option<String>,
}

/// A storage failure, carrying the underlying database message.
#[derive(Debug)]
pub struct StoreError {
    pub message: String,
}

/// Duplicate an optional string, preserving its value.
pub fn clone_opt_string(o: &Option<String>) -> (r: Option<String>)
    ensures
        r == *o,
{
    match o {
        None => None,
        Some(s) => Some(s.clone()),
    }
}

impl FileEntry {
    /// Duplicate an entry, preserving its value.
    pub fn clone_entry(&self) -> (r: FileEntry)
        ensures
            r == *self,
    {
        FileEntry {
            id: self.id,
            filename: self.filename.clone(),
            filepath: self.filepath.clone(),
            extension: self.extension.clone(),
            file_size: self.file_size,
            modified_at: self.modified_at,
            file_type: self.file_type.clone(),
            click_count: self.click_count,
            last_accessed: self.last_accessed,
            icon_path: clone_opt_string(&self.icon_path),
        }
    }
}

/// Some stored row has the given path.
pub open spec fn has_path(rows: Seq<FileEntry>, path: Seq<char>) -> bool {
    exists|i: int| 0 <= i < rows.len() && rows[i].filepath@ == path
}

/// The index of the row with the given path (meaningful when `has_path`
/// holds and paths are unique).
pub open spec fn path_index(rows: Seq<FileEntry>, path: Seq<char>) -> int {
    choose|i: int| 0 <= i < rows.len() && rows[i].filepath@ == path
}

/// Well-formedness of the row store: paths unique, identifiers unique,
/// non-negative and below the next free identifier, click counters
/// non-negative, and the row count within the identifier space.
pub open spec fn rows_wf(rows: Seq<FileEntry>, next_id: int) -> bool {
    &&& forall|i: int, j: int|
        0 <= i < j < rows.len() ==> rows[i].filepath@ != rows[j].filepath@
    &&& forall|i: int, j: int| 0 <= i < j < rows.len() ==> rows[i].id != rows[j].id
    &&& forall|i: int| 0 <= i < rows.len() ==> 0 <= (#[trigger] rows[i]).id < next_id
    &&& forall|i: int| 0 <= i < rows.len() ==> (#[trigger] rows[i]).click_count >= 0
    &&& 0 <= next_id <= i64::MAX
    &&& rows.len() <= 9223372036854775807
}

/// Well-formedness of the metadata table: keys unique.
pub open spec fn meta_wf(meta: Seq<(String, String)>) -> bool {
    forall|i: int, j: int| 0 <= i < j < meta.len() ==> meta[i].0@ != meta[j].0@
}

/// The new entry written for a path not previously stored.
pub open spec fn fresh_entry(
    e: FileEntry,
    id: int,
    filename: Seq<char>,
    filepath: Seq<char>,
    extension: Seq<char>,
    file_size: i64,
    modified_at: i64,
    file_type: Seq<char>,
) -> bool {
    &&& e.id == id
    &&& e.filename@ == filename
    &&& e.filepath@ == filepath
    &&& e.extension@ == extension
    &&& e.file_size == file_size
    &&& e.modified_at == modified_at
    &&& e.file_type@ == file_type
    &&& e.click_count == 0
    &&& e.last_accessed == 0
    &&& e.icon_path is None
}

/// The refreshed entry written when a path is stored again: the scan
/// fields are replaced, everything else (identifier, path, extension,
/// usage history) is preserved.
pub open spec fn refreshed_entry(
    old_e: FileEntry,
    e: FileEntry,
    filename: Seq<char>,
    file_size: i64,
    modified_at: i64,
    file_type: Seq<char>,
) -> bool {
    &&& e.id == old_e.id
    &&& e.filename@ == filename
    &&& e.filepath == old_e.filepath
    &&& e.extension == old_e.extension
    &&& e.file_size == file_size
    &&& e.modified_at == modified_at
    &&& e.file_type@ == file_type
    &&& e.click_count == old_e.click_count
    &&& e.last_accessed == old_e.last_accessed
    &&& e.icon_path == old_e.icon_path
}

/// One upsert: insert a new row for an unknown path, or refresh the scan
/// fields of the single row holding the path, leaving usage untouched.
pub open spec fn upsert_step(
    a: Seq<FileEntry>,
    na: int,
    filename: Seq<char>,
    filepath: Seq<char>,
    extension: Seq<char>,
    file_size: i64,
    modified_at: i64,
    file_type: Seq<char>,
    b: Seq<FileEntry>,
    nb: int,
) -> bool {
    if has_path(a, filepath) {
        let k = path_index(a, filepath);
        &&& b.len() == a.len()
        &&& nb == na
        &&& forall|i: int| 0 <= i < a.len() && i != k ==> a[i] == b[i]
        &&& refreshed_entry(a[k], b[k], filename, file_size, modified_at, file_type)
    } else {
        &&& na < i64::MAX
        &&& a.len() < 9223372036854775807
        &&& b.len() == a.len() + 1
        &&& nb == na + 1
        &&& forall|i: int| 0 <= i < a.len() ==> a[i] == b[i]
        &&& fresh_entry(
            b[a.len() as int],
            na,
            filename,
            filepath,
            extension,
            file_size,
            modified_at,
            file_type,
        )
    }
}

/// One entry assembled for the store: filename, path, extension, size,
/// modification time and type.
pub type IndexTuple = (String, String, String, i64, i64, String);

/// A run of upserts, one per batch element, applied in order: `states`
/// holds every intermediate store, starting with the store before the
/// first upsert and ending with the store after the last.
pub open spec fn chain_holds(
    states: Seq<(Seq<FileEntry>, int)>,
    entries: Seq<(String, String, String, i64, i64, String)>,
) -> bool {
    &&& states.len() == entries.len() + 1
    &&& forall|i: int|
        0 <= i < entries.len() ==> upsert_step(
            states[i].0,
            states[i].1,
            (#[trigger] entries[i]).0@,
            entries[i].1@,
            entries[i].2@,
            entries[i].3,
            entries[i].4,
            entries[i].5@,
            states[i + 1].0,
            states[i + 1].1,
        )
}

/// Indexing never touches usage history: every old row's path survives,
/// and the surviving row keeps its identifier, click count and last
/// access time.
pub open spec fn preserves_usage(a: Seq<FileEntry>, b: Seq<FileEntry>) -> bool {
    &&& forall|i: int| 0 <= i < a.len() ==> has_path(b, (#[trigger] a[i]).filepath@)
    &&& forall|i: int, j: int|
        0 <= i < a.len() && 0 <= j < b.len() && a[i].filepath@ == b[j].filepath@ ==> {
            &&& b[j].id == a[i].id
            &&& b[j].click_count == a[i].click_count
            &&& b[j].last_accessed == a[i].last_accessed
        }
}

/// One upsert preserves well-formedness of the rows.
pub proof fn lemma_upsert_step_wf(
    a: Seq<FileEntry>,
    na: int,
    filename: Seq<char>,
    filepath: Seq<char>,
    extension: Seq<char>,
    file_size: i64,
    modified_at: i64,
    file_type: Seq<char>,
    b: Seq<FileEntry>,
    nb: int,
)
    requires
        rows_wf(a, na),
        upsert_step(a, na, filename, filepath, extension, file_size, modified_at, file_type, b, nb),
    ensures
        rows_wf(b, nb),
{
    if has_path(a, filepath) {
        let k = path_index(a, filepath);
        assert(0 <= k < a.len() && a[k].filepath@ == filepath);
        assert forall|i: int, j: int|
            0 <= i < j < b.len() implies b[i].filepath@ != b[j].filepath@ by {
            assert(a[i].filepath@ != a[j].filepath@);
        }
        assert forall|i: int, j: int| 0 <= i < j < b.len() implies b[i].id != b[j].id by {
            assert(a[i].id != a[j].id);
        }
        assert forall|i: int| 0 <= i < b.len() implies 0 <= (#[trigger] b[i]).id < nb
            && b[i].click_count >= 0 by {
            assert(0 <= a[i].id < na);
            assert(a[i].click_count >= 0);
        }
    } else {
        assert forall|i: int, j: int|
            0 <= i < j < b.len() implies b[i].filepath@ != b[j].filepath@ by {
            if j < a.len() {
                assert(a[i].filepath@ != a[j].filepath@);
            } else {
                assert(b[j].filepath@ == filepath);
                assert(!has_path(a, filepath));
                assert(b[i] == a[i]);
            }
        }
        assert forall|i: int, j: int| 0 <= i < j < b.len() implies b[i].id != b[j].id by {
            if j < a.len() {
                assert(a[i].id != a[j].id);
            } else {
                assert(b[j].id == na);
                assert(a[i].id < na);
            }
        }
        assert forall|i: int| 0 <= i < b.len() implies 0 <= (#[trigger] b[i]).id < nb
            && b[i].click_count >= 0 by {
            if i < a.len() {
                assert(0 <= a[i].id < na);
                assert(a[i].click_count >= 0);
            } else {
                assert(b[i].id == na);
            }
        }
    }
}

/// One upsert preserves usage history.
pub proof fn lemma_upsert_step_usage(
    a: Seq<FileEntry>,
    na: int,
    filename: Seq<char>,
    filepath: Seq<char>,
    extension: Seq<char>,
    file_size: i64,
    modified_at: i64,
    file_type: Seq<char>,
    b: Seq<FileEntry>,
    nb: int,
)
    requires
        rows_wf(a, na),
        upsert_step(a, na, filename, filepath, extension, file_size, modified_at, file_type, b, nb),
    ensures
        preserves_usage(a, b),
{
    if has_path(a, filepath) {
        let k = path_index(a, filepath);
        assert(0 <= k < a.len() && a[k].filepath@ == filepath);
        assert forall|i: int| 0 <= i < a.len() implies has_path(
            b,
            (#[trigger] a[i]).filepath@,
        ) by {
            assert(b[i].filepath@ == a[i].filepath@);
        }
        assert forall|i: int, j: int|
            0 <= i < a.len() && 0 <= j < b.len() && a[i].filepath@ == b[j].filepath@ implies {
            &&& b[j].id == a[i].id
            &&& b[j].click_count == a[i].click_count
            &&& b[j].last_accessed == a[i].last_accessed
        } by {
            if j == k {
                assert(a[i].filepath@ == a[k].filepath@);
                assert(i == k);
            } else {
                assert(b[j] == a[j]);
                assert(i == j);
            }
        }
    } else {
        assert forall|i: int| 0 <= i < a.len() implies has_path(
            b,
            (#[trigger] a[i]).filepath@,
        ) by {
            assert(b[i].filepath@ == a[i].filepath@);
        }
        assert forall|i: int, j: int|
            0 <= i < a.len() && 0 <= j < b.len() && a[i].filepath@ == b[j].filepath@ implies {
            &&& b[j].id == a[i].id
            &&& b[j].click_count == a[i].click_count
            &&& b[j].last_accessed == a[i].last_accessed
        } by {
            if j == a.len() {
                assert(b[j].filepath@ == filepath);
                assert(has_path(a, filepath));
                assert(false);
            } else {
                assert(b[j] == a[j]);
                assert(i == j);
            }
        }
    }
}

/// Usage preservation composes.
pub proof fn lemma_preserves_usage_trans(
    a: Seq<FileEntry>,
    b: Seq<FileEntry>,
    c: Seq<FileEntry>,
)
    requires
        preserves_usage(a, b),
        preserves_usage(b, c),
    ensures
        preserves_usage(a, c),
{
    assert forall|i: int| 0 <= i < a.len() implies has_path(c, (#[trigger] a[i]).filepath@) by {
        assert(has_path(b, a[i].filepath@));
        let j = choose|j: int| 0 <= j < b.len() && b[j].filepath@ == a[i].filepath@;
        assert(has_path(c, b[j].filepath@));
    }
    assert forall|i: int, j: int|
        0 <= i < a.len() && 0 <= j < c.len() && a[i].filepath@ == c[j].filepath@ implies {
        &&& c[j].id == a[i].id
        &&& c[j].click_count == a[i].click_count
        &&& c[j].last_accessed == a[i].last_accessed
    } by {
        assert(has_path(b, a[i].filepath@));
        let m = choose|m: int| 0 <= m < b.len() && b[m].filepath@ == a[i].filepath@;
        assert(b[m].id == a[i].id);
        assert(c[j].id == b[m].id);
    }
}

/// Every run of upserts keeps the store well-formed — in particular no
/// two rows ever share a path — and never touches usage history.
pub proof fn lemma_chain_wf_usage(
    states: Seq<(Seq<FileEntry>, int)>,
    entries: Seq<(String, String, String, i64, i64, String)>,
)
    requires
        chain_holds(states, entries),
        rows_wf(states[0].0, states[0].1),
    ensures
        rows_wf(states.last().0, states.last().1),
        preserves_usage(states[0].0, states.last().0),
    decreases entries.len(),
{
    let n = entries.len() as int;
    if n == 0 {
        let a = states[0].0;
        assert(states.last() == states[0]);
        assert forall|i: int| 0 <= i < a.len() implies has_path(
            a,
            (#[trigger] a[i]).filepath@,
        ) by {
            assert(a[i].filepath@ == a[i].filepath@);
        }
    } else {
        let ss = states.drop_last();
        let ee = entries.drop_last();
        assert(chain_holds(ss, ee)) by {
            assert forall|i: int| 0 <= i < ee.len() implies upsert_step(
                ss[i].0,
                ss[i].1,
                (#[trigger] ee[i]).0@,
                ee[i].1@,
                ee[i].2@,
                ee[i].3,
                ee[i].4,
                ee[i].5@,
                ss[i + 1].0,
                ss[i + 1].1,
            ) by {
                assert(ee[i] == entries[i]);
                assert(ss[i] == states[i] && ss[i + 1] == states[i + 1]);
            }
        }
        lemma_chain_wf_usage(ss, ee);
        let m = states[n - 1];
        let last = states[n as int];
        assert(upsert_step(
            m.0,
            m.1,
            entries[n - 1].0@,
            entries[n - 1].1@,
            entries[n - 1].2@,
            entries[n - 1].3,
            entries[n - 1].4,
            entries[n - 1].5@,
            last.0,
            last.1,
        ));
        assert(ss.last() == m);
        lemma_upsert_step_wf(
            m.0,
            m.1,
            entries[n - 1].0@,
            entries[n - 1].1@,
            entries[n - 1].2@,
            entries[n - 1].3,
            entries[n - 1].4,
            entries[n - 1].5@,
            last.0,
            last.1,
        );
        lemma_upsert_step_usage(
            m.0,
            m.1,
            entries[n - 1].0@,
            entries[n - 1].1@,
            entries[n - 1].2@,
            entries[n - 1].3,
            entries[n - 1].4,
            entries[n - 1].5@,
            last.0,
            last.1,
        );
        lemma_preserves_usage_trans(states[0].0, m.0, last.0);
        assert(states.last() == last);
    }
}

/// Upserting the same path twice leaves exactly one row for it, holding
/// the later scan fields, with identifier and usage unchanged from before
/// the second upsert.
pub proof fn lemma_upsert_idempotent(
    a: Seq<FileEntry>,
    na: int,
    f1: Seq<char>,
    e1: Seq<char>,
    s1: i64,
    m1: i64,
    t1: Seq<char>,
    b: Seq<FileEntry>,
    nb: int,
    f2: Seq<char>,
    e2: Seq<char>,
    s2: i64,
    m2: i64,
    t2: Seq<char>,
    c: Seq<FileEntry>,
    nc: int,
    filepath: Seq<char>,
)
    requires
        rows_wf(a, na),
        upsert_step(a, na, f1, filepath, e1, s1, m1, t1, b, nb),
        upsert_step(b, nb, f2, filepath, e2, s2, m2, t2, c, nc),
    ensures
        c.len() == b.len(),
        has_path(c, filepath),
        forall|i: int, j: int|
            0 <= i < j < c.len() ==> !(c[i].filepath@ == filepath && c[j].filepath@ == filepath),
        ({
            let k = path_index(c, filepath);
            &&& c[k].filename@ == f2
            &&& c[k].file_size == s2
            &&& c[k].modified_at == m2
            &&& c[k].file_type@ == t2
            &&& c[k].click_count == b[path_index(b, filepath)].click_count
            &&& c[k].last_accessed == b[path_index(b, filepath)].last_accessed
            &&& c[k].id == b[path_index(b, filepath)].id
        }),
{
    lemma_upsert_step_wf(a, na, f1, filepath, e1, s1, m1, t1, b, nb);
    if has_path(a, filepath) {
        let k0 = path_index(a, filepath);
        assert(0 <= k0 < a.len() && a[k0].filepath@ == filepath);
        assert(b[k0].filepath@ == filepath);
        assert(has_path(b, filepath));
    } else {
        assert(b[a.len() as int].filepath@ == filepath);
        assert(has_path(b, filepath));
    }
    let kb = path_index(b, filepath);
    assert(0 <= kb < b.len() && b[kb].filepath@ == filepath);
    let kc = path_index(c, filepath);
    assert(refreshed_entry(b[kb], c[kb], f2, s2, m2, t2));
    assert(c[kb].filepath@ == filepath);
    assert(0 <= kc < c.len() && c[kc].filepath@ == filepath);
    lemma_upsert_step_wf(b, nb, f2, filepath, e2, s2, m2, t2, c, nc);
    assert(kc == kb);
}

} // verus!

verus! {

/// SQL run once when the store is opened: performance pragmas for a
/// search-heavy workload.
pub const PRAGMA_SQL: &'static str =
    "PRAGMA journal_mode = WAL; PRAGMA synchronous = NORMAL; PRAGMA cache_size = -64000; PRAGMA temp_store = MEMORY; PRAGMA mmap_size = 268435456;";

/// SQL creating the tables and indexes if they are absent.
pub const SCHEMA_SQL: &'static str =
    "CREATE TABLE IF NOT EXISTS files (
        id INTEGER PRIMARY KEY,
        filename TEXT NOT NULL,
        filepath TEXT NOT NULL UNIQUE,
        extension TEXT NOT NULL DEFAULT '',
        file_size INTEGER NOT NULL DEFAULT 0,
        modified_at INTEGER NOT NULL DEFAULT 0,
        file_type TEXT NOT NULL DEFAULT 'other',
        click_count INTEGER NOT NULL DEFAULT 0,
        last_accessed INTEGER NOT NULL DEFAULT 0,
        icon_path TEXT
    );
    CREATE INDEX IF NOT EXISTS idx_filename ON files(filename);
    CREATE INDEX IF NOT EXISTS idx_filepath ON files(filepath);
    CREATE INDEX IF NOT EXISTS idx_extension ON files(extension);
    CREATE INDEX IF NOT EXISTS idx_file_type ON files(file_type);
    CREATE INDEX IF NOT EXISTS idx_click_count ON files(click_count DESC);
    CREATE INDEX IF NOT EXISTS idx_modified_at ON files(modified_at DESC);
    CREATE TABLE IF NOT EXISTS index_meta (key TEXT PRIMARY KEY, value TEXT NOT NULL);";

/// SQL writing one row through, inserting or refreshing on path conflict.
pub const UPSERT_SQL: &'static str =
    "INSERT INTO files (id, filename, filepath, extension, file_size, modified_at, file_type)
     VALUES (?1, ?2, ?3, ?4, ?5, ?6, ?7)
     ON CONFLICT(filepath) DO UPDATE SET
        filename = excluded.filename,
        file_size = excluded.file_size,
        modified_at = excluded.modified_at,
        file_type = excluded.file_type";

/// SQL recording one launch of a stored path.
pub const CLICK_SQL: &'static str =
    "UPDATE files SET click_count = click_count + 1, last_accessed = ?1 WHERE filepath = ?2";

/// SQL deleting the row for one path.
pub const DELETE_SQL: &'static str = "DELETE FROM files WHERE filepath = ?1";

/// SQL writing one metadata pair through.
pub const META_SQL: &'static str =
    "INSERT INTO index_meta (key, value) VALUES (?1, ?2) ON CONFLICT(key) DO UPDATE SET value = excluded.value";

/// SQL reading every stored row back at open.
pub const LOAD_SQL: &'static str =
    "SELECT id, filename, filepath, extension, file_size, modified_at, file_type, click_count, last_accessed, icon_path FROM files ORDER BY id";

/// Wrap a database failure into the library's error type.
fn sql_err(e: &rusqlite::Error) -> StoreError {
    StoreError { message: shims::sql_error_message(e) }
}

/// The error returned when the identifier or row space is exhausted.
fn full_err() -> StoreError {
    StoreError { message: String::from_str("index store is full") }
}

/// The store: authoritative in-memory rows and metadata, and the on-disk
/// database they are written through to.
pub struct Database {
    conn: rusqlite::Connection,
    rows: Vec<FileEntry>,
    next_id: i64,
    meta: Vec<(String, String)>,
}

/// In a well-formed store two indices holding the same path are equal.
pub proof fn lemma_path_unique(rows: Seq<FileEntry>, next_id: int, i: int, j: int)
    requires
        rows_wf(rows, next_id),
        0 <= i < rows.len(),
        0 <= j < rows.len(),
        rows[i].filepath@ == rows[j].filepath@,
    ensures
        i == j,
{
    if i < j {
        assert(rows[i].filepath@ != rows[j].filepath@);
    } else if j < i {
        assert(rows[j].filepath@ != rows[i].filepath@);
    }
}

/// Find the row holding a path, if any.
fn find_row(rows: &Vec<FileEntry>, filepath: &str) -> (r: Option<usize>)
    ensures
        match r {
            Some(i) => i < rows@.len() && rows@[i as int].filepath@ == filepath@,
            None => !has_path(rows@, filepath@),
        },
{
    let mut i: usize = 0;
    while i < rows.len()
        invariant
            i <= rows@.len(),
            forall|j: int| 0 <= j < i ==> rows@[j].filepath@ != filepath@,
        decreases rows@.len() - i,
    {
        if strutil::str_eq(rows[i].filepath.as_str(), filepath) {
            return Some(i);
        }
        i = i + 1;
    }
    None
}

/// Apply one upsert: write the row through, then update the memory rows.
/// On `Err` nothing has changed in memory.
fn upsert_one(
    conn: &rusqlite::Connection,
    rows: &mut Vec<FileEntry>,
    next_id: &mut i64,
    filename: &str,
    filepath: &str,
    extension: &str,
    file_size: i64,
    modified_at: i64,
    file_type: &str,
) -> (r: Result<(), StoreError>)
    requires
        rows_wf(old(rows)@, *old(next_id) as int),
    ensures
        rows_wf(final(rows)@, *final(next_id) as int),
        r is Ok ==> upsert_step(
            old(rows)@,
            *old(next_id) as int,
            filename@,
            filepath@,
            extension@,
            file_size,
            modified_at,
            file_type@,
            final(rows)@,
            *final(next_id) as int,
        ),
        r is Err ==> final(rows)@ == old(rows)@ && *final(next_id) == *old(next_id),
{
    match find_row(rows, filepath) {
        Some(i) => {
            let id = rows[i].id;
            match shims::exec_sql_row(
                conn,
                UPSERT_SQL,
                id,
                filename,
                filepath,
                extension,
                file_size,
                modified_at,
                file_type,
            ) {
                Err(e) => Err(sql_err(&e)),
                Ok(_) => {
                    let old_e = rows.remove(i);
                    let new_e = FileEntry {
                        id: old_e.id,
                        filename: String::from_str(filename),
                        filepath: old_e.filepath,
                        extension: old_e.extension,
                        file_size: file_size,
                        modified_at: modified_at,
                        file_type: String::from_str(file_type),
                        click_count: old_e.click_count,
                        last_accessed: old_e.last_accessed,
                        icon_path: old_e.icon_path,
                    };
                    rows.insert(i, new_e);
                    proof {
                        let a = old(rows)@;
                        assert(rows@ =~= a.update(i as int, new_e));
                        assert(has_path(a, filepath@));
                        let k = path_index(a, filepath@);
                        assert(0 <= k < a.len() && a[k].filepath@ == filepath@);
                        lemma_path_unique(a, *old(next_id) as int, k, i as int);
                        assert(refreshed_entry(a[k], rows@[k], filename@, file_size, modified_at, file_type@));
                        lemma_upsert_step_wf(
                            a,
                            *old(next_id) as int,
                            filename@,
                            filepath@,
                            extension@,
                            file_size,
                            modified_at,
                            file_type@,
                            rows@,
                            *next_id as int,
                        );
                    }
                    Ok(())
                },
            }
        },
        None => {
            if rows.len() as u64 >= 9223372036854775807u64 {
                return Err(full_err());
            }
            if *next_id == i64::MAX {
                return Err(full_err());
            }
            let id: i64 = *next_id;
            match shims::exec_sql_row(
                conn,
                UPSERT_SQL,
                id,
                filename,
                filepath,
                extension,
                file_size,
                modified_at,
                file_type,
            ) {
                Err(e) => Err(sql_err(&e)),
                Ok(_) => {
                    let new_e = FileEntry {
                        id: id,
                        filename: String::from_str(filename),
                        filepath: String::from_str(filepath),
                        extension: String::from_str(extension),
                        file_size: file_size,
                        modified_at: modified_at,
                        file_type: String::from_str(file_type),
                        click_count: 0,
                        last_accessed: 0,
                        icon_path: None,
                    };
                    rows.push(new_e);
                    *next_id = id + 1;
                    proof {
                        let a = old(rows)@;
                        assert(rows@ =~= a.push(new_e));
                        assert(fresh_entry(rows@[a.len() as int], id as int, filename@, filepath@, extension@, file_size, modified_at, file_type@));
                        lemma_upsert_step_wf(
                            a,
                            *old(next_id) as int,
                            filename@,
                            filepath@,
                            extension@,
                            file_size,
                            modified_at,
                            file_type@,
                            rows@,
                            *next_id as int,
                        );
                    }
                    Ok(())
                },
            }
        },
    }
}

/// Duplicate the row vector, preserving values.
fn clone_rows(v: &Vec<FileEntry>) -> (r: Vec<FileEntry>)
    ensures
        r@ == v@,
{
    let mut r: Vec<FileEntry> = Vec::new();
    let mut i: usize = 0;
    while i < v.len()
        invariant
            i <= v@.len(),
            r@ == v@.take(i as int),
        decreases v@.len() - i,
    {
        r.push(v[i].clone_entry());
        proof {
            assert(r@ =~= v@.take(i + 1));
        }
        i = i + 1;
    }
    proof {
        assert(r@ =~= v@);
    }
    r
}

impl Database {
    /// The stored rows, as the contracts speak of them.
    pub closed spec fn entries(self) -> Seq<FileEntry> {
        self.rows@
    }

    /// The metadata pairs.
    pub closed spec fn meta_entries(self) -> Seq<(String, String)> {
        self.meta@
    }

    /// The next identifier to be assigned.
    pub closed spec fn next_id_spec(self) -> int {
        self.next_id as int
    }

    /// Well-formedness of the whole store.
    pub open spec fn wf(self) -> bool {
        rows_wf(self.entries(), self.next_id_spec()) && meta_wf(self.meta_entries())
    }

    /// Insert a row for a new path, or refresh the scan fields of the
    /// row already holding the path, leaving its usage history untouched.
    /// On `Err` (a write-through failure, or an exhausted store) nothing
    /// has changed.
    pub fn upsert_file(
        &mut self,
        filename: &str,
        filepath: &str,
        extension: &str,
        file_size: i64,
        modified_at: i64,
        file_type: &str,
    ) -> (r: Result<(), StoreError>)
        requires
            old(self).wf(),
        ensures
            final(self).wf(),
            final(self).meta_entries() == old(self).meta_entries(),
            r is Ok ==> upsert_step(
                old(self).entries(),
                old(self).next_id_spec(),
                filename@,
                filepath@,
                extension@,
                file_size,
                modified_at,
                file_type@,
                final(self).entries(),
                final(self).next_id_spec(),
            ),
            r is Err ==> final(self).entries() == old(self).entries()
                && final(self).next_id_spec() == old(self).next_id_spec(),
    {
        upsert_one(
            &self.conn,
            &mut self.rows,
            &mut self.next_id,
            filename,
            filepath,
            extension,
            file_size,
            modified_at,
            file_type,
        )
    }

    /// Apply one upsert per batch element, in order, inside a single
    /// write-through transaction: either every element is applied (`Ok`)
    /// or nothing is (`Err`).
    pub fn upsert_files_batch(
        &mut self,
        entries: &Vec<(String, String, String, i64, i64, String)>,
    ) -> (r: Result<(), StoreError>)
        requires
            old(self).wf(),
        ensures
            final(self).wf(),
            final(self).meta_entries() == old(self).meta_entries(),
            r is Ok ==> exists|states: Seq<(Seq<FileEntry>, int)>|
                #[trigger] chain_holds(states, entries@) && states[0] == (
                    old(self).entries(),
                    old(self).next_id_spec(),
                ) && states.last() == (final(self).entries(), final(self).next_id_spec()),
            r is Err ==> final(self).entries() == old(self).entries()
                && final(self).next_id_spec() == old(self).next_id_spec(),
    {
        if let Err(e) = shims::exec_sql_batch(&self.conn, "BEGIN") {
            return Err(sql_err(&e));
        }
        let mut work: Vec<FileEntry> = clone_rows(&self.rows);
        let mut nid: i64 = self.next_id;
        let ghost mut trace: Seq<(Seq<FileEntry>, int)> = seq![(work@, nid as int)];
        let mut i: usize = 0;
        while i < entries.len()
            invariant
                i <= entries@.len(),
                rows_wf(work@, nid as int),
                self == old(self),
                old(self).wf(),
                trace.len() == i + 1,
                trace[0] == (old(self).entries(), old(self).next_id_spec()),
                trace.last() == (work@, nid as int),
                chain_holds(trace, entries@.take(i as int)),
            decreases entries@.len() - i,
        {
            let ghost pre_work = work@;
            let ghost pre_nid = nid as int;
            let e = &entries[i];
            match upsert_one(
                &self.conn,
                &mut work,
                &mut nid,
                e.0.as_str(),
                e.1.as_str(),
                e.2.as_str(),
                e.3,
                e.4,
                e.5.as_str(),
            ) {
                Ok(_) => {
                    proof {
                        let ghost pre_trace = trace;
                        trace = trace.push((work@, nid as int));
                        let t1 = entries@.take(i + 1);
                        assert forall|j: int| 0 <= j < t1.len() implies upsert_step(
                            trace[j].0,
                            trace[j].1,
                            (#[trigger] t1[j]).0@,
                            t1[j].1@,
                            t1[j].2@,
                            t1[j].3,
                            t1[j].4,
                            t1[j].5@,
                            trace[j + 1].0,
                            trace[j + 1].1,
                        ) by {
                            if j < i {
                                let t0 = entries@.take(i as int);
                                assert(t1[j] == t0[j]);
                                assert(trace[j] == pre_trace[j]);
                                assert(trace[j + 1] == pre_trace[j + 1]);
                                assert(upsert_step(
                                    pre_trace[j].0,
                                    pre_trace[j].1,
                                    t0[j].0@,
                                    t0[j].1@,
                                    t0[j].2@,
                                    t0[j].3,
                                    t0[j].4,
                                    t0[j].5@,
                                    pre_trace[j + 1].0,
                                    pre_trace[j + 1].1,
                                ));
                            } else {
                                assert(j == i);
                                assert(t1[j] == entries@[i as int]);
                                assert(trace[j] == pre_trace.last());
                                assert(trace[j + 1] == (work@, nid as int));
                                assert(pre_trace.last() == (pre_work, pre_nid));
                            }
                        }
                        assert(chain_holds(trace, t1));
                    }
                    i = i + 1;
                },
                Err(er) => {
                    let _ = shims::exec_sql_batch(&self.conn, "ROLLBACK");
                    return Err(er);
                },
            }
        }
        match shims::exec_sql_batch(&self.conn, "COMMIT") {
            Err(e) => {
                let _ = shims::exec_sql_batch(&self.conn, "ROLLBACK");
                Err(sql_err(&e))
            },
            Ok(_) => {
                self.rows = work;
                self.next_id = nid;
                proof {
                    assert(entries@.take(entries@.len() as int) =~= entries@);
                    assert(chain_holds(trace, entries@));
                }
                Ok(())
            },
        }
    }
}

} // verus!

verus! {

/// One recorded launch: the single row holding the path gets its click
/// counter raised by one (saturating) and its last access time set; a
/// path that is not stored changes nothing.
pub open spec fn click_step(a: Seq<FileEntry>, path: Seq<char>, t: i64, b: Seq<FileEntry>) -> bool {
    if has_path(a, path) {
        let k = path_index(a, path);
        &&& b.len() == a.len()
        &&& forall|i: int| 0 <= i < a.len() && i != k ==> a[i] == b[i]
        &&& b[k].id == a[k].id
        &&& b[k].filename == a[k].filename
        &&& b[k].filepath == a[k].filepath
        &&& b[k].extension == a[k].extension
        &&& b[k].file_size == a[k].file_size
        &&& b[k].modified_at == a[k].modified_at
        &&& b[k].file_type == a[k].file_type
        &&& b[k].click_count == if a[k].click_count < i64::MAX {
            a[k].click_count + 1
        } else {
            a[k].click_count as int
        }
        &&& b[k].last_accessed == t
        &&& b[k].icon_path == a[k].icon_path
    } else {
        b == a
    }
}

/// The rows left after removing every row whose path is `p`.
pub open spec fn remove_path_rows(rows: Seq<FileEntry>, p: Seq<char>) -> Seq<FileEntry>
    decreases rows.len(),
{
    if rows.len() == 0 {
        Seq::empty()
    } else if rows[0].filepath@ == p {
        remove_path_rows(rows.drop_first(), p)
    } else {
        seq![rows[0]] + remove_path_rows(rows.drop_first(), p)
    }
}

/// The rows left after removing, in order, every path in the list.
pub open spec fn drop_listed(rows: Seq<FileEntry>, l: Seq<String>) -> Seq<FileEntry>
    decreases l.len(),
{
    if l.len() == 0 {
        rows
    } else {
        drop_listed(remove_path_rows(rows, l[0]@), l.drop_first())
    }
}

/// How many rows removing the listed paths, in order, deletes.
pub open spec fn removed_count(rows: Seq<FileEntry>, l: Seq<String>) -> int
    decreases l.len(),
{
    if l.len() == 0 {
        0
    } else {
        (if has_path(rows, l[0]@) {
            1int
        } else {
            0int
        }) + removed_count(remove_path_rows(rows, l[0]@), l.drop_first())
    }
}

/// Removing a path that no row holds changes nothing.
proof fn lemma_remove_absent(rows: Seq<FileEntry>, p: Seq<char>)
    requires
        !has_path(rows, p),
    ensures
        remove_path_rows(rows, p) == rows,
    decreases rows.len(),
{
    if rows.len() > 0 {
        assert(rows[0].filepath@ != p);
        assert(!has_path(rows.drop_first(), p)) by {
            if has_path(rows.drop_first(), p) {
                let i = choose|i: int|
                    0 <= i < rows.drop_first().len() && rows.drop_first()[i].filepath@ == p;
                assert(rows[i + 1].filepath@ == p);
            }
        }
        lemma_remove_absent(rows.drop_first(), p);
        assert(seq![rows[0]] + rows.drop_first() =~= rows);
    }
}

/// When paths are unique and row `k` holds `p`, removing `p` is removing
/// exactly that row.
proof fn lemma_remove_single(rows: Seq<FileEntry>, next_id: int, p: Seq<char>, k: int)
    requires
        rows_wf(rows, next_id),
        0 <= k < rows.len(),
        rows[k].filepath@ == p,
    ensures
        remove_path_rows(rows, p) == rows.remove(k),
    decreases rows.len(),
{
    if k == 0 {
        assert(!has_path(rows.drop_first(), p)) by {
            if has_path(rows.drop_first(), p) {
                let i = choose|i: int|
                    0 <= i < rows.drop_first().len() && rows.drop_first()[i].filepath@ == p;
                assert(rows[i + 1].filepath@ == p);
                assert(rows[0].filepath@ != rows[i + 1].filepath@);
            }
        }
        lemma_remove_absent(rows.drop_first(), p);
        assert(rows.remove(0) =~= rows.drop_first());
    } else {
        assert(rows[0].filepath@ != p);
        assert(rows_wf(rows.drop_first(), next_id)) by {
            assert(forall|i: int, j: int|
                0 <= i < j < rows.drop_first().len() ==> rows.drop_first()[i].filepath@
                    != rows.drop_first()[j].filepath@) by {
                assert forall|i: int, j: int|
                    0 <= i < j < rows.drop_first().len() implies rows.drop_first()[i].filepath@
                    != rows.drop_first()[j].filepath@ by {
                    assert(rows[i + 1].filepath@ != rows[j + 1].filepath@);
                }
            }
            assert forall|i: int, j: int|
                0 <= i < j < rows.drop_first().len() implies rows.drop_first()[i].id
                != rows.drop_first()[j].id by {
                assert(rows[i + 1].id != rows[j + 1].id);
            }
            assert forall|i: int| 0 <= i < rows.drop_first().len() implies 0 <= (
            #[trigger] rows.drop_first()[i]).id < next_id && rows.drop_first()[i].click_count
                >= 0 by {
                assert(rows[i + 1] == rows.drop_first()[i]);
                assert(0 <= rows[i + 1].id < next_id);
            }
        }
        lemma_remove_single(rows.drop_first(), next_id, p, k - 1);
        assert(seq![rows[0]] + rows.drop_first().remove(k - 1) =~= rows.remove(k));
    }
}

/// Removing one more listed path commutes with removing the earlier ones.
proof fn lemma_drop_listed_snoc(rows: Seq<FileEntry>, l: Seq<String>, p: String)
    ensures
        drop_listed(rows, l.push(p)) == remove_path_rows(drop_listed(rows, l), p@),
        removed_count(rows, l.push(p)) == removed_count(rows, l) + (if has_path(
            drop_listed(rows, l),
            p@,
        ) {
            1int
        } else {
            0int
        }),
    decreases l.len(),
{
    if l.len() == 0 {
        assert(l.push(p)[0] == p);
        assert(l.push(p).drop_first() =~= Seq::<String>::empty());
        assert(drop_listed(rows, l.push(p)) == drop_listed(
            remove_path_rows(rows, p@),
            Seq::<String>::empty(),
        ));
        assert(drop_listed(rows, l) == rows);
        assert(removed_count(rows, l.push(p)) == (if has_path(rows, p@) {
            1int
        } else {
            0int
        }) + removed_count(remove_path_rows(rows, p@), Seq::<String>::empty()));
        assert(removed_count(rows, l) == 0);
    } else {
        assert(l.push(p)[0] == l[0]);
        assert(l.push(p).drop_first() =~= l.drop_first().push(p));
        lemma_drop_listed_snoc(remove_path_rows(rows, l[0]@), l.drop_first(), p);
        assert(drop_listed(rows, l.push(p)) == drop_listed(
            remove_path_rows(rows, l[0]@),
            l.drop_first().push(p),
        ));
        assert(drop_listed(rows, l) == drop_listed(remove_path_rows(rows, l[0]@), l.drop_first()));
        assert(removed_count(rows, l.push(p)) == (if has_path(rows, l[0]@) {
            1int
        } else {
            0int
        }) + removed_count(remove_path_rows(rows, l[0]@), l.drop_first().push(p)));
        assert(removed_count(rows, l) == (if has_path(rows, l[0]@) {
            1int
        } else {
            0int
        }) + removed_count(remove_path_rows(rows, l[0]@), l.drop_first()));
    }
}

/// Removing rows preserves well-formedness.
proof fn lemma_remove_wf(rows: Seq<FileEntry>, next_id: int, k: int)
    requires
        rows_wf(rows, next_id),
        0 <= k < rows.len(),
    ensures
        rows_wf(rows.remove(k), next_id),
{
    let b = rows.remove(k);
    assert forall|i: int, j: int| 0 <= i < j < b.len() implies b[i].filepath@ != b[j].filepath@
        && b[i].id != b[j].id by {
        let i0 = if i < k {
            i
        } else {
            i + 1
        };
        let j0 = if j < k {
            j
        } else {
            j + 1
        };
        assert(b[i] == rows[i0] && b[j] == rows[j0]);
        assert(rows[i0].filepath@ != rows[j0].filepath@);
        assert(rows[i0].id != rows[j0].id);
    }
    assert forall|i: int| 0 <= i < b.len() implies 0 <= (#[trigger] b[i]).id < next_id
        && b[i].click_count >= 0 by {
        let i0 = if i < k {
            i
        } else {
            i + 1
        };
        assert(b[i] == rows[i0]);
        assert(0 <= rows[i0].id < next_id);
    }
}

/// Removing one path leaves every row with a different path stored.
proof fn lemma_remove_keeps(rows: Seq<FileEntry>, p: Seq<char>, q: Seq<char>)
    requires
        has_path(rows, q),
        q != p,
    ensures
        has_path(remove_path_rows(rows, p), q),
    decreases rows.len(),
{
    let i = choose|i: int| 0 <= i < rows.len() && rows[i].filepath@ == q;
    if rows[0].filepath@ == p {
        assert(i >= 1);
        assert(rows.drop_first()[i - 1].filepath@ == q);
        lemma_remove_keeps(rows.drop_first(), p, q);
        assert(remove_path_rows(rows, p) == remove_path_rows(rows.drop_first(), p));
    } else if rows[0].filepath@ == q {
        assert(remove_path_rows(rows, p)[0] == rows[0]);
    } else {
        assert(i >= 1);
        assert(rows.drop_first()[i - 1].filepath@ == q);
        lemma_remove_keeps(rows.drop_first(), p, q);
        let j = choose|j: int|
            0 <= j < remove_path_rows(rows.drop_first(), p).len() && remove_path_rows(
                rows.drop_first(),
                p,
            )[j].filepath@ == q;
        assert(remove_path_rows(rows, p) == seq![rows[0]] + remove_path_rows(
            rows.drop_first(),
            p,
        ));
        assert(remove_path_rows(rows, p)[j + 1].filepath@ == q);
    }
}

/// Removing a list of distinct paths, each of them stored, removes
/// exactly one row per listed path: the count removed is the length of
/// the list.
pub proof fn lemma_removed_count_distinct(rows: Seq<FileEntry>, l: Seq<String>)
    requires
        forall|i: int| 0 <= i < l.len() ==> has_path(rows, (#[trigger] l[i])@),
        forall|i: int, j: int| 0 <= i < j < l.len() ==> l[i]@ != l[j]@,
    ensures
        removed_count(rows, l) == l.len(),
    decreases l.len(),
{
    if l.len() > 0 {
        assert(has_path(rows, l[0]@));
        let rest = remove_path_rows(rows, l[0]@);
        assert forall|i: int| 0 <= i < l.drop_first().len() implies has_path(
            rest,
            (#[trigger] l.drop_first()[i])@,
        ) by {
            assert(l.drop_first()[i] == l[i + 1]);
            assert(has_path(rows, l[i + 1]@));
            assert(l[0]@ != l[i + 1]@);
            lemma_remove_keeps(rows, l[0]@, l[i + 1]@);
        }
        assert forall|i: int, j: int|
            0 <= i < j < l.drop_first().len() implies l.drop_first()[i]@ != l.drop_first()[
            j
        ]@ by {
            assert(l[i + 1]@ != l[j + 1]@);
        }
        lemma_removed_count_distinct(rest, l.drop_first());
    }
}

impl Database {
    /// Record one launch of the given path at the given time: the click
    /// counter of the matching row rises by one and its last access time
    /// becomes `now`; an unknown path is a no-op. On `Err` nothing has
    /// changed in memory.
    pub fn record_click_at(&mut self, filepath: &str, now: i64) -> (r: Result<(), StoreError>)
        requires
            old(self).wf(),
        ensures
            final(self).wf(),
            final(self).meta_entries() == old(self).meta_entries(),
            final(self).next_id_spec() == old(self).next_id_spec(),
            r is Ok ==> click_step(old(self).entries(), filepath@, now, final(self).entries()),
            r is Err ==> final(self).entries() == old(self).entries(),
    {
        if let Err(e) = shims::exec_sql_i64_str(&self.conn, CLICK_SQL, now, filepath) {
            return Err(sql_err(&e));
        }
        match find_row(&self.rows, filepath) {
            None => Ok(()),
            Some(i) => {
                let old_e = self.rows.remove(i);
                let bumped: i64 = if old_e.click_count < i64::MAX {
                    old_e.click_count + 1
                } else {
                    old_e.click_count
                };
                let new_e = FileEntry {
                    id: old_e.id,
                    filename: old_e.filename,
                    filepath: old_e.filepath,
                    extension: old_e.extension,
                    file_size: old_e.file_size,
                    modified_at: old_e.modified_at,
                    file_type: old_e.file_type,
                    click_count: bumped,
                    last_accessed: now,
                    icon_path: old_e.icon_path,
                };
                self.rows.insert(i, new_e);
                proof {
                    let a = old(self).entries();
                    assert(self.rows@ =~= a.update(i as int, new_e));
                    assert(has_path(a, filepath@));
                    let k = path_index(a, filepath@);
                    assert(0 <= k < a.len() && a[k].filepath@ == filepath@);
                    lemma_path_unique(a, old(self).next_id_spec(), k, i as int);
                    assert forall|x: int, y: int|
                        0 <= x < y < self.rows@.len() implies self.rows@[x].filepath@
                        != self.rows@[y].filepath@ && self.rows@[x].id != self.rows@[y].id by {
                        assert(a[x].filepath@ != a[y].filepath@);
                        assert(a[x].id != a[y].id);
                    }
                }
                Ok(())
            },
        }
    }

    /// Record one launch of the given path at the current time.
    pub fn record_click(&mut self, filepath: &str) -> (r: Result<(), StoreError>)
        requires
            old(self).wf(),
        ensures
            final(self).wf(),
            final(self).meta_entries() == old(self).meta_entries(),
            final(self).next_id_spec() == old(self).next_id_spec(),
            r is Ok ==> exists|t: i64|
                click_step(old(self).entries(), filepath@, t, final(self).entries()),
            r is Err ==> final(self).entries() == old(self).entries(),
    {
        let now = shims::now_unix();
        let r = self.record_click_at(filepath, now);
        proof {
            if r is Ok {
                assert(click_step(old(self).entries(), filepath@, now, self.entries()));
            }
        }
        r
    }

    /// Remove the rows holding the listed paths, in order, returning how
    /// many rows were removed. On `Err` some prefix of the list has been
    /// applied.
    pub fn remove_paths(&mut self, paths: &Vec<String>) -> (r: Result<usize, StoreError>)
        requires
            old(self).wf(),
        ensures
            final(self).wf(),
            final(self).meta_entries() == old(self).meta_entries(),
            final(self).next_id_spec() == old(self).next_id_spec(),
            r is Ok ==> final(self).entries() == drop_listed(old(self).entries(), paths@)
                && r.unwrap() as int == removed_count(old(self).entries(), paths@)
                && r.unwrap() as int == old(self).entries().len() - final(self).entries().len(),
            r is Err ==> exists|j: int|
                0 <= j <= paths@.len() && final(self).entries() == drop_listed(
                    old(self).entries(),
                    paths@.take(j),
                ),
    {
        let total: usize = self.rows.len();
        let mut removed: usize = 0;
        let mut i: usize = 0;
        while i < paths.len()
            invariant
                i <= paths@.len(),
                total as int == old(self).entries().len(),
                old(self).wf(),
                self.next_id == old(self).next_id,
                self.meta == old(self).meta,
                rows_wf(self.rows@, self.next_id as int),
                self.rows@ == drop_listed(old(self).entries(), paths@.take(i as int)),
                removed as int == removed_count(old(self).entries(), paths@.take(i as int)),
                removed as int == old(self).entries().len() - self.rows@.len(),
            decreases paths@.len() - i,
        {
            let ghost cur = self.rows@;
            let p = &paths[i];
            match find_row(&self.rows, p.as_str()) {
                None => {
                    proof {
                        lemma_remove_absent(cur, p@);
                        lemma_drop_listed_snoc(
                            old(self).entries(),
                            paths@.take(i as int),
                            paths@[i as int],
                        );
                        assert(paths@.take(i as int).push(paths@[i as int]) =~= paths@.take(i + 1));
                    }
                },
                Some(k) => {
                    if let Err(e) = shims::exec_sql_str(&self.conn, DELETE_SQL, p.as_str()) {
                        proof {
                            assert(self.rows@ == drop_listed(
                                old(self).entries(),
                                paths@.take(i as int),
                            ));
                        }
                        return Err(sql_err(&e));
                    }
                    let _ = self.rows.remove(k);
                    proof {
                        assert(self.rows@.len() + 1 == cur.len());
                        assert(removed as int <= total - 1);
                    }
                    removed = removed + 1;
                    proof {
                        lemma_remove_single(cur, self.next_id as int, p@, k as int);
                        lemma_remove_wf(cur, self.next_id as int, k as int);
                        lemma_drop_listed_snoc(
                            old(self).entries(),
                            paths@.take(i as int),
                            paths@[i as int],
                        );
                        assert(has_path(cur, p@));
                        assert(paths@.take(i as int).push(paths@[i as int]) =~= paths@.take(i + 1));
                    }
                },
            }
            i = i + 1;
        }
        proof {
            assert(paths@.take(paths@.len() as int) =~= paths@);
        }
        Ok(removed)
    }

    /// Probe every stored path on disk and remove the rows whose target
    /// no longer exists, returning how many were removed.
    pub fn remove_missing_files(&mut self) -> (r: Result<usize, StoreError>)
        requires
            old(self).wf(),
        ensures
            final(self).wf(),
            final(self).meta_entries() == old(self).meta_entries(),
            final(self).next_id_spec() == old(self).next_id_spec(),
            r is Ok ==> exists|l: Seq<String>|
                final(self).entries() == drop_listed(old(self).entries(), l) && r.unwrap() as int
                    == removed_count(old(self).entries(), l) && r.unwrap() as int == old(
                    self,
                ).entries().len() - final(self).entries().len() && r.unwrap() as int == l.len()
                    && (forall|i: int|
                    0 <= i < l.len() ==> has_path(old(self).entries(), (#[trigger] l[i])@)),
            r is Err ==> exists|l: Seq<String>|
                final(self).entries() == drop_listed(old(self).entries(), l),
    {
        let mut missing: Vec<String> = Vec::new();
        let mut i: usize = 0;
        while i < self.rows.len()
            invariant
                self == old(self),
                old(self).wf(),
                i <= self.rows@.len(),
                forall|x: int| #![trigger missing@[x]] 0 <= x < missing@.len() ==> exists|k: int|
                    0 <= k < i && missing@[x]@ == (#[trigger] self.rows@[k]).filepath@,
                forall|x: int, y: int| 0 <= x < y < missing@.len() ==> missing@[x]@ != missing@[y]@,
            decreases self.rows@.len() - i,
        {
            let ghost pre_missing = missing@;
            if !shims::path_exists(self.rows[i].filepath.as_str()) {
                missing.push(self.rows[i].filepath.clone());
                proof {
                    assert forall|x: int, y: int|
                        0 <= x < y < missing@.len() implies missing@[x]@ != missing@[y]@ by {
                        if y < pre_missing.len() {
                            assert(pre_missing[x]@ != pre_missing[y]@);
                        } else {
                            assert(missing@[y]@ == self.rows@[i as int].filepath@);
                            assert(missing@[x] == pre_missing[x]);
                            let k = choose|k: int|
                                0 <= k < i && pre_missing[x]@ == (
                                #[trigger] self.rows@[k]).filepath@;
                            assert(self.rows@[k].filepath@ != self.rows@[i as int].filepath@);
                        }
                    }
                }
            }
            i = i + 1;
        }
        proof {
            assert forall|x: int| 0 <= x < missing@.len() implies has_path(
                self.entries(),
                (#[trigger] missing@[x])@,
            ) by {
                let k = choose|k: int|
                    0 <= k < self.rows@.len() && missing@[x]@ == (
                    #[trigger] self.rows@[k]).filepath@;
                assert(self.rows@[k].filepath@ == missing@[x]@);
            }
            lemma_removed_count_distinct(self.entries(), missing@);
        }
        let r = self.remove_paths(&missing);
        proof {
            match r {
                Ok(_) => {
                    assert(self.entries() == drop_listed(old(self).entries(), missing@));
                },
                Err(_) => {
                    let j = choose|j: int|
                        0 <= j <= missing@.len() && self.entries() == drop_listed(
                            old(self).entries(),
                            missing@.take(j),
                        );
                    assert(self.entries() == drop_listed(old(self).entries(), missing@.take(j)));
                },
            }
        }
        match r {
            Ok(n) => Ok(n),
            Err(e) => Err(e),
        }
    }

    /// The number of stored rows.
    pub fn file_count(&self) -> (r: Result<i64, StoreError>)
        requires
            self.wf(),
        ensures
            r is Ok && r.unwrap() as int == self.entries().len(),
    {
        Ok(self.rows.len() as i64)
    }
}

} // verus!

verus! {

/// SQL reading every metadata pair back at open.
pub const LOAD_META_SQL: &'static str = "SELECT key, value FROM index_meta";

/// Some metadata pair has the given key.
pub open spec fn has_key(meta: Seq<(String, String)>, key: Seq<char>) -> bool {
    exists|i: int| 0 <= i < meta.len() && meta[i].0@ == key
}

/// The index of the pair with the given key (meaningful when `has_key`
/// holds and keys are unique).
pub open spec fn key_index(meta: Seq<(String, String)>, key: Seq<char>) -> int {
    choose|i: int| 0 <= i < meta.len() && meta[i].0@ == key
}

/// Find the metadata pair holding a key, if any.
fn find_meta(meta: &Vec<(String, String)>, key: &str) -> (r: Option<usize>)
    ensures
        match r {
            Some(i) => i < meta@.len() && meta@[i as int].0@ == key@,
            None => !has_key(meta@, key@),
        },
{
    let mut i: usize = 0;
    while i < meta.len()
        invariant
            i <= meta@.len(),
            forall|j: int| 0 <= j < i ==> meta@[j].0@ != key@,
        decreases meta@.len() - i,
    {
        if strutil::str_eq(meta[i].0.as_str(), key) {
            return Some(i);
        }
        i = i + 1;
    }
    None
}

/// The pair is stored somewhere in the metadata.
pub open spec fn meta_has_pair(m: Seq<(String, String)>, p: (String, String)) -> bool {
    exists|j: int| 0 <= j < m.len() && (#[trigger] m[j]) == p
}

/// The metadata is unchanged except possibly at the two given keys:
/// every pair under another key survives unchanged, and every pair
/// under another key was already there.
pub open spec fn meta_except(
    a: Seq<(String, String)>,
    b: Seq<(String, String)>,
    k1: Seq<char>,
    k2: Seq<char>,
) -> bool {
    &&& forall|i: int|
        0 <= i < a.len() && a[i].0@ != k1 && a[i].0@ != k2 ==> #[trigger] meta_has_pair(b, a[i])
    &&& forall|j: int|
        0 <= j < b.len() && b[j].0@ != k1 && b[j].0@ != k2 ==> #[trigger] meta_has_pair(a, b[j])
}

/// Unchanged metadata is unchanged-except-anything.
pub proof fn lemma_meta_except_refl(a: Seq<(String, String)>, k1: Seq<char>, k2: Seq<char>)
    ensures
        meta_except(a, a, k1, k2),
{
    assert forall|i: int|
        0 <= i < a.len() && a[i].0@ != k1 && a[i].0@ != k2 implies #[trigger] meta_has_pair(
        a,
        a[i],
    ) by {
        assert(a[i] == a[i]);
    }
}

/// Unchanged-except composes over the same two keys.
pub proof fn lemma_meta_except_trans(
    a: Seq<(String, String)>,
    b: Seq<(String, String)>,
    c: Seq<(String, String)>,
    k1: Seq<char>,
    k2: Seq<char>,
)
    requires
        meta_except(a, b, k1, k2),
        meta_except(b, c, k1, k2),
    ensures
        meta_except(a, c, k1, k2),
{
    assert forall|i: int|
        0 <= i < a.len() && a[i].0@ != k1 && a[i].0@ != k2 implies #[trigger] meta_has_pair(
        c,
        a[i],
    ) by {
        assert(meta_has_pair(b, a[i]));
        let j = choose|j: int| 0 <= j < b.len() && (#[trigger] b[j]) == a[i];
        assert(b[j].0@ != k1 && b[j].0@ != k2);
        assert(meta_has_pair(c, b[j]));
    }
    assert forall|j: int|
        0 <= j < c.len() && c[j].0@ != k1 && c[j].0@ != k2 implies #[trigger] meta_has_pair(
        a,
        c[j],
    ) by {
        assert(meta_has_pair(b, c[j]));
        let i = choose|i: int| 0 <= i < b.len() && (#[trigger] b[i]) == c[j];
        assert(b[i].0@ != k1 && b[i].0@ != k2);
        assert(meta_has_pair(a, b[i]));
    }
}

/// Widening the exception set from one key to a pair holding it.
pub proof fn lemma_meta_except_widen(
    a: Seq<(String, String)>,
    b: Seq<(String, String)>,
    k: Seq<char>,
    k1: Seq<char>,
    k2: Seq<char>,
)
    requires
        meta_except(a, b, k, k),
        k == k1 || k == k2,
    ensures
        meta_except(a, b, k1, k2),
{
    assert forall|i: int|
        0 <= i < a.len() && a[i].0@ != k1 && a[i].0@ != k2 implies #[trigger] meta_has_pair(
        b,
        a[i],
    ) by {
        assert(meta_has_pair(b, a[i]));
    }
    assert forall|j: int|
        0 <= j < b.len() && b[j].0@ != k1 && b[j].0@ != k2 implies #[trigger] meta_has_pair(
        a,
        b[j],
    ) by {
        assert(meta_has_pair(a, b[j]));
    }
}

/// One key-store step: `b` is `a` with `key` set to `val` — replaced
/// in place when the key was present, appended otherwise.
pub open spec fn meta_set_to(
    a: Seq<(String, String)>,
    b: Seq<(String, String)>,
    key: Seq<char>,
    val: Seq<char>,
) -> bool {
    if has_key(a, key) {
        let k = key_index(a, key);
        &&& b.len() == a.len()
        &&& forall|i: int| 0 <= i < a.len() && i != k ==> a[i] == b[i]
        &&& b[k].0@ == key
        &&& b[k].1@ == val
    } else {
        &&& b.len() == a.len() + 1
        &&& forall|i: int| 0 <= i < a.len() ==> a[i] == b[i]
        &&& b.last().0@ == key
        &&& b.last().1@ == val
    }
}

/// A single key-store step (replace at the key, or append it) is
/// unchanged-except at that key.
pub proof fn lemma_meta_set_except(
    a: Seq<(String, String)>,
    b: Seq<(String, String)>,
    key: Seq<char>,
    val: Seq<char>,
)
    requires
        meta_set_to(a, b, key, val),
    ensures
        meta_except(a, b, key, key),
{
    if has_key(a, key) {
        let k = key_index(a, key);
        assert(0 <= k < a.len() && a[k].0@ == key);
        assert forall|i: int|
            0 <= i < a.len() && a[i].0@ != key && a[i].0@ != key implies #[trigger] meta_has_pair(
            b,
            a[i],
        ) by {
            assert(i != k);
            assert(b[i] == a[i]);
        }
        assert forall|j: int|
            0 <= j < b.len() && b[j].0@ != key && b[j].0@ != key implies #[trigger] meta_has_pair(
            a,
            b[j],
        ) by {
            assert(j != k);
            assert(a[j] == b[j]);
        }
    } else {
        assert forall|i: int|
            0 <= i < a.len() && a[i].0@ != key && a[i].0@ != key implies #[trigger] meta_has_pair(
            b,
            a[i],
        ) by {
            assert(b[i] == a[i]);
        }
        assert forall|j: int|
            0 <= j < b.len() && b[j].0@ != key && b[j].0@ != key implies #[trigger] meta_has_pair(
            a,
            b[j],
        ) by {
            assert(j != a.len());
            assert(a[j] == b[j]);
        }
    }
}

/// One row as read back from the on-disk store: identifier, filename,
/// path, extension, size, modification time, type, click count, last
/// access time and icon path.
pub type LoadedRow = (i64, String, String, String, i64, i64, String, i64, i64, Option<String>);

/// The sanitizing fold applied to the rows read back at open, in order:
/// a tuple is accepted when its identifier is at or above the running
/// next free identifier and below the maximum, the row space is not
/// exhausted, and no accepted row already holds its path; an accepted
/// row carries the tuple's fields with a negative click count clamped
/// to zero, and the next free identifier moves just past its
/// identifier.
pub open spec fn ingest_rows_spec(loaded: Seq<LoadedRow>) -> (Seq<FileEntry>, int)
    decreases loaded.len(),
{
    if loaded.len() == 0 {
        (Seq::<FileEntry>::empty(), 0int)
    } else {
        let prefix = ingest_rows_spec(loaded.drop_last());
        let t = loaded.last();
        if t.0 >= prefix.1 && t.0 < i64::MAX && prefix.0.len() < 9223372036854775807
            && !has_path(prefix.0, t.2@) {
            (
                prefix.0.push(
                    FileEntry {
                        id: t.0,
                        filename: t.1,
                        filepath: t.2,
                        extension: t.3,
                        file_size: t.4,
                        modified_at: t.5,
                        file_type: t.6,
                        click_count: if t.7 >= 0 {
                            t.7
                        } else {
                            0i64
                        },
                        last_accessed: t.8,
                        icon_path: t.9,
                    },
                ),
                t.0 + 1,
            )
        } else {
            prefix
        }
    }
}

/// The sanitizing fold applied to the metadata pairs read back at open,
/// in order: a pair is accepted when no accepted pair already holds its
/// key.
pub open spec fn ingest_pairs_spec(pairs: Seq<(String, String)>) -> Seq<(String, String)>
    decreases pairs.len(),
{
    if pairs.len() == 0 {
        Seq::empty()
    } else {
        let prefix = ingest_pairs_spec(pairs.drop_last());
        if !has_key(prefix, pairs.last().0@) {
            prefix.push(pairs.last())
        } else {
            prefix
        }
    }
}

/// Build the in-memory rows from the tuples read back, exactly as
/// `ingest_rows_spec` says, re-establishing the store invariants.
fn ingest_rows(loaded: &Vec<LoadedRow>) -> (r: (Vec<FileEntry>, i64))
    ensures
        r.0@ == ingest_rows_spec(loaded@).0,
        r.1 as int == ingest_rows_spec(loaded@).1,
        rows_wf(r.0@, r.1 as int),
{
    let mut rows: Vec<FileEntry> = Vec::new();
    let mut next_id: i64 = 0;
    let mut i: usize = 0;
    proof {
        assert(loaded@.take(0) =~= Seq::<LoadedRow>::empty());
    }
    while i < loaded.len()
        invariant
            i <= loaded@.len(),
            rows_wf(rows@, next_id as int),
            rows@ == ingest_rows_spec(loaded@.take(i as int)).0,
            next_id as int == ingest_rows_spec(loaded@.take(i as int)).1,
        decreases loaded@.len() - i,
    {
        let ghost t1 = loaded@.take(i + 1);
        proof {
            assert(t1.drop_last() =~= loaded@.take(i as int));
            assert(t1.last() == loaded@[i as int]);
        }
        let t = &loaded[i];
        let ok_id = t.0 >= next_id && t.0 < i64::MAX;
        let ok_len = (rows.len() as u64) < 9223372036854775807u64;
        if ok_id && ok_len {
            if find_row(&rows, t.2.as_str()).is_none() {
                let e = FileEntry {
                    id: t.0,
                    filename: t.1.clone(),
                    filepath: t.2.clone(),
                    extension: t.3.clone(),
                    file_size: t.4,
                    modified_at: t.5,
                    file_type: t.6.clone(),
                    click_count: if t.7 >= 0 {
                        t.7
                    } else {
                        0
                    },
                    last_accessed: t.8,
                    icon_path: clone_opt_string(&t.9),
                };
                let ghost pre = rows@;
                let ghost pre_nid = next_id as int;
                rows.push(e);
                next_id = t.0 + 1;
                proof {
                    assert forall|x: int, y: int|
                        0 <= x < y < rows@.len() implies rows@[x].filepath@
                        != rows@[y].filepath@ && rows@[x].id != rows@[y].id by {
                        if y < pre.len() {
                            assert(pre[x].filepath@ != pre[y].filepath@);
                            assert(pre[x].id != pre[y].id);
                        } else {
                            assert(rows@[y] == e);
                            assert(rows@[x] == pre[x]);
                            assert(!has_path(pre, e.filepath@));
                            assert(pre[x].id < pre_nid);
                            assert(e.id >= pre_nid);
                        }
                    }
                    assert(rows@ == ingest_rows_spec(t1).0);
                }
            }
        }
        i = i + 1;
    }
    proof {
        assert(loaded@.take(loaded@.len() as int) =~= loaded@);
    }
    (rows, next_id)
}

/// Build the in-memory metadata from the pairs read back, exactly as
/// `ingest_pairs_spec` says, re-establishing key uniqueness.
fn ingest_pairs(pairs: &Vec<(String, String)>) -> (r: Vec<(String, String)>)
    ensures
        r@ == ingest_pairs_spec(pairs@),
        meta_wf(r@),
{
    let mut meta: Vec<(String, String)> = Vec::new();
    let mut j: usize = 0;
    proof {
        assert(pairs@.take(0) =~= Seq::<(String, String)>::empty());
    }
    while j < pairs.len()
        invariant
            j <= pairs@.len(),
            meta_wf(meta@),
            meta@ == ingest_pairs_spec(pairs@.take(j as int)),
        decreases pairs@.len() - j,
    {
        let ghost t1 = pairs@.take(j + 1);
        proof {
            assert(t1.drop_last() =~= pairs@.take(j as int));
            assert(t1.last() == pairs@[j as int]);
        }
        let p = &pairs[j];
        if find_meta(&meta, p.0.as_str()).is_none() {
            let ghost pre = meta@;
            meta.push((p.0.clone(), p.1.clone()));
            proof {
                assert forall|x: int, y: int|
                    0 <= x < y < meta@.len() implies meta@[x].0@ != meta@[y].0@ by {
                    if y < pre.len() {
                        assert(pre[x].0@ != pre[y].0@);
                    } else {
                        assert(meta@[y].0@ == p.0@);
                        assert(!has_key(pre, p.0@));
                        assert(meta@[x] == pre[x]);
                    }
                }
                assert(meta@ == ingest_pairs_spec(t1));
            }
        }
        j = j + 1;
    }
    proof {
        assert(pairs@.take(pairs@.len() as int) =~= pairs@);
    }
    meta
}

impl Database {
    /// Store a metadata pair, replacing the value if the key is present.
    /// On `Err` nothing has changed in memory.
    pub fn set_meta(&mut self, key: &str, value: &str) -> (r: Result<(), StoreError>)
        requires
            old(self).wf(),
        ensures
            final(self).wf(),
            final(self).entries() == old(self).entries(),
            final(self).next_id_spec() == old(self).next_id_spec(),
            r is Ok ==> meta_set_to(
                old(self).meta_entries(),
                final(self).meta_entries(),
                key@,
                value@,
            ),
            r is Err ==> final(self).meta_entries() == old(self).meta_entries(),
    {
        if let Err(e) = shims::exec_sql_str2(&self.conn, META_SQL, key, value) {
            return Err(sql_err(&e));
        }
        match find_meta(&self.meta, key) {
            Some(i) => {
                let old_p = self.meta.remove(i);
                self.meta.insert(i, (old_p.0, String::from_str(value)));
                proof {
                    let a = old(self).meta_entries();
                    assert(self.meta@ =~= a.update(
                        i as int,
                        (old_p.0, self.meta@[i as int].1),
                    ));
                    assert(has_key(a, key@));
                    let k = key_index(a, key@);
                    assert(0 <= k < a.len() && a[k].0@ == key@);
                    if k != i as int {
                        if k < i as int {
                            assert(a[k].0@ != a[i as int].0@);
                        } else {
                            assert(a[i as int].0@ != a[k].0@);
                        }
                    }
                    assert forall|x: int, y: int|
                        0 <= x < y < self.meta@.len() implies self.meta@[x].0@
                        != self.meta@[y].0@ by {
                        assert(a[x].0@ != a[y].0@);
                    }
                }
                Ok(())
            },
            None => {
                self.meta.push((String::from_str(key), String::from_str(value)));
                proof {
                    let a = old(self).meta_entries();
                    assert forall|x: int, y: int|
                        0 <= x < y < self.meta@.len() implies self.meta@[x].0@
                        != self.meta@[y].0@ by {
                        if y < a.len() {
                            assert(a[x].0@ != a[y].0@);
                        } else {
                            assert(self.meta@[y].0@ == key@);
                            assert(!has_key(a, key@));
                            assert(self.meta@[x] == a[x]);
                        }
                    }
                }
                Ok(())
            },
        }
    }

    /// Read the value stored for a key, if any.
    pub fn get_meta(&self, key: &str) -> (r: Result<Option<String>, StoreError>)
        requires
            self.wf(),
        ensures
            r is Ok,
            match r {
                Ok(o) => match o {
                    Some(v) => has_key(self.meta_entries(), key@) && v@ == self.meta_entries()[
                        key_index(self.meta_entries(), key@)
                    ].1@,
                    None => !has_key(self.meta_entries(), key@),
                },
                Err(_) => false,
            },
    {
        match find_meta(&self.meta, key) {
            None => Ok(None),
            Some(i) => {
                let v = self.meta[i].1.clone();
                proof {
                    let a = self.meta_entries();
                    assert(has_key(a, key@));
                    let k = key_index(a, key@);
                    assert(0 <= k < a.len() && a[k].0@ == key@);
                    if k != i as int {
                        if k < i as int {
                            assert(a[k].0@ != a[i as int].0@);
                        } else {
                            assert(a[i as int].0@ != a[k].0@);
                        }
                    }
                }
                Ok(Some(v))
            },
        }
    }

    /// Every row's searchable fields, for the exhaustive fuzzy pass:
    /// identifier, filename, path, type, click count, last access time
    /// and modification time.
    pub fn get_all_filenames(&self) -> (r: Result<
        Vec<(i64, String, String, String, i64, i64, i64)>,
        StoreError,
    >)
        requires
            self.wf(),
        ensures
            r is Ok,
            match r {
                Ok(v) => v@.len() == self.entries().len() && forall|i: int|
                    0 <= i < v@.len() ==> v@[i] == (
                        self.entries()[i].id,
                        self.entries()[i].filename,
                        self.entries()[i].filepath,
                        self.entries()[i].file_type,
                        self.entries()[i].click_count,
                        self.entries()[i].last_accessed,
                        self.entries()[i].modified_at,
                    ),
                Err(_) => false,
            },
    {
        let mut v: Vec<(i64, String, String, String, i64, i64, i64)> = Vec::new();
        let mut i: usize = 0;
        while i < self.rows.len()
            invariant
                i <= self.rows@.len(),
                v@.len() == i,
                forall|j: int|
                    0 <= j < i ==> v@[j] == (
                        self.rows@[j].id,
                        self.rows@[j].filename,
                        self.rows@[j].filepath,
                        self.rows@[j].file_type,
                        self.rows@[j].click_count,
                        self.rows@[j].last_accessed,
                        self.rows@[j].modified_at,
                    ),
            decreases self.rows@.len() - i,
        {
            let e = &self.rows[i];
            v.push(
                (
                    e.id,
                    e.filename.clone(),
                    e.filepath.clone(),
                    e.file_type.clone(),
                    e.click_count,
                    e.last_accessed,
                    e.modified_at,
                ),
            );
            i = i + 1;
        }
        Ok(v)
    }

    /// Look a row up by its identifier.
    pub fn get_file_by_id(&self, id: i64) -> (r: Result<Option<FileEntry>, StoreError>)
        requires
            self.wf(),
        ensures
            r is Ok,
            match r {
                Ok(o) => match o {
                    Some(e) => exists|i: int|
                        0 <= i < self.entries().len() && self.entries()[i] == e && e.id == id,
                    None => forall|i: int|
                        0 <= i < self.entries().len() ==> (#[trigger] self.entries()[i]).id != id,
                },
                Err(_) => false,
            },
    {
        let mut i: usize = 0;
        while i < self.rows.len()
            invariant
                i <= self.rows@.len(),
                forall|j: int| 0 <= j < i ==> (#[trigger] self.rows@[j]).id != id,
            decreases self.rows@.len() - i,
        {
            if self.rows[i].id == id {
                return Ok(Some(self.rows[i].clone_entry()));
            }
            i = i + 1;
        }
        Ok(None)
    }

    /// Open (or create) the store at the given path: apply the pragmas,
    /// create the schema if absent, and read the persisted rows and
    /// metadata back into memory. The store built is exactly the
    /// sanitizing fold of the tuples read back: rows as
    /// `ingest_rows_spec` says, metadata as `ingest_pairs_spec` says.
    pub fn open(db_path: &str) -> (r: Result<Database, StoreError>)
        ensures
            r is Ok ==> r.unwrap().wf(),
            r is Ok ==> exists|loaded: Seq<LoadedRow>|
                {
                    &&& (#[trigger] ingest_rows_spec(loaded)).0 == r.unwrap().entries()
                    &&& ingest_rows_spec(loaded).1 == r.unwrap().next_id_spec()
                },
            r is Ok ==> exists|pairs: Seq<(String, String)>|
                #[trigger] ingest_pairs_spec(pairs) == r.unwrap().meta_entries(),
    {
        let conn = match shims::open_sqlite(db_path) {
            Ok(c) => c,
            Err(e) => {
                return Err(sql_err(&e));
            },
        };
        if let Err(e) = shims::exec_sql_batch(&conn, PRAGMA_SQL) {
            return Err(sql_err(&e));
        }
        if let Err(e) = shims::exec_sql_batch(&conn, SCHEMA_SQL) {
            return Err(sql_err(&e));
        }
        let loaded = match shims::load_sqlite_rows(&conn, LOAD_SQL) {
            Ok(v) => v,
            Err(e) => {
                return Err(sql_err(&e));
            },
        };
        let built = ingest_rows(&loaded);
        let pairs = match shims::load_sqlite_pairs(&conn, LOAD_META_SQL) {
            Ok(v) => v,
            Err(e) => {
                return Err(sql_err(&e));
            },
        };
        let meta = ingest_pairs(&pairs);
        proof {
            assert(ingest_rows_spec(loaded@).0 == built.0@);
            assert(ingest_pairs_spec(pairs@) == meta@);
        }
        Ok(Database { conn: conn, rows: built.0, next_id: built.1, meta: meta })
    }
}

} // verus!

verus! {

use crate::shims::lower_of;
use crate::strutil::contains_seq;
use crate::strutil::is_prefix_of;

/// The match tier the prefilter assigns a row for an already-lowercased
/// query: exact filename match above filename prefix match, above
/// filename substring match, above path substring match.
pub open spec fn spec_tier(e: FileEntry, q: Seq<char>) -> int {
    if lower_of(e.filename@) == q {
        100
    } else if is_prefix_of(q, lower_of(e.filename@)) {
        75
    } else if contains_seq(lower_of(e.filename@), q) {
        50
    } else if contains_seq(lower_of(e.filepath@), q) {
        25
    } else {
        0
    }
}

/// The ordering priority of a file type.
pub open spec fn spec_type_priority(t: Seq<char>) -> int {
    if t == "app"@ {
        5
    } else if t == "shortcut"@ {
        4
    } else if t == "document"@ {
        3
    } else if t == "folder"@ {
        2
    } else {
        1
    }
}

/// A row answers the query when its lowercased filename or path contains
/// the lowercased query.
pub open spec fn row_matches(e: FileEntry, q: Seq<char>) -> bool {
    contains_seq(lower_of(e.filename@), q) || contains_seq(lower_of(e.filepath@), q)
}

/// The prefilter's order: `a` may stand at or before `b`. Higher tier
/// first, then type priority, click count, last access and modification
/// time, each descending, with the identifier as the final, ascending
/// tie-break.
pub open spec fn rel_at_or_before(q: Seq<char>, a: FileEntry, b: FileEntry) -> bool {
    let ta = spec_tier(a, q);
    let tb = spec_tier(b, q);
    let pa = spec_type_priority(a.file_type@);
    let pb = spec_type_priority(b.file_type@);
    ||| ta > tb
    ||| (ta == tb && pa > pb)
    ||| (ta == tb && pa == pb && a.click_count > b.click_count)
    ||| (ta == tb && pa == pb && a.click_count == b.click_count && a.last_accessed
        > b.last_accessed)
    ||| (ta == tb && pa == pb && a.click_count == b.click_count && a.last_accessed
        == b.last_accessed && a.modified_at > b.modified_at)
    ||| (ta == tb && pa == pb && a.click_count == b.click_count && a.last_accessed
        == b.last_accessed && a.modified_at == b.modified_at && a.id <= b.id)
}

/// The sequence is ordered by the prefilter's order.
pub open spec fn sorted_rel(q: Seq<char>, s: Seq<FileEntry>) -> bool {
    forall|i: int, j: int| 0 <= i < j < s.len() ==> rel_at_or_before(q, s[i], s[j])
}

/// The subsequence of rows answering the query, in stored order.
pub open spec fn matching_rows(rows: Seq<FileEntry>, q: Seq<char>) -> Seq<FileEntry>
    decreases rows.len(),
{
    if rows.len() == 0 {
        Seq::empty()
    } else if row_matches(rows.last(), q) {
        matching_rows(rows.drop_last(), q).push(rows.last())
    } else {
        matching_rows(rows.drop_last(), q)
    }
}

/// The prefilter's order is total.
pub proof fn lemma_rel_total(q: Seq<char>, a: FileEntry, b: FileEntry)
    ensures
        rel_at_or_before(q, a, b) || rel_at_or_before(q, b, a),
{
}

/// The prefilter's order is transitive.
pub proof fn lemma_rel_trans(q: Seq<char>, a: FileEntry, b: FileEntry, c: FileEntry)
    requires
        rel_at_or_before(q, a, b),
        rel_at_or_before(q, b, c),
    ensures
        rel_at_or_before(q, a, c),
{
}

/// Every stored row answering the query is among `matching_rows`.
pub proof fn lemma_matching_rows_has(rows: Seq<FileEntry>, q: Seq<char>, k: int)
    requires
        0 <= k < rows.len(),
        row_matches(rows[k], q),
    ensures
        matching_rows(rows, q).contains(rows[k]),
    decreases rows.len(),
{
    let mr = matching_rows(rows, q);
    if k == rows.len() - 1 {
        assert(rows.last() == rows[k]);
        assert(mr[mr.len() - 1] == rows[k]);
    } else {
        assert(rows.drop_last()[k] == rows[k]);
        lemma_matching_rows_has(rows.drop_last(), q, k);
        let mrd = matching_rows(rows.drop_last(), q);
        let x = choose|x: int| 0 <= x < mrd.len() && mrd[x] == rows[k];
        if row_matches(rows.last(), q) {
            assert(mr[x] == rows[k]);
        } else {
            assert(mr[x] == rows[k]);
        }
    }
}

/// Lowercase a row's filename and path as character vectors.
fn lower_chars(s: &str) -> (r: Vec<char>)
    ensures
        r@ == lower_of(s@),
{
    let l = shims::to_lower(s);
    strutil::chars_of(l.as_str())
}

/// The match tier of a row, computed.
fn tier_of(e: &FileEntry, lq: &Vec<char>) -> (t: u8)
    ensures
        t as int == spec_tier(*e, lq@),
{
    let lf = lower_chars(e.filename.as_str());
    if strutil::eq_chars(&lf, lq) {
        return 100;
    }
    if strutil::starts_with_chars(&lf, lq) {
        return 75;
    }
    if strutil::contains_chars(&lf, lq) {
        return 50;
    }
    let lp = lower_chars(e.filepath.as_str());
    if strutil::contains_chars(&lp, lq) {
        return 25;
    }
    0
}

/// The ordering priority of a file type, computed.
fn type_priority(t: &str) -> (p: u8)
    ensures
        p as int == spec_type_priority(t@),
{
    if strutil::str_eq(t, "app") {
        5
    } else if strutil::str_eq(t, "shortcut") {
        4
    } else if strutil::str_eq(t, "document") {
        3
    } else if strutil::str_eq(t, "folder") {
        2
    } else {
        1
    }
}

/// Whether `a` may stand at or before `b`, computed.
fn rel_exec(lq: &Vec<char>, a: &FileEntry, b: &FileEntry) -> (r: bool)
    ensures
        r == rel_at_or_before(lq@, *a, *b),
{
    let ta = tier_of(a, lq);
    let tb = tier_of(b, lq);
    if ta != tb {
        return ta > tb;
    }
    let pa = type_priority(a.file_type.as_str());
    let pb = type_priority(b.file_type.as_str());
    if pa != pb {
        return pa > pb;
    }
    if a.click_count != b.click_count {
        return a.click_count > b.click_count;
    }
    if a.last_accessed != b.last_accessed {
        return a.last_accessed > b.last_accessed;
    }
    if a.modified_at != b.modified_at {
        return a.modified_at > b.modified_at;
    }
    a.id <= b.id
}

/// Sort rows by the prefilter's order (insertion sort).
fn sort_entries(lq: &Vec<char>, v: Vec<FileEntry>) -> (r: Vec<FileEntry>)
    ensures
        r@.to_multiset() == v@.to_multiset(),
        sorted_rel(lq@, r@),
        forall|x: int| 0 <= x < r@.len() ==> v@.contains(#[trigger] r@[x]),
        (forall|x: int, y: int| 0 <= x < y < v@.len() ==> v@[x].id != v@[y].id) ==> (forall|
            x: int,
            y: int,
        | 0 <= x < y < r@.len() ==> r@[x].id != r@[y].id),
{
    let mut out: Vec<FileEntry> = Vec::new();
    proof {
        assert(out@ =~= v@.take(0));
    }
    let mut i: usize = 0;
    while i < v.len()
        invariant
            i <= v@.len(),
            out@.to_multiset() == v@.take(i as int).to_multiset(),
            sorted_rel(lq@, out@),
            forall|x: int| #![trigger out@[x]] 0 <= x < out@.len() ==> exists|j: int|
                0 <= j < i && out@[x] == #[trigger] v@[j],
        decreases v@.len() - i,
    {
        broadcast use vstd::seq_lib::group_to_multiset_ensures;

        let e = v[i].clone_entry();
        let mut p: usize = 0;
        while p < out.len() && rel_exec(lq, &out[p], &e)
            invariant
                p <= out@.len(),
                forall|j: int| 0 <= j < p ==> rel_at_or_before(lq@, out@[j], e),
            decreases out@.len() - p,
        {
            p = p + 1;
        }
        let ghost pre = out@;
        out.insert(p, e);
        proof {
            assert forall|x: int| #![trigger out@[x]] 0 <= x < out@.len() implies exists|j: int|
                0 <= j < i + 1 && out@[x] == #[trigger] v@[j] by {
                if x < p {
                    assert(out@[x] == pre[x]);
                    let j = choose|j: int| 0 <= j < i && pre[x] == #[trigger] v@[j];
                    assert(out@[x] == v@[j]);
                } else if x == p {
                    assert(out@[x] == v@[i as int]);
                } else {
                    assert(out@[x] == pre[x - 1]);
                    let j = choose|j: int| 0 <= j < i && pre[x - 1] == #[trigger] v@[j];
                    assert(out@[x] == v@[j]);
                }
            }
            strutil::lemma_insert_to_multiset(pre, p as int, e);
            assert(v@.take(i + 1) =~= v@.take(i as int).push(v@[i as int]));
            assert(v@.take(i + 1).to_multiset() == v@.take(i as int).to_multiset().insert(e));
            if (p as int) < pre.len() {
                assert(!rel_at_or_before(lq@, pre[p as int], e));
                lemma_rel_total(lq@, pre[p as int], e);
                assert(rel_at_or_before(lq@, e, pre[p as int]));
            }
            assert forall|x: int, y: int|
                0 <= x < y < out@.len() implies rel_at_or_before(lq@, out@[x], out@[y]) by {
                if y < p {
                    assert(out@[x] == pre[x] && out@[y] == pre[y]);
                } else if x > p {
                    assert(out@[x] == pre[x - 1] && out@[y] == pre[y - 1]);
                } else if y == p {
                    assert(out@[y] == e);
                    assert(out@[x] == pre[x]);
                    assert(rel_at_or_before(lq@, pre[x], e));
                } else if x == p {
                    assert(out@[x] == e);
                    assert(out@[y] == pre[y - 1]);
                    assert(rel_at_or_before(lq@, e, pre[p as int]));
                    if y - 1 > p {
                        assert(rel_at_or_before(lq@, pre[p as int], pre[y - 1]));
                        lemma_rel_trans(lq@, e, pre[p as int], pre[y - 1]);
                    }
                } else {
                    assert(x < p && y > p);
                    assert(out@[x] == pre[x] && out@[y] == pre[y - 1]);
                    assert(rel_at_or_before(lq@, pre[x], e));
                    assert(rel_at_or_before(lq@, e, pre[p as int]));
                    if y - 1 == p {
                        lemma_rel_trans(lq@, pre[x], e, pre[p as int]);
                    } else {
                        assert(rel_at_or_before(lq@, pre[p as int], pre[y - 1]));
                        lemma_rel_trans(lq@, e, pre[p as int], pre[y - 1]);
                        lemma_rel_trans(lq@, pre[x], e, pre[y - 1]);
                    }
                }
            }
        }
        i = i + 1;
    }
    proof {
        assert(v@.take(v@.len() as int) =~= v@);
        assert forall|x: int| 0 <= x < out@.len() implies v@.contains(#[trigger] out@[x]) by {
            let j = choose|j: int| 0 <= j < v@.len() && out@[x] == #[trigger] v@[j];
            assert(v@[j] == out@[x]);
        }
        if forall|x: int, y: int| 0 <= x < y < v@.len() ==> v@[x].id != v@[y].id {
            assert forall|x: int, y: int|
                0 <= x < y < out@.len() implies out@[x].id != out@[y].id by {
                lemma_sorted_perm_distinct_ids(v@, out@, x, y);
            }
        }
    }
    out
}

/// In a rearrangement whose members all come from a source with pairwise
/// distinct identifiers and whose multiset of members matches, two
/// positions never share an identifier.
proof fn lemma_sorted_perm_distinct_ids(v: Seq<FileEntry>, out: Seq<FileEntry>, x: int, y: int)
    requires
        forall|a: int, b: int| 0 <= a < b < v.len() ==> v[a].id != v[b].id,
        out.to_multiset() == v.to_multiset(),
        forall|a: int| 0 <= a < out.len() ==> v.contains(#[trigger] out[a]),
        0 <= x < y < out.len(),
    ensures
        out[x].id != out[y].id,
{
    broadcast use vstd::seq_lib::group_to_multiset_ensures;

    let a = choose|a: int| 0 <= a < v.len() && v[a] == out[x];
    let b = choose|b: int| 0 <= b < v.len() && v[b] == out[y];
    if out[x].id == out[y].id {
        if a != b {
            if a < b {
                assert(v[a].id != v[b].id);
            } else {
                assert(v[b].id != v[a].id);
            }
        } else {
            assert(out[x] == out[y]);
            let removed = out.remove(x);
            assert(removed.to_multiset() == out.to_multiset().remove(out[x]));
            assert(removed[y - 1] == out[y]);
            assert(removed.contains(out[y]));
            assert(removed.to_multiset().count(out[y]) > 0);
            assert(out.to_multiset().count(out[x]) >= 2);
            assert(v.to_multiset().count(out[x]) >= 2);
            lemma_count_two_indices(v, out[x]);
        }
    }
}

/// A member counted twice in a sequence's multiset stands at two
/// distinct positions.
proof fn lemma_count_two_indices(v: Seq<FileEntry>, e: FileEntry)
    requires
        v.to_multiset().count(e) >= 2,
    ensures
        exists|a: int, b: int| 0 <= a < b < v.len() && v[a] == e && v[b] == e && v[a].id == v[b].id,
    decreases v.len(),
{
    broadcast use vstd::seq_lib::group_to_multiset_ensures;

    assert(v.to_multiset().count(e) > 0);
    assert(v.contains(e));
    let a = choose|a: int| 0 <= a < v.len() && v[a] == e;
    let rest = v.remove(a);
    assert(rest.to_multiset() == v.to_multiset().remove(v[a]));
    assert(rest.to_multiset().count(e) >= 1);
    assert(rest.contains(e));
    let c = choose|c: int| 0 <= c < rest.len() && rest[c] == e;
    if c < a {
        assert(v[c] == rest[c]);
        assert(0 <= c < a < v.len() && v[c] == e && v[a] == e);
    } else {
        assert(v[c + 1] == rest[c]);
        assert(0 <= a < c + 1 < v.len() && v[a] == e && v[c + 1] == e);
    }
}

/// Everything the prefilter promises of its list `v` for stored rows
/// `rows`, an already-lowercased query `q` and a limit: `v` is the
/// take-prefix of a sorted arrangement of exactly the rows answering
/// the query, capped at the limit, with pairwise distinct identifiers;
/// every element is a stored row, and a list under the limit holds
/// every answering row.
pub open spec fn prefilter_post(v: Seq<FileEntry>, rows: Seq<FileEntry>, q: Seq<char>, limit: int) -> bool {
    &&& exists|s: Seq<FileEntry>|
        {
            &&& #[trigger] s.to_multiset() == matching_rows(rows, q).to_multiset()
            &&& sorted_rel(q, s)
            &&& v == s.take(
                if limit <= s.len() {
                    limit
                } else {
                    s.len() as int
                },
            )
        }
    &&& v.len() <= limit
    &&& forall|x: int, y: int| 0 <= x < y < v.len() ==> v[x].id != v[y].id
    &&& forall|x: int| #![trigger v[x]] 0 <= x < v.len() ==> exists|k: int|
        0 <= k < rows.len() && v[x] == #[trigger] rows[k]
    &&& v.len() < limit ==> forall|k: int|
        0 <= k < rows.len() && row_matches(#[trigger] rows[k], q) ==> exists|x: int|
            0 <= x < v.len() && v[x] == rows[k]
}

impl Database {
    /// Up to `limit` rows whose lowercased filename or path contains the
    /// lowercased query, ordered by match tier, type priority, click
    /// count, last access and modification time (each descending), with
    /// the identifier as the tie-break.
    #[verifier::rlimit(100)]
    pub fn search_files(&self, query: &str, limit: usize) -> (r: Result<Vec<FileEntry>, StoreError>)
        requires
            self.wf(),
        ensures
            r is Ok,
            match r {
                Ok(v) => prefilter_post(v@, self.entries(), lower_of(query@), limit as int),
                Err(_) => false,
            },
    {
        let lq = lower_chars(query);
        let mut cand: Vec<FileEntry> = Vec::new();
        let mut i: usize = 0;
        while i < self.rows.len()
            invariant
                self.wf(),
                i <= self.rows@.len(),
                lq@ == lower_of(query@),
                cand@ == matching_rows(self.rows@.take(i as int), lq@),
                forall|x: int| #![trigger cand@[x]] 0 <= x < cand@.len() ==> exists|k: int|
                    0 <= k < i && cand@[x] == #[trigger] self.rows@[k],
                forall|x: int, y: int| 0 <= x < y < cand@.len() ==> cand@[x].id != cand@[y].id,
            decreases self.rows@.len() - i,
        {
            let e = &self.rows[i];
            let lf = lower_chars(e.filename.as_str());
            let lp = lower_chars(e.filepath.as_str());
            let m = if strutil::contains_chars(&lf, &lq) {
                true
            } else {
                strutil::contains_chars(&lp, &lq)
            };
            let ghost pre_cand = cand@;
            if m {
                cand.push(e.clone_entry());
            }
            proof {
                let t1 = self.rows@.take(i + 1);
                assert(t1.drop_last() =~= self.rows@.take(i as int));
                assert(t1.last() == self.rows@[i as int]);
                assert forall|x: int| #![trigger cand@[x]] 0 <= x < cand@.len() implies exists|
                    k: int,
                |
                    0 <= k < i + 1 && cand@[x] == #[trigger] self.rows@[k] by {
                    if x < pre_cand.len() {
                        assert(cand@[x] == pre_cand[x]);
                        let k = choose|k: int|
                            0 <= k < i && pre_cand[x] == #[trigger] self.rows@[k];
                        assert(cand@[x] == self.rows@[k]);
                    } else {
                        assert(cand@[x] == self.rows@[i as int]);
                    }
                }
                assert forall|x: int, y: int|
                    0 <= x < y < cand@.len() implies cand@[x].id != cand@[y].id by {
                    if y < pre_cand.len() {
                        assert(pre_cand[x].id != pre_cand[y].id);
                    } else {
                        assert(cand@[y] == self.rows@[i as int]);
                        let k = choose|k: int|
                            0 <= k < i && pre_cand[x] == #[trigger] self.rows@[k];
                        assert(self.rows@[k].id != self.rows@[i as int].id);
                    }
                }
            }
            i = i + 1;
        }
        proof {
            assert(self.rows@.take(self.rows@.len() as int) =~= self.rows@);
        }
        let sorted = sort_entries(&lq, cand);
        let ghost full = sorted@;
        let mut out: Vec<FileEntry> = Vec::new();
        let mut j: usize = 0;
        while j < sorted.len() && j < limit
            invariant
                j <= full.len(),
                j <= limit,
                sorted@ == full,
                out@ == full.take(j as int),
            decreases full.len() - j,
        {
            out.push(sorted[j].clone_entry());
            proof {
                assert(out@ =~= full.take(j + 1));
            }
            j = j + 1;
        }
        proof {
            broadcast use vstd::seq_lib::group_to_multiset_ensures;

            if limit as int <= full.len() {
                assert(out@ == full.take(limit as int));
            } else {
                assert(out@ =~= full.take(full.len() as int));
            }
            assert(forall|x: int| 0 <= x < out@.len() ==> out@[x] == full[x]);
            assert forall|x: int| #![trigger out@[x]] 0 <= x < out@.len() implies exists|k: int|
                0 <= k < self.entries().len() && out@[x] == #[trigger] self.entries()[k] by {
                assert(cand@.contains(full[x]));
                let c = choose|c: int| 0 <= c < cand@.len() && cand@[c] == full[x];
                let k = choose|k: int|
                    0 <= k < self.rows@.len() && cand@[c] == #[trigger] self.rows@[k];
                assert(out@[x] == self.entries()[k]);
            }
            if out@.len() < limit {
                assert(full.len() < limit);
                assert(out@ =~= full);
                assert forall|k: int|
                    0 <= k < self.entries().len() && row_matches(
                        #[trigger] self.entries()[k],
                        lower_of(query@),
                    ) implies exists|x: int| 0 <= x < out@.len() && out@[x] == self.entries()[k] by {
                    lemma_matching_rows_has(self.rows@, lq@, k);
                    assert(cand@.contains(self.rows@[k]));
                    assert(cand@.to_multiset().count(self.rows@[k]) > 0);
                    assert(full.to_multiset().count(self.rows@[k]) > 0);
                    assert(full.contains(self.rows@[k]));
                    let x = choose|x: int| 0 <= x < full.len() && full[x] == self.rows@[k];
                    assert(out@[x] == self.entries()[k]);
                }
            }
            assert(out@.len() <= limit);
            if forall|x: int, y: int| 0 <= x < y < cand@.len() ==> cand@[x].id != cand@[y].id {
                assert(forall|x: int, y: int| 0 <= x < y < full.len() ==> full[x].id != full[y].id);
            }
            assert forall|x: int, y: int|
                0 <= x < y < out@.len() implies out@[x].id != out@[y].id by {
                assert(out@[x] == full[x] && out@[y] == full[y]);
                assert(full[x].id != full[y].id);
            }
            assert(full.to_multiset() == matching_rows(self.entries(), lower_of(query@)).to_multiset());
            assert(sorted_rel(lower_of(query@), full));
            assert(out@ == full.take(
                if limit as int <= full.len() {
                    limit as int
                } else {
                    full.len() as int
                },
            ));
            assert(prefilter_post(out@, self.entries(), lower_of(query@), limit as int));
        }
        Ok(out)
    }
}

} // verus!
