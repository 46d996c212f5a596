//! Indexer: walks a supplied set of root directories to a bounded depth,
//! classifies every entry, and bulk-writes the results into the storage
//! layer in batches; also reconciles rows whose paths have vanished.

use crate::db;
use crate::db::Database;
use crate::shims;
use crate::shims::lower_of;
use crate::strutil;
use vstd::prelude::*;
use vstd::string::StrSliceExecFns;

verus! {

/// Directories deeper than this below a root are not visited.
pub const MAX_DEPTH: usize = 6;

/// Entries are flushed to the store in batches of this size.
pub const BATCH_SIZE: usize = 500;

/// A path separator.
pub open spec fn is_sep(c: char) -> bool {
    c == '/' || c == '\\'
}

/// The last path component: the suffix after the final separator.
pub open spec fn base_name(p: Seq<char>) -> Seq<char>
    decreases p.len(),
{
    if p.len() == 0 {
        Seq::empty()
    } else if is_sep(p.last()) {
        Seq::empty()
    } else {
        base_name(p.drop_last()).push(p.last())
    }
}

/// The position of the last dot of a name, ignoring a dot in first
/// position; negative if there is none.
pub open spec fn last_dot(n: Seq<char>) -> int
    decreases n.len(),
{
    if n.len() <= 1 {
        -1
    } else if n.last() == '.' {
        n.len() - 1
    } else {
        last_dot(n.drop_last())
    }
}

/// The extension of a name: what follows its last dot, empty when the
/// name has no dot past its first character.
pub open spec fn ext_of(n: Seq<char>) -> Seq<char> {
    if last_dot(n) >= 1 {
        n.subrange(last_dot(n) + 1, n.len() as int)
    } else {
        Seq::empty()
    }
}

/// A suffix holding no separator, cut just after a separator (or at the
/// start), is the base name.
proof fn lemma_base_name(p: Seq<char>, from: int)
    requires
        0 <= from <= p.len(),
        forall|k: int| from <= k < p.len() ==> !is_sep(#[trigger] p[k]),
        from > 0 ==> is_sep(p[from - 1]),
    ensures
        base_name(p) == p.subrange(from, p.len() as int),
    decreases p.len(),
{
    if from == p.len() {
        if p.len() > 0 {
            assert(is_sep(p.last()));
        }
        assert(p.subrange(from, p.len() as int) =~= Seq::<char>::empty());
    } else {
        assert(!is_sep(p.last()));
        assert forall|k: int| from <= k < p.drop_last().len() implies !is_sep(
            #[trigger] p.drop_last()[k],
        ) by {
            assert(p.drop_last()[k] == p[k]);
        }
        if from > 0 {
            assert(p.drop_last()[from - 1] == p[from - 1]);
        }
        lemma_base_name(p.drop_last(), from);
        assert(p.drop_last().subrange(from, p.len() - 1) =~= p.subrange(from, p.len() - 1));
        assert(p.subrange(from, p.len() - 1).push(p.last()) =~= p.subrange(from, p.len() as int));
    }
}

/// A dot past the first position with none after it is the last dot.
proof fn lemma_last_dot(n: Seq<char>, d: int)
    requires
        1 <= d < n.len(),
        n[d] == '.',
        forall|k: int| d < k < n.len() ==> n[k] != '.',
    ensures
        last_dot(n) == d,
    decreases n.len(),
{
    if d == n.len() - 1 {
    } else {
        assert(n.last() != '.');
        assert forall|k: int| d < k < n.drop_last().len() implies n.drop_last()[k] != '.' by {
            assert(n.drop_last()[k] == n[k]);
        }
        assert(n.drop_last()[d] == n[d]);
        lemma_last_dot(n.drop_last(), d);
    }
}

/// A name without a dot past its first character has no last dot.
proof fn lemma_no_dot(n: Seq<char>)
    requires
        forall|k: int| 1 <= k < n.len() ==> n[k] != '.',
    ensures
        last_dot(n) <= 0,
    decreases n.len(),
{
    if n.len() > 1 {
        assert(n.last() != '.');
        assert forall|k: int| 1 <= k < n.drop_last().len() implies n.drop_last()[k] != '.' by {
            assert(n.drop_last()[k] == n[k]);
        }
        lemma_no_dot(n.drop_last());
    }
}

/// The last path component of a path string.
pub fn base_name_of(path: &str) -> (r: String)
    ensures
        r@ == base_name(path@),
{
    let cs = strutil::chars_of(path);
    let mut from: usize = 0;
    let mut i: usize = 0;
    while i < cs.len()
        invariant
            from <= i <= cs@.len(),
            cs@ == path@,
            from > 0 ==> is_sep(path@[from - 1]),
            forall|k: int| from <= k < i ==> !is_sep(#[trigger] path@[k]),
        decreases cs@.len() - i,
    {
        if cs[i] == '/' || cs[i] == '\\' {
            from = i + 1;
        }
        i = i + 1;
    }
    let r = path.substring_char(from, cs.len()).to_owned();
    proof {
        lemma_base_name(path@, from as int);
    }
    r
}

/// The extension of a name, empty when it has none.
pub fn extension_of(name: &str) -> (r: String)
    ensures
        r@ == ext_of(name@),
{
    let cs = strutil::chars_of(name);
    let mut j: usize = cs.len();
    while j > 1
        invariant
            j <= cs@.len(),
            cs@ == name@,
            forall|k: int| j <= k < name@.len() ==> name@[k] != '.',
        decreases j,
    {
        if cs[j - 1] == '.' {
            let r = name.substring_char(j, cs.len()).to_owned();
            proof {
                lemma_last_dot(name@, j - 1);
            }
            return r;
        }
        j = j - 1;
    }
    proof {
        lemma_no_dot(name@);
    }
    String::new()
}

/// The classifier's verdict for a lowercased extension, a lowercased
/// path and the directory test, checked in this exact order: launchable
/// extensions first, shortcuts, directories, document, image and source
/// extensions, start-menu residents, and everything else.
pub open spec fn spec_classify(el: Seq<char>, pl: Seq<char>, is_dir: bool) -> Seq<char> {
    if el == "exe"@ || el == "msi"@ || el == "appx"@ || el == "msix"@ {
        "app"@
    } else if el == "lnk"@ || el == "url"@ {
        "shortcut"@
    } else if is_dir {
        "folder"@
    } else if el == "pdf"@ || el == "doc"@ || el == "docx"@ || el == "xls"@ || el == "xlsx"@ || el
        == "ppt"@ || el == "pptx"@ || el == "txt"@ || el == "md"@ || el == "csv"@ || el == "rtf"@
        || el == "odt"@ || el == "ods"@ || el == "odp"@ {
        "document"@
    } else if el == "png"@ || el == "jpg"@ || el == "jpeg"@ || el == "gif"@ || el == "bmp"@ || el
        == "svg"@ || el == "webp"@ || el == "ico"@ {
        "image"@
    } else if el == "rs"@ || el == "py"@ || el == "js"@ || el == "ts"@ || el == "jsx"@ || el
        == "tsx"@ || el == "java"@ || el == "c"@ || el == "cpp"@ || el == "h"@ || el == "cs"@ || el
        == "go"@ || el == "rb"@ || el == "php"@ || el == "html"@ || el == "css"@ || el == "json"@
        || el == "xml"@ || el == "yaml"@ || el == "yml"@ || el == "toml"@ {
        "code"@
    } else if strutil::contains_seq(pl, "start menu"@) {
        "app"@
    } else {
        "other"@
    }
}

/// Classify an entry from its extension, its full path and whether it
/// is currently a directory.
pub fn classify_file(extension: &str, filepath: &str, is_dir: bool) -> (r: String)
    ensures
        r@ == spec_classify(lower_of(extension@), lower_of(filepath@), is_dir),
{
    let el = shims::to_lower(extension);
    let e = el.as_str();
    if strutil::str_eq(e, "exe") || strutil::str_eq(e, "msi") || strutil::str_eq(e, "appx")
        || strutil::str_eq(e, "msix") {
        return String::from_str("app");
    }
    if strutil::str_eq(e, "lnk") || strutil::str_eq(e, "url") {
        return String::from_str("shortcut");
    }
    if is_dir {
        return String::from_str("folder");
    }
    if strutil::str_eq(e, "pdf") || strutil::str_eq(e, "doc") || strutil::str_eq(e, "docx")
        || strutil::str_eq(e, "xls") || strutil::str_eq(e, "xlsx") || strutil::str_eq(e, "ppt")
        || strutil::str_eq(e, "pptx") || strutil::str_eq(e, "txt") || strutil::str_eq(e, "md")
        || strutil::str_eq(e, "csv") || strutil::str_eq(e, "rtf") || strutil::str_eq(e, "odt")
        || strutil::str_eq(e, "ods") || strutil::str_eq(e, "odp") {
        return String::from_str("document");
    }
    if strutil::str_eq(e, "png") || strutil::str_eq(e, "jpg") || strutil::str_eq(e, "jpeg")
        || strutil::str_eq(e, "gif") || strutil::str_eq(e, "bmp") || strutil::str_eq(e, "svg")
        || strutil::str_eq(e, "webp") || strutil::str_eq(e, "ico") {
        return String::from_str("image");
    }
    if strutil::str_eq(e, "rs") || strutil::str_eq(e, "py") || strutil::str_eq(e, "js")
        || strutil::str_eq(e, "ts") || strutil::str_eq(e, "jsx") || strutil::str_eq(e, "tsx")
        || strutil::str_eq(e, "java") || strutil::str_eq(e, "c") || strutil::str_eq(e, "cpp")
        || strutil::str_eq(e, "h") || strutil::str_eq(e, "cs") || strutil::str_eq(e, "go")
        || strutil::str_eq(e, "rb") || strutil::str_eq(e, "php") || strutil::str_eq(e, "html")
        || strutil::str_eq(e, "css") || strutil::str_eq(e, "json") || strutil::str_eq(e, "xml")
        || strutil::str_eq(e, "yaml") || strutil::str_eq(e, "yml") || strutil::str_eq(e, "toml") {
        return String::from_str("code");
    }
    let pl = shims::to_lower(filepath);
    let plc = strutil::chars_of(pl.as_str());
    let needle = strutil::chars_of("start menu");
    proof {
        reveal_strlit("start menu");
    }
    if strutil::contains_chars(&plc, &needle) {
        return String::from_str("app");
    }
    String::from_str("other")
}

/// Whether a directory name is on the skip list, compared without case.
pub fn should_skip_dir(name: &str, skip: &Vec<String>) -> (r: bool)
    ensures
        r == exists|i: int|
            0 <= i < skip@.len() && lower_of(name@) == lower_of((#[trigger] skip@[i])@),
{
    let ln = shims::to_lower(name);
    let mut i: usize = 0;
    while i < skip.len()
        invariant
            i <= skip@.len(),
            ln@ == lower_of(name@),
            forall|j: int| 0 <= j < i ==> lower_of(name@) != lower_of((#[trigger] skip@[j])@),
        decreases skip@.len() - i,
    {
        let ls = shims::to_lower(skip[i].as_str());
        if strutil::str_eq(ln.as_str(), ls.as_str()) {
            return true;
        }
        i = i + 1;
    }
    false
}

/// A tuple the walk assembles is consistent: its filename is the
/// path's non-empty last component, its stored extension is the
/// lowercased extension of that name, and its type is the classifier's
/// verdict on that extension and path, for one of the two possible
/// directory answers.
pub open spec fn batch_tuple_wf(t: db::IndexTuple) -> bool {
    &&& t.0@ == base_name(t.1@)
    &&& t.0@.len() > 0
    &&& t.2@ == lower_of(ext_of(t.0@))
    &&& (t.5@ == spec_classify(lower_of(ext_of(t.0@)), lower_of(t.1@), true) || t.5@
        == spec_classify(lower_of(ext_of(t.0@)), lower_of(t.1@), false))
}

/// Every tuple of every chunk is consistent.
pub open spec fn chunks_wf(chunks: Seq<Seq<db::IndexTuple>>) -> bool {
    forall|i: int, j: int|
        0 <= i < chunks.len() && 0 <= j < chunks[i].len() ==> batch_tuple_wf(
            #[trigger] chunks[i][j],
        )
}

/// The saturating step of the walk's running total.
pub open spec fn sat_add(t: int, n: int) -> int {
    if t <= usize::MAX - n {
        t + n
    } else {
        t
    }
}

/// The walk's returned count: the chunk sizes added in order,
/// saturating at the machine limit.
pub open spec fn sat_total(chunks: Seq<Seq<db::IndexTuple>>) -> int
    decreases chunks.len(),
{
    if chunks.len() == 0 {
        0
    } else {
        sat_add(sat_total(chunks.drop_last()), chunks.last().len() as int)
    }
}

/// One flush either left the store unchanged (a tolerated write-through
/// failure, marked by an empty trace) or reached the new store by
/// upserting the chunk, element by element.
pub open spec fn flush_ok_at(
    trace: Seq<(Seq<db::FileEntry>, int)>,
    chunk: Seq<db::IndexTuple>,
    a: (Seq<db::FileEntry>, int),
    b: (Seq<db::FileEntry>, int),
) -> bool {
    ||| (b == a && trace.len() == 0)
    ||| (db::chain_holds(trace, chunk) && trace.len() > 0 && trace[0] == a && trace.last() == b)
}

/// A complete walk witness: the chunks assembled (each tuple
/// consistent), the store between flushes, and one trace per flush; the
/// count is the saturating total of the chunk sizes.
pub open spec fn walk_witness(
    rows0: Seq<db::FileEntry>,
    nid0: int,
    rows1: Seq<db::FileEntry>,
    nid1: int,
    n: int,
    chunks: Seq<Seq<db::IndexTuple>>,
    states: Seq<(Seq<db::FileEntry>, int)>,
    traces: Seq<Seq<(Seq<db::FileEntry>, int)>>,
) -> bool {
    &&& states.len() == chunks.len() + 1
    &&& traces.len() == chunks.len()
    &&& states[0] == (rows0, nid0)
    &&& states.last() == (rows1, nid1)
    &&& chunks_wf(chunks)
    &&& n == sat_total(chunks)
    &&& forall|i: int|
        0 <= i < chunks.len() ==> flush_ok_at(#[trigger] traces[i], chunks[i], states[i], states[i + 1])
}

/// The store went from `rows0` to `rows1` by chunked flushes of
/// consistent assembled entries, and the walk reported the saturating
/// total of the chunk sizes.
pub open spec fn indexed_outcome(
    rows0: Seq<db::FileEntry>,
    nid0: int,
    rows1: Seq<db::FileEntry>,
    nid1: int,
    n: int,
) -> bool {
    exists|w: (Seq<Seq<db::IndexTuple>>, Seq<(Seq<db::FileEntry>, int)>, Seq<Seq<(Seq<db::FileEntry>, int)>>)|
        #[trigger] walk_witness(rows0, nid0, rows1, nid1, n, w.0, w.1, w.2)
}

/// A timestamp write: the metadata is unchanged (the write-through
/// failed) or equals the old metadata with the key set to the decimal
/// rendering of some moment.
pub open spec fn stamp_step(
    a: Seq<(String, String)>,
    b: Seq<(String, String)>,
    key: Seq<char>,
) -> bool {
    b == a || exists|t: i64|
        #[trigger] db::meta_set_to(a, b, key, strutil::spec_i64_string(t as int))
}

/// Walk every root directory to the depth bound, classify each entry
/// that survives the hidden-name and skip-list pruning, and upsert the
/// results in batches, flushing every full batch and the remainder at
/// the end; a failed flush is skipped, not fatal. Records the time of
/// the pass under `last_full_index` and returns how many entries were
/// handed to the store. Usage history (identifiers, click counts and
/// access times) of rows already present is never touched.
pub fn full_index(db: &mut Database, roots: &Vec<String>, skip: &Vec<String>) -> (r: Result<
    usize,
    String,
>)
    requires
        old(db).wf(),
    ensures
        final(db).wf(),
        r is Ok,
        db::preserves_usage(old(db).entries(), final(db).entries()),
        db::meta_except(
            old(db).meta_entries(),
            final(db).meta_entries(),
            "last_full_index"@,
            "last_full_index"@,
        ),
        stamp_step(old(db).meta_entries(), final(db).meta_entries(), "last_full_index"@),
        indexed_outcome(
            old(db).entries(),
            old(db).next_id_spec(),
            final(db).entries(),
            final(db).next_id_spec(),
            r.unwrap() as int,
        ),
{
    let mut total: usize = 0;
    let mut batch: Vec<(String, String, String, i64, i64, String)> = Vec::new();
    let ghost mut chunks: Seq<Seq<db::IndexTuple>> = Seq::empty();
    let ghost mut states: Seq<(Seq<db::FileEntry>, int)> = seq![
        (old(db).entries(), old(db).next_id_spec()),
    ];
    let ghost mut traces: Seq<Seq<(Seq<db::FileEntry>, int)>> = Seq::empty();
    proof {
        lemma_usage_refl(db.entries());
    }
    let mut ri: usize = 0;
    while ri < roots.len()
        invariant
            db.wf(),
            db::preserves_usage(old(db).entries(), db.entries()),
            db.meta_entries() == old(db).meta_entries(),
            states.len() == chunks.len() + 1,
            traces.len() == chunks.len(),
            states[0] == (old(db).entries(), old(db).next_id_spec()),
            states.last() == (db.entries(), db.next_id_spec()),
            chunks_wf(chunks),
            total as int == sat_total(chunks),
            forall|i: int|
                0 <= i < chunks.len() ==> flush_ok_at(
                    #[trigger] traces[i],
                    chunks[i],
                    states[i],
                    states[i + 1],
                ),
            forall|j: int| 0 <= j < batch@.len() ==> batch_tuple_wf(#[trigger] batch@[j]),
        decreases roots@.len() - ri,
    {
        let mut it = shims::walk_new(roots[ri].as_str(), MAX_DEPTH, true);
        let mut steps: u64 = 0xffffffffffffffff;
        while steps > 0
            invariant
                db.wf(),
                db::preserves_usage(old(db).entries(), db.entries()),
                db.meta_entries() == old(db).meta_entries(),
                states.len() == chunks.len() + 1,
                traces.len() == chunks.len(),
                states[0] == (old(db).entries(), old(db).next_id_spec()),
                states.last() == (db.entries(), db.next_id_spec()),
                chunks_wf(chunks),
                total as int == sat_total(chunks),
                forall|i: int|
                    0 <= i < chunks.len() ==> flush_ok_at(
                        #[trigger] traces[i],
                        chunks[i],
                        states[i],
                        states[i + 1],
                    ),
                forall|j: int| 0 <= j < batch@.len() ==> batch_tuple_wf(#[trigger] batch@[j]),
            decreases steps,
        {
            steps = steps - 1;
            match shims::walk_next(&mut it) {
                None => {
                    break ;
                },
                Some(step) => {
                    match step {
                        None => {},
                        Some(entry) => {
                            let path = shims::entry_path(&entry);
                            let fname = base_name_of(path.as_str());
                            if fname.as_str().unicode_len() > 0 {
                                let is_dir = shims::entry_is_dir(&entry);
                                let hidden = fname.as_str().get_char(0) == '.';
                                if is_dir && (hidden || should_skip_dir(fname.as_str(), skip)) {
                                    shims::walk_skip_current(&mut it);
                                } else {
                                    match shims::entry_stat(&entry) {
                                        None => {},
                                        Some(st) => {
                                            let ext = extension_of(fname.as_str());
                                            let file_size: i64 = if st.0 {
                                                #[verifier::truncate] (st.1 as i64)
                                            } else {
                                                0
                                            };
                                            let modified_at: i64 = match st.2 {
                                                Some(m) => m,
                                                None => 0,
                                            };
                                            let ftype = classify_file(
                                                ext.as_str(),
                                                path.as_str(),
                                                is_dir,
                                            );
                                            let ext_store = shims::to_lower(ext.as_str());
                                            let ghost pre_batch = batch@;
                                            batch.push(
                                                (
                                                    fname,
                                                    path,
                                                    ext_store,
                                                    file_size,
                                                    modified_at,
                                                    ftype,
                                                ),
                                            );
                                            proof {
                                                assert(batch_tuple_wf(batch@.last()));
                                                assert(forall|j: int|
                                                    0 <= j < pre_batch.len() ==> batch@[j]
                                                        == pre_batch[j]);
                                            }
                                            if batch.len() >= BATCH_SIZE {
                                                let ghost pre = db.entries();
                                                let ghost pre_state = (
                                                    db.entries(),
                                                    db.next_id_spec(),
                                                );
                                                let ghost chunk = batch@;
                                                total = flush_batch(db, &mut batch, total);
                                                proof {
                                                    db::lemma_preserves_usage_trans(
                                                        old(db).entries(),
                                                        pre,
                                                        db.entries(),
                                                    );
                                                    let tr = choose|trace: Seq<(Seq<db::FileEntry>, int)>|
                                                        #[trigger] flush_ok_at(
                                                            trace,
                                                            chunk,
                                                            pre_state,
                                                            (db.entries(), db.next_id_spec()),
                                                        );
                                                    let ghost pre_chunks = chunks;
                                                    let ghost pre_states = states;
                                                    let ghost pre_traces = traces;
                                                    chunks = chunks.push(chunk);
                                                    states = states.push(
                                                        (db.entries(), db.next_id_spec()),
                                                    );
                                                    traces = traces.push(tr);
                                                    assert(chunks.drop_last() =~= pre_chunks);
                                                    assert(chunks.last() == chunk);
                                                    assert forall|i: int, j: int|
                                                        0 <= i < chunks.len() && 0 <= j
                                                            < chunks[i].len() implies batch_tuple_wf(
                                                        #[trigger] chunks[i][j],
                                                    ) by {
                                                        if i < pre_chunks.len() {
                                                            assert(chunks[i] == pre_chunks[i]);
                                                            assert(batch_tuple_wf(
                                                                pre_chunks[i][j],
                                                            ));
                                                        } else {
                                                            assert(chunks[i] == chunk);
                                                            assert(batch_tuple_wf(chunk[j]));
                                                        }
                                                    }
                                                    assert forall|i: int|
                                                        0 <= i < chunks.len() implies flush_ok_at(
                                                        #[trigger] traces[i],
                                                        chunks[i],
                                                        states[i],
                                                        states[i + 1],
                                                    ) by {
                                                        if i < pre_chunks.len() {
                                                            assert(traces[i] == pre_traces[i]);
                                                            assert(chunks[i] == pre_chunks[i]);
                                                            assert(states[i] == pre_states[i]);
                                                            assert(states[i + 1] == pre_states[i
                                                                + 1]);
                                                        } else {
                                                            assert(traces[i] == tr);
                                                            assert(states[i] == pre_state);
                                                        }
                                                    }
                                                }
                                            }
                                        },
                                    }
                                }
                            }
                        },
                    }
                },
            }
        }
        ri = ri + 1;
    }
    if batch.len() > 0 {
        let ghost pre = db.entries();
        let ghost pre_state = (db.entries(), db.next_id_spec());
        let ghost chunk = batch@;
        total = flush_batch(db, &mut batch, total);
        proof {
                                                    db::lemma_preserves_usage_trans(
                                                        old(db).entries(),
                                                        pre,
                                                        db.entries(),
                                                    );
                                                    let tr = choose|trace: Seq<(Seq<db::FileEntry>, int)>|
                                                        #[trigger] flush_ok_at(
                                                            trace,
                                                            chunk,
                                                            pre_state,
                                                            (db.entries(), db.next_id_spec()),
                                                        );
                                                    let ghost pre_chunks = chunks;
                                                    let ghost pre_states = states;
                                                    let ghost pre_traces = traces;
                                                    chunks = chunks.push(chunk);
                                                    states = states.push(
                                                        (db.entries(), db.next_id_spec()),
                                                    );
                                                    traces = traces.push(tr);
                                                    assert(chunks.drop_last() =~= pre_chunks);
                                                    assert(chunks.last() == chunk);
                                                    assert forall|i: int, j: int|
                                                        0 <= i < chunks.len() && 0 <= j
                                                            < chunks[i].len() implies batch_tuple_wf(
                                                        #[trigger] chunks[i][j],
                                                    ) by {
                                                        if i < pre_chunks.len() {
                                                            assert(chunks[i] == pre_chunks[i]);
                                                            assert(batch_tuple_wf(
                                                                pre_chunks[i][j],
                                                            ));
                                                        } else {
                                                            assert(chunks[i] == chunk);
                                                            assert(batch_tuple_wf(chunk[j]));
                                                        }
                                                    }
                                                    assert forall|i: int|
                                                        0 <= i < chunks.len() implies flush_ok_at(
                                                        #[trigger] traces[i],
                                                        chunks[i],
                                                        states[i],
                                                        states[i + 1],
                                                    ) by {
                                                        if i < pre_chunks.len() {
                                                            assert(traces[i] == pre_traces[i]);
                                                            assert(chunks[i] == pre_chunks[i]);
                                                            assert(states[i] == pre_states[i]);
                                                            assert(states[i + 1] == pre_states[i
                                                                + 1]);
                                                        } else {
                                                            assert(traces[i] == tr);
                                                            assert(states[i] == pre_state);
                                                        }
                                                    }
                                                }
    }
    let now = shims::now_unix();
    let stamp = strutil::i64_to_string(now);
    let ghost pre_meta = db.meta_entries();
    let stamped = db.set_meta("last_full_index", stamp.as_str());
    proof {
        match stamped {
            Ok(_) => {
                db::lemma_meta_set_except(
                    pre_meta,
                    db.meta_entries(),
                    "last_full_index"@,
                    stamp@,
                );
                assert(db::meta_set_to(
                    pre_meta,
                    db.meta_entries(),
                    "last_full_index"@,
                    strutil::spec_i64_string(now as int),
                ));
                assert(stamp_step(pre_meta, db.meta_entries(), "last_full_index"@));
            },
            Err(_) => {
                db::lemma_meta_except_refl(pre_meta, "last_full_index"@, "last_full_index"@);
                assert(stamp_step(pre_meta, db.meta_entries(), "last_full_index"@));
            },
        }
        let w = (chunks, states, traces);
        assert(walk_witness(
            old(db).entries(),
            old(db).next_id_spec(),
            db.entries(),
            db.next_id_spec(),
            total as int,
            w.0,
            w.1,
            w.2,
        ));
        assert(indexed_outcome(
            old(db).entries(),
            old(db).next_id_spec(),
            db.entries(),
            db.next_id_spec(),
            total as int,
        ));
    }
    Ok(total)
}

/// Usage preservation is reflexive over rows with unique paths.
proof fn lemma_usage_refl(a: Seq<crate::db::FileEntry>)
    requires
        forall|i: int, j: int| 0 <= i < j < a.len() ==> a[i].filepath@ != a[j].filepath@,
    ensures
        db::preserves_usage(a, a),
{
    assert forall|i: int| 0 <= i < a.len() implies db::has_path(
        a,
        (#[trigger] a[i]).filepath@,
    ) by {
        assert(a[i].filepath@ == a[i].filepath@);
    }
    assert forall|i: int, j: int|
        0 <= i < a.len() && 0 <= j < a.len() && a[i].filepath@ == a[j].filepath@ implies {
        &&& a[j].id == a[i].id
        &&& a[j].click_count == a[i].click_count
        &&& a[j].last_accessed == a[i].last_accessed
    } by {
        if i < j {
            assert(a[i].filepath@ != a[j].filepath@);
        } else if j < i {
            assert(a[j].filepath@ != a[i].filepath@);
        }
    }
}

/// Flush one batch into the store: a failure is tolerated (the store is
/// then untouched; earlier batches stay committed), the batch is
/// emptied either way, and the running total grows by the batch size
/// (saturating). The store either stays as it was or is reached from it
/// by upserting exactly the batch, in order.
fn flush_batch(
    db: &mut Database,
    batch: &mut Vec<(String, String, String, i64, i64, String)>,
    total: usize,
) -> (r: usize)
    requires
        old(db).wf(),
    ensures
        final(db).wf(),
        final(db).meta_entries() == old(db).meta_entries(),
        db::preserves_usage(old(db).entries(), final(db).entries()),
        final(batch)@.len() == 0,
        r as int == sat_add(total as int, old(batch)@.len() as int),
        exists|trace: Seq<(Seq<db::FileEntry>, int)>|
            #[trigger] flush_ok_at(
                trace,
                old(batch)@,
                (old(db).entries(), old(db).next_id_spec()),
                (final(db).entries(), final(db).next_id_spec()),
            ),
{
    let n = batch.len();
    let ghost pre = db.entries();
    let res = db.upsert_files_batch(batch);
    proof {
        match res {
            Ok(_) => {
                let states = choose|states: Seq<(Seq<crate::db::FileEntry>, int)>|
                    #[trigger] db::chain_holds(states, batch@) && states[0] == (
                        pre,
                        old(db).next_id_spec(),
                    ) && states.last() == (db.entries(), db.next_id_spec());
                db::lemma_chain_wf_usage(states, batch@);
                assert(states.len() == batch@.len() + 1);
                assert(flush_ok_at(
                    states,
                    batch@,
                    (old(db).entries(), old(db).next_id_spec()),
                    (db.entries(), db.next_id_spec()),
                ));
            },
            Err(_) => {
                lemma_usage_refl(pre);
                assert(flush_ok_at(
                    Seq::<(Seq<db::FileEntry>, int)>::empty(),
                    batch@,
                    (old(db).entries(), old(db).next_id_spec()),
                    (db.entries(), db.next_id_spec()),
                ));
            },
        }
    }
    batch.clear();
    if total <= usize::MAX - n {
        total + n
    } else {
        total
    }
}

/// Reconcile vanished paths, then re-walk everything. On success the
/// pair returned is (entries handed to the store by the re-walk, rows
/// removed by reconciliation): there is a removed-list of distinct
/// stored paths whose removal produced the intermediate store, the
/// removed count is its length, and the re-walk then took the store
/// from that intermediate state to the final one by chunked flushes of
/// consistent entries whose saturating total is the indexed count, with
/// usage history preserved throughout. The metadata is unchanged except
/// at the two timestamp keys, each of which is either untouched (a
/// failed write-through) or set to the decimal rendering of a moment.
/// On failure (only reconciliation can fail) the rows are a
/// reconciliation prefix of the old store — nothing added — and the
/// metadata is untouched.
pub fn incremental_index(db: &mut Database, roots: &Vec<String>, skip: &Vec<String>) -> (r: Result<
    (usize, usize),
    String,
>)
    requires
        old(db).wf(),
    ensures
        final(db).wf(),
        r is Ok ==> exists|l: Seq<String>|
            {
                &&& #[trigger] db::removed_count(old(db).entries(), l) == r.unwrap().1 as int
                &&& r.unwrap().1 as int == l.len()
                &&& forall|i: int|
                    0 <= i < l.len() ==> db::has_path(old(db).entries(), (#[trigger] l[i])@)
                &&& db::preserves_usage(
                    db::drop_listed(old(db).entries(), l),
                    final(db).entries(),
                )
                &&& indexed_outcome(
                    db::drop_listed(old(db).entries(), l),
                    old(db).next_id_spec(),
                    final(db).entries(),
                    final(db).next_id_spec(),
                    r.unwrap().0 as int,
                )
            },
        r is Ok ==> db::meta_except(
            old(db).meta_entries(),
            final(db).meta_entries(),
            "last_full_index"@,
            "last_incremental_index"@,
        ),
        r is Ok ==> exists|m1: Seq<(String, String)>|
            {
                &&& #[trigger] stamp_step(old(db).meta_entries(), m1, "last_full_index"@)
                &&& stamp_step(m1, final(db).meta_entries(), "last_incremental_index"@)
            },
        r is Err ==> exists|l: Seq<String>|
            final(db).entries() == #[trigger] db::drop_listed(old(db).entries(), l),
        r is Err ==> final(db).meta_entries() == old(db).meta_entries(),
{
    let ghost rows0 = db.entries();
    let ghost meta0 = db.meta_entries();
    let removed = match db.remove_missing_files() {
        Ok(n) => n,
        Err(e) => {
            return Err(e.message);
        },
    };
    let ghost l = choose|l: Seq<String>|
        db.entries() == db::drop_listed(rows0, l) && removed as int == db::removed_count(rows0, l)
            && removed as int == rows0.len() - db.entries().len() && removed as int == l.len() && (
        forall|i: int| 0 <= i < l.len() ==> db::has_path(rows0, (#[trigger] l[i])@));
    let ghost mid_rows = db.entries();
    let ghost meta1 = db.meta_entries();
    proof {
        assert(meta1 == meta0);
        assert(mid_rows == db::drop_listed(rows0, l));
    }
    let indexed = match full_index(db, roots, skip) {
        Ok(n) => n,
        Err(e) => {
            return Err(e);
        },
    };
    let ghost meta2 = db.meta_entries();
    let ghost rows2 = db.entries();
    let ghost nid2 = db.next_id_spec();
    proof {
        db::lemma_meta_except_widen(
            meta1,
            meta2,
            "last_full_index"@,
            "last_full_index"@,
            "last_incremental_index"@,
        );
        assert(stamp_step(meta0, meta2, "last_full_index"@));
        assert(indexed_outcome(mid_rows, old(db).next_id_spec(), rows2, nid2, indexed as int));
    }
    let now = shims::now_unix();
    let stamp = strutil::i64_to_string(now);
    let stamped = db.set_meta("last_incremental_index", stamp.as_str());
    proof {
        let meta3 = db.meta_entries();
        match stamped {
            Ok(_) => {
                db::lemma_meta_set_except(meta2, meta3, "last_incremental_index"@, stamp@);
                db::lemma_meta_except_widen(
                    meta2,
                    meta3,
                    "last_incremental_index"@,
                    "last_full_index"@,
                    "last_incremental_index"@,
                );
                assert(db::meta_set_to(
                    meta2,
                    meta3,
                    "last_incremental_index"@,
                    strutil::spec_i64_string(now as int),
                ));
                assert(stamp_step(meta2, meta3, "last_incremental_index"@));
            },
            Err(_) => {
                db::lemma_meta_except_refl(
                    meta3,
                    "last_full_index"@,
                    "last_incremental_index"@,
                );
                assert(stamp_step(meta2, meta3, "last_incremental_index"@));
            },
        }
        db::lemma_meta_except_trans(
            meta0,
            meta2,
            db.meta_entries(),
            "last_full_index"@,
            "last_incremental_index"@,
        );
        assert(db::preserves_usage(mid_rows, rows2));
        assert(db.entries() == rows2);
        assert(db.next_id_spec() == nid2);
        assert(indexed_outcome(
            mid_rows,
            old(db).next_id_spec(),
            db.entries(),
            db.next_id_spec(),
            indexed as int,
        ));
        assert(stamp_step(meta0, meta2, "last_full_index"@));
    }
    Ok((indexed, removed))
}

} // verus!