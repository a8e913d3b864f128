//! Scan classification: which files are audio, and what a scan does with
//! each file it finds compared to the stored library row.

use vstd::prelude::*;

use crate::paths::{extension, extension_chars};
use crate::playlist::{norm, norm_path};
use crate::text::chars_of;

verus! {

/// Audio extensions recognized by the scanner (the supported formats of
/// the player).
pub const SUPPORTED_EXTENSIONS: [&'static str; 14] = [
    "flac",
    "wav",
    "mp3",
    "aac",
    "m4a",
    "ogg",
    "oga",
    "opus",
    "wv",
    "aiff",
    "aif",
    "wma",
    "dsf",
    "dff",
];

/// Code point of `c` with ASCII uppercase letters folded to lowercase.
pub open spec fn fold_code(c: char) -> u32 {
    if 65 <= (c as u32) && (c as u32) <= 90 {
        ((c as u32) + 32) as u32
    } else {
        c as u32
    }
}

/// ASCII case-insensitive equality (`str::eq_ignore_ascii_case`).
pub open spec fn eq_ignore_ascii_case(a: Seq<char>, b: Seq<char>) -> bool {
    &&& a.len() == b.len()
    &&& forall|i: int| 0 <= i < a.len() ==> fold_code(#[trigger] a[i]) == fold_code(b[i])
}

/// `ext` names one of the supported formats (any ASCII case).
pub open spec fn is_supported_extension(ext: Seq<char>) -> bool {
    exists|i: int| 0 <= i < 14 && eq_ignore_ascii_case(ext, (#[trigger] SUPPORTED_EXTENSIONS@[i])@)
}

/// `path` has a supported audio extension.
pub open spec fn is_supported_path(path: Seq<char>) -> bool {
    match extension(path) {
        Some(ext) => is_supported_extension(ext),
        None => false,
    }
}

fn fold(c: char) -> (r: u32)
    ensures
        r == fold_code(c),
{
    let v = c as u32;
    if 65 <= v && v <= 90 {
        v + 32
    } else {
        v
    }
}

fn chars_eq_ignore_ascii_case(a: &Vec<char>, b: &Vec<char>) -> (r: bool)
    ensures
        r == eq_ignore_ascii_case(a@, b@),
{
    if a.len() != b.len() {
        return false;
    }
    let mut i: usize = 0;
    while i < a.len()
        invariant
            a@.len() == b@.len(),
            i <= a@.len(),
            forall|j: int| 0 <= j < i ==> fold_code(#[trigger] a@[j]) == fold_code(b@[j]),
        decreases a.len() - i,
    {
        if fold(a[i]) != fold(b[i]) {
            return false;
        }
        i += 1;
    }
    true
}

/// Whether `path` has a recognized audio extension (case-insensitive).
pub fn is_supported_audio(path: &str) -> (r: bool)
    ensures
        r == is_supported_path(path@),
{
    let p = chars_of(path);
    match extension_chars(&p) {
        None => false,
        Some(ext) => {
            let mut i: usize = 0;
            while i < 14
                invariant
                    i <= 14,
                    extension(path@) == Some(ext@),
                    forall|j: int|
                        0 <= j < i ==> !eq_ignore_ascii_case(
                            ext@,
                            (#[trigger] SUPPORTED_EXTENSIONS@[j])@,
                        ),
                decreases 14 - i,
            {
                let e = SUPPORTED_EXTENSIONS[i];
                assert(e == SUPPORTED_EXTENSIONS@[i as int]);
                let s = chars_of(e);
                if chars_eq_ignore_ascii_case(&ext, &s) {
                    assert(eq_ignore_ascii_case(ext@, SUPPORTED_EXTENSIONS@[i as int]@));
                    return true;
                }
                i += 1;
            }
            false
        },
    }
}

/// What to do with a file found on disk, compared to the database row.
#[derive(Debug, Clone, Copy, PartialEq, Eq, Structural)]
pub enum FileState {
    /// Not in the database yet — insert.
    New,
    /// Present but modified (mtime or size changed) — re-read tags, update.
    Changed,
    /// Present and unchanged — skip.
    Unchanged,
}

pub open spec fn classify(
    db_modified: Option<i64>,
    db_size: Option<i64>,
    fs_modified: i64,
    fs_size: i64,
) -> FileState {
    match (db_modified, db_size) {
        (None, _) => FileState::New,
        (Some(m), Some(s)) => if m == fs_modified && s == fs_size {
            FileState::Unchanged
        } else {
            FileState::Changed
        },
        _ => FileState::Changed,
    }
}

/// Classify a file using the recorded row (mtime/size) vs the filesystem
/// stat. `db_modified`/`db_size` are `None` when there is no row yet.
pub fn classify_file(
    db_modified: Option<i64>,
    db_size: Option<i64>,
    fs_modified: i64,
    fs_size: i64,
) -> (r: FileState)
    ensures
        r == classify(db_modified, db_size, fs_modified, fs_size),
{
    match (db_modified, db_size) {
        (None, _) => FileState::New,
        (Some(m), Some(s)) => if m == fs_modified && s == fs_size {
            FileState::Unchanged
        } else {
            FileState::Changed
        },
        _ => FileState::Changed,
    }
}

pub open spec fn string_views(v: Seq<String>) -> Seq<Seq<char>> {
    v.map_values(|s: String| s@)
}

/// The entries of `stored` that do not occur in `found`, in order.
pub open spec fn stale(stored: Seq<Seq<char>>, found: Seq<Seq<char>>) -> Seq<Seq<char>>
    decreases stored.len(),
{
    if stored.len() == 0 {
        Seq::empty()
    } else {
        let rest = stale(stored.drop_last(), found);
        if found.contains(stored.last()) {
            rest
        } else {
            rest.push(stored.last())
        }
    }
}

fn contains_string(v: &[String], s: &String) -> (r: bool)
    ensures
        r == string_views(v@).contains(s@),
{
    let mut i: usize = 0;
    while i < v.len()
        invariant
            i <= v@.len(),
            forall|j: int| 0 <= j < i ==> (#[trigger] v@[j])@ != s@,
        decreases v.len() - i,
    {
        if v[i] == *s {
            proof {
                assert(string_views(v@)[i as int] == s@);
            }
            return true;
        }
        i += 1;
    }
    proof {
        if string_views(v@).contains(s@) {
            let k = choose|k: int| 0 <= k < string_views(v@).len() && string_views(v@)[k] == s@;
            assert(v@[k]@ == s@);
        }
    }
    false
}

/// Stored paths that were not found again (e.g. on disk), in stored
/// order.
pub fn find_stale(stored: &[String], found: &[String]) -> (r: Vec<String>)
    ensures
        string_views(r@) == stale(string_views(stored@), string_views(found@)),
{
    let mut r: Vec<String> = Vec::new();
    let mut i: usize = 0;
    while i < stored.len()
        invariant
            i <= stored@.len(),
            string_views(r@) == stale(string_views(stored@).take(i as int), string_views(found@)),
        decreases stored.len() - i,
    {
        let ghost pre = string_views(stored@).take(i + 1);
        proof {
            assert(pre.drop_last() == string_views(stored@).take(i as int));
            assert(pre.last() == stored@[i as int]@);
        }
        if !contains_string(found, &stored[i]) {
            let ghost before = r@;
            r.push(stored[i].clone());
            proof {
                assert(string_views(r@) == string_views(before).push(stored@[i as int]@));
            }
        }
        i += 1;
    }
    assert(string_views(stored@).take(stored@.len() as int) == string_views(stored@));
    r
}


// ---------------------------------------------------------------------
// Incremental scan bookkeeping
// ---------------------------------------------------------------------

/// What a folder scan is asked to do.
#[derive(Debug, Clone)]
pub struct ScanOptions {
    /// Root folder to walk recursively.
    pub root: String,
    /// Remove stored tracks whose files no longer exist on disk.
    pub clean_missing: bool,
}

/// Mirrors a scan in progress (also used as the final report).
#[derive(Debug, Clone, Default, PartialEq, Eq)]
pub struct ScanProgress {
    pub total_files: usize,
    pub scanned: usize,
    pub added: usize,
    pub updated: usize,
    pub skipped: usize,
    pub removed: usize,
    pub errors: usize,
}

/// What happened to one file of a scan.
#[derive(Debug, Clone, Copy, PartialEq, Eq, Structural)]
pub enum FileOutcome {
    /// The file could not be stat'ed; it is not counted as scanned.
    StatFailed,
    /// Unchanged since the stored row; skipped.
    Unchanged,
    /// Tags read and a new row stored.
    Added,
    /// Tags read and the stored row updated.
    Updated,
    /// The tags could not be read (corrupt or unsupported file).
    ReadFailed,
}

/// Outcome of a successful tag read and upsert for a file in `state`.
pub fn upsert_outcome(state: FileState) -> (r: FileOutcome)
    ensures
        r == (if state == FileState::New {
            FileOutcome::Added
        } else {
            FileOutcome::Updated
        }),
{
    match state {
        FileState::New => FileOutcome::Added,
        _ => FileOutcome::Updated,
    }
}

/// A report for a scan over `total` files before any file was counted.
pub open spec fn fresh_report(total: usize) -> ScanProgress {
    ScanProgress {
        total_files: total,
        scanned: 0,
        added: 0,
        updated: 0,
        skipped: 0,
        removed: 0,
        errors: 0,
    }
}

/// `p` after one more file with outcome `o`: every outcome but a failed
/// stat counts as scanned, and exactly one of skipped/added/updated/errors
/// grows.
pub open spec fn recorded(p: ScanProgress, o: FileOutcome) -> ScanProgress {
    ScanProgress {
        total_files: p.total_files,
        scanned: if o == FileOutcome::StatFailed {
            p.scanned
        } else {
            (p.scanned + 1) as usize
        },
        added: if o == FileOutcome::Added {
            (p.added + 1) as usize
        } else {
            p.added
        },
        updated: if o == FileOutcome::Updated {
            (p.updated + 1) as usize
        } else {
            p.updated
        },
        skipped: if o == FileOutcome::Unchanged {
            (p.skipped + 1) as usize
        } else {
            p.skipped
        },
        removed: p.removed,
        errors: if o == FileOutcome::StatFailed || o == FileOutcome::ReadFailed {
            (p.errors + 1) as usize
        } else {
            p.errors
        },
    }
}

impl ScanProgress {
    /// A fresh report for a scan over `total` files.
    pub fn started(total: usize) -> (r: ScanProgress)
        ensures
            r == fresh_report(total),
    {
        ScanProgress {
            total_files: total,
            scanned: 0,
            added: 0,
            updated: 0,
            skipped: 0,
            removed: 0,
            errors: 0,
        }
    }

    /// Count one file's outcome: every outcome but a failed stat counts as
    /// scanned, and exactly one of skipped/added/updated/errors grows.
    pub fn record(&mut self, outcome: FileOutcome)
        requires
            old(self).scanned < usize::MAX,
            old(self).added < usize::MAX,
            old(self).updated < usize::MAX,
            old(self).skipped < usize::MAX,
            old(self).errors < usize::MAX,
        ensures
            *final(self) == recorded(*old(self), outcome),
            final(self).total_files == old(self).total_files,
            final(self).removed == old(self).removed,
            final(self).scanned == old(self).scanned + (if outcome == FileOutcome::StatFailed {
                0int
            } else {
                1int
            }),
            final(self).skipped == old(self).skipped + (if outcome == FileOutcome::Unchanged {
                1int
            } else {
                0int
            }),
            final(self).added == old(self).added + (if outcome == FileOutcome::Added {
                1int
            } else {
                0int
            }),
            final(self).updated == old(self).updated + (if outcome == FileOutcome::Updated {
                1int
            } else {
                0int
            }),
            final(self).errors == old(self).errors + (if outcome == FileOutcome::StatFailed
                || outcome == FileOutcome::ReadFailed {
                1int
            } else {
                0int
            }),
    {
        match outcome {
            FileOutcome::StatFailed => {
                self.errors += 1;
            },
            FileOutcome::Unchanged => {
                self.skipped += 1;
                self.scanned += 1;
            },
            FileOutcome::Added => {
                self.added += 1;
                self.scanned += 1;
            },
            FileOutcome::Updated => {
                self.updated += 1;
                self.scanned += 1;
            },
            FileOutcome::ReadFailed => {
                self.errors += 1;
                self.scanned += 1;
            },
        }
    }
}

/// A progress report is due after every `every` scanned files.
pub fn progress_due(scanned: usize, every: usize) -> (r: bool)
    requires
        every > 0,
    ensures
        r == (scanned % every == 0),
{
    scanned % every == 0
}

/// A stored track file: its lookup key, original path, modification time
/// and size.
pub struct StoredFile {
    pub key: String,
    pub path: String,
    pub modified: i64,
    pub size: i64,
}

pub open spec fn stored_key(f: StoredFile) -> Seq<char> {
    f.key@
}

/// Index the stored `(path, modified, size)` rows by normalized path.
pub fn index_stored(rows: &[(String, i64, i64)]) -> (r: Vec<StoredFile>)
    ensures
        r@.len() == rows@.len(),
        forall|i: int|
            0 <= i < rows@.len() ==> {
                &&& (#[trigger] r@[i]).key@ == norm_path(rows@[i].0@)
                &&& r@[i].path@ == rows@[i].0@
                &&& r@[i].modified == rows@[i].1
                &&& r@[i].size == rows@[i].2
            },
{
    let mut r: Vec<StoredFile> = Vec::new();
    let mut i: usize = 0;
    while i < rows.len()
        invariant
            i <= rows@.len(),
            r@.len() == i,
            forall|j: int|
                0 <= j < i ==> {
                    &&& (#[trigger] r@[j]).key@ == norm_path(rows@[j].0@)
                    &&& r@[j].path@ == rows@[j].0@
                    &&& r@[j].modified == rows@[j].1
                    &&& r@[j].size == rows@[j].2
                },
        decreases rows.len() - i,
    {
        let row = &rows[i];
        r.push(
            StoredFile {
                key: norm(row.0.as_str()),
                path: row.0.clone(),
                modified: row.1,
                size: row.2,
            },
        );
        i += 1;
    }
    r
}

/// Position of the last stored file with `key`, or -1.
pub open spec fn last_with_key(index: Seq<StoredFile>, key: Seq<char>) -> int
    decreases index.len(),
{
    if index.len() == 0 {
        -1
    } else if index.last().key@ == key {
        index.len() - 1
    } else {
        last_with_key(index.drop_last(), key)
    }
}

/// How a file found on disk compares to the library: the last stored row
/// with the same normalized path decides (later rows replace earlier ones
/// with the same key); no such row means a new file.
pub open spec fn file_state(index: Seq<StoredFile>, path: Seq<char>, modified: i64, size: i64) -> FileState {
    let k = last_with_key(index, norm_path(path));
    if k < 0 {
        FileState::New
    } else {
        classify(Some(index[k].modified), Some(index[k].size), modified, size)
    }
}

proof fn lemma_last_with_key_unshadowed(index: Seq<StoredFile>, i: int)
    requires
        0 <= i < index.len(),
        forall|j: int| i < j < index.len() ==> (#[trigger] index[j]).key@ != index[i].key@,
    ensures
        last_with_key(index, index[i].key@) == i,
    decreases index.len(),
{
    if i < index.len() - 1 {
        let d = index.drop_last();
        assert forall|j: int| i < j < d.len() implies (#[trigger] d[j]).key@ != d[i].key@ by {
            assert(d[j] == index[j]);
        }
        lemma_last_with_key_unshadowed(d, i);
        assert(d[i] == index[i]);
    }
}

/// Rescanning files that did not change since they were stored skips
/// them: for a stored row that no later row with the same normalized path
/// replaces, its own path with its stored modification time and size is
/// unchanged, and any other time or size is a change.
pub proof fn law_rescan_skips_unchanged_files(
    index: Seq<StoredFile>,
    i: int,
    modified: i64,
    size: i64,
)
    requires
        0 <= i < index.len(),
        index[i].key@ == norm_path(index[i].path@),
        !shadowed(index, i),
    ensures
        file_state(index, index[i].path@, index[i].modified, index[i].size)
            == FileState::Unchanged,
        (modified != index[i].modified || size != index[i].size) ==> file_state(
            index,
            index[i].path@,
            modified,
            size,
        ) == FileState::Changed,
{
    assert forall|j: int| i < j < index.len() implies (#[trigger] index[j]).key@
        != index[i].key@ by {
        if index[j].key@ == index[i].key@ {
            assert(shadowed(index, i));
        }
    }
    lemma_last_with_key_unshadowed(index, i);
}

/// A file whose normalized path no stored row has is new.
pub proof fn law_unknown_file_is_new(index: Seq<StoredFile>, path: Seq<char>, modified: i64, size: i64)
    requires
        forall|j: int| 0 <= j < index.len() ==> (#[trigger] index[j]).key@ != norm_path(path),
    ensures
        file_state(index, path, modified, size) == FileState::New,
    decreases index.len(),
{
    if index.len() > 0 {
        let d = index.drop_last();
        assert forall|j: int| 0 <= j < d.len() implies (#[trigger] d[j]).key@ != norm_path(path) by {
            assert(d[j] == index[j]);
        }
        law_unknown_file_is_new(d, path, modified, size);
    }
}

/// Classify the file at `path` (modification time and size from disk)
/// against the stored rows.
pub fn lookup_state(index: &[StoredFile], path: &str, modified: i64, size: i64) -> (r: FileState)
    ensures
        r == file_state(index@, path@, modified, size),
{
    let key = norm(path);
    let mut k: usize = index.len();
    assert(index@.take(k as int) == index@);
    while k > 0 && index[k - 1].key != key
        invariant
            k <= index@.len(),
            last_with_key(index@, key@) == last_with_key(index@.take(k as int), key@),
        decreases k,
    {
        assert(index@.take(k as int).drop_last() == index@.take(k - 1));
        k -= 1;
    }
    if k == 0 {
        FileState::New
    } else {
        assert(index@.take(k as int).last() == index@[k - 1]);
        let row = &index[k - 1];
        classify_file(Some(row.modified), Some(row.size), modified, size)
    }
}

/// Some later row has the same key as row `i`.
pub open spec fn shadowed(index: Seq<StoredFile>, i: int) -> bool {
    exists|j: int| i < j < index.len() && (#[trigger] index[j]).key@ == index[i].key@
}

/// Original paths of the stored rows that are the last for their key, in
/// stored order: the files a pruning pass checks on disk.
pub open spec fn prune_candidates(index: Seq<StoredFile>) -> Seq<Seq<char>>
    decreases index.len(),
{
    if index.len() == 0 {
        Seq::empty()
    } else {
        let rest = prune_candidates(index.drop_first());
        if shadowed(index, 0) {
            rest
        } else {
            seq![index[0].path@] + rest
        }
    }
}

proof fn lemma_shadowed_skip(index: Seq<StoredFile>, i: int)
    requires
        0 <= i < index.len(),
    ensures
        shadowed(index, i) == shadowed(index.skip(i), 0),
{
    let s = index.skip(i);
    if shadowed(index, i) {
        let j = choose|j: int| i < j < index.len() && (#[trigger] index[j]).key@ == index[i].key@;
        assert(s[j - i] == index[j]);
    }
    if shadowed(s, 0) {
        let j = choose|j: int| 0 < j < s.len() && (#[trigger] s[j]).key@ == s[0].key@;
        assert(s[j] == index[j + i]);
    }
}

/// Paths of the stored rows to check for pruning (see
/// [`prune_candidates`]).
pub fn stale_candidates(index: &[StoredFile]) -> (r: Vec<String>)
    ensures
        string_views(r@) == prune_candidates(index@),
{
    let n = index.len();
    let mut out: Vec<String> = Vec::new();
    let mut i: usize = n;
    assert(index@.skip(n as int) =~= Seq::<StoredFile>::empty());
    while i > 0
        invariant
            i <= n == index@.len(),
            string_views(out@) == prune_candidates(index@.skip(i as int)),
        decreases i,
    {
        i -= 1;
        let mut later = false;
        let mut j: usize = i + 1;
        while j < n
            invariant
                i < j <= n == index@.len(),
                later == exists|m: int| i < m < j && (#[trigger] index@[m]).key@ == index@[i as int].key@,
            decreases n - j,
        {
            if index[j].key == index[i].key {
                later = true;
            }
            j += 1;
        }
        proof {
            lemma_shadowed_skip(index@, i as int);
            let s = index@.skip(i as int);
            assert(s.drop_first() == index@.skip(i + 1));
            assert(s[0] == index@[i as int]);
        }
        if !later {
            let ghost before = out@;
            let p = index[i].path.clone();
            let mut next: Vec<String> = Vec::new();
            next.push(p);
            let mut k: usize = 0;
            while k < out.len()
                invariant
                    k <= out@.len(),
                    next@.len() == k + 1,
                    next@[0]@ == index@[i as int].path@,
                    forall|m: int| 0 <= m < k ==> next@[m + 1]@ == (#[trigger] out@[m])@,
                decreases out.len() - k,
            {
                next.push(out[k].clone());
                k += 1;
            }
            assert(string_views(next@) =~= seq![index@[i as int].path@] + string_views(out@));
            out = next;
        }
    }
    assert(index@.skip(0) == index@);
    out
}


// ---------------------------------------------------------------------
// One file of a folder scan, and the whole scan
// ---------------------------------------------------------------------

/// What a scan does with one file it found.
#[derive(Debug, Clone, Copy, PartialEq, Eq, Structural)]
pub enum FileAction {
    /// Count the file with this outcome; nothing else to do.
    Count(FileOutcome),
    /// Read the file's tags and store its track; the file is new or changed.
    ReadTags(FileState),
}

/// The action for the file at `path` given its modification time and size
/// (`None` when it could not be stat'ed): a failed stat is counted, an
/// unchanged file is skipped, a new or changed one has its tags read.
pub open spec fn file_action(
    index: Seq<StoredFile>,
    path: Seq<char>,
    stat: Option<(i64, i64)>,
) -> FileAction {
    match stat {
        None => FileAction::Count(FileOutcome::StatFailed),
        Some((m, s)) => {
            let st = file_state(index, path, m, s);
            if st == FileState::Unchanged {
                FileAction::Count(FileOutcome::Unchanged)
            } else {
                FileAction::ReadTags(st)
            }
        },
    }
}

/// Decide what a folder scan does with the file at `path`.
pub fn decide_file(index: &[StoredFile], path: &str, stat: Option<(i64, i64)>) -> (r: FileAction)
    ensures
        r == file_action(index@, path@, stat),
{
    match stat {
        None => FileAction::Count(FileOutcome::StatFailed),
        Some((m, s)) => {
            let st = lookup_state(index, path, m, s);
            match st {
                FileState::Unchanged => FileAction::Count(FileOutcome::Unchanged),
                _ => FileAction::ReadTags(st),
            }
        },
    }
}

/// The outcome of reading the tags of a file in `state`: stored as added
/// (new file) or updated, or a read failure.
pub open spec fn read_result(state: FileState, readable: bool) -> FileOutcome {
    if !readable {
        FileOutcome::ReadFailed
    } else if state == FileState::New {
        FileOutcome::Added
    } else {
        FileOutcome::Updated
    }
}

/// Outcome of a tag read (see [`read_result`]).
pub fn read_outcome(state: FileState, readable: bool) -> (r: FileOutcome)
    ensures
        r == read_result(state, readable),
{
    if !readable {
        FileOutcome::ReadFailed
    } else {
        upsert_outcome(state)
    }
}

/// The outcome of one file of a folder scan: its path, its stat (`None`
/// when it failed) and whether its tags can be read.
pub open spec fn file_outcome(
    index: Seq<StoredFile>,
    f: (Seq<char>, Option<(i64, i64)>, bool),
) -> FileOutcome {
    match file_action(index, f.0, f.1) {
        FileAction::Count(o) => o,
        FileAction::ReadTags(st) => read_result(st, f.2),
    }
}

/// The report after counting `files` in order, starting from `p`.
pub open spec fn report_after(
    p: ScanProgress,
    index: Seq<StoredFile>,
    files: Seq<(Seq<char>, Option<(i64, i64)>, bool)>,
) -> ScanProgress
    decreases files.len(),
{
    if files.len() == 0 {
        p
    } else {
        recorded(report_after(p, index, files.drop_last()), file_outcome(index, files.last()))
    }
}

/// How many of `files` end with outcome `o`.
pub open spec fn count_outcome(
    index: Seq<StoredFile>,
    files: Seq<(Seq<char>, Option<(i64, i64)>, bool)>,
    o: FileOutcome,
) -> nat
    decreases files.len(),
{
    if files.len() == 0 {
        0
    } else {
        count_outcome(index, files.drop_last(), o) + (if file_outcome(index, files.last()) == o {
            1nat
        } else {
            0nat
        })
    }
}

/// A scan's report counts every file once: added, updated, skipped and
/// failed files are exactly the files with that outcome, and every file
/// that could be stat'ed counts as scanned.
pub proof fn law_scan_report_counts(
    index: Seq<StoredFile>,
    files: Seq<(Seq<char>, Option<(i64, i64)>, bool)>,
)
    requires
        files.len() < usize::MAX,
    ensures
        ({
            let r = report_after(fresh_report(files.len() as usize), index, files);
            &&& r.total_files == files.len()
            &&& r.added == count_outcome(index, files, FileOutcome::Added)
            &&& r.updated == count_outcome(index, files, FileOutcome::Updated)
            &&& r.skipped == count_outcome(index, files, FileOutcome::Unchanged)
            &&& r.errors == count_outcome(index, files, FileOutcome::StatFailed) + count_outcome(
                index,
                files,
                FileOutcome::ReadFailed,
            )
            &&& r.scanned == files.len() - count_outcome(index, files, FileOutcome::StatFailed)
            &&& r.removed == 0
        }),
{
    lemma_report_prefix(fresh_report(files.len() as usize), index, files);
}

proof fn lemma_report_prefix(
    p: ScanProgress,
    index: Seq<StoredFile>,
    files: Seq<(Seq<char>, Option<(i64, i64)>, bool)>,
)
    requires
        p.scanned == 0,
        p.added == 0,
        p.updated == 0,
        p.skipped == 0,
        p.removed == 0,
        p.errors == 0,
        files.len() < usize::MAX,
    ensures
        ({
            let r = report_after(p, index, files);
            &&& r.total_files == p.total_files
            &&& r.added == count_outcome(index, files, FileOutcome::Added)
            &&& r.updated == count_outcome(index, files, FileOutcome::Updated)
            &&& r.skipped == count_outcome(index, files, FileOutcome::Unchanged)
            &&& r.errors == count_outcome(index, files, FileOutcome::StatFailed) + count_outcome(
                index,
                files,
                FileOutcome::ReadFailed,
            )
            &&& r.scanned + count_outcome(index, files, FileOutcome::StatFailed) == files.len()
            &&& r.removed == 0
            &&& r.added + r.updated + r.skipped + r.errors <= files.len()
        }),
    decreases files.len(),
{
    if files.len() > 0 {
        lemma_report_prefix(p, index, files.drop_last());
    }
}

/// The file was stat'ed and matches a stored row that no later row
/// replaces: same normalized path, modification time and size.
pub open spec fn matches_stored_row(
    index: Seq<StoredFile>,
    f: (Seq<char>, Option<(i64, i64)>, bool),
) -> bool {
    exists|j: int|
        0 <= j < index.len() && !shadowed(index, j) && (#[trigger] index[j]).key@ == norm_path(f.0)
            && f.1 == Some((index[j].modified, index[j].size))
}

/// Rescanning a folder whose files all match their stored rows (same
/// normalized path, modification time and size, and no later row for that
/// path) adds and updates nothing: every file is skipped, whatever its tags.
pub proof fn law_rescan_of_unchanged_folder(
    index: Seq<StoredFile>,
    files: Seq<(Seq<char>, Option<(i64, i64)>, bool)>,
)
    requires
        files.len() < usize::MAX,
        forall|i: int| 0 <= i < files.len() ==> matches_stored_row(index, #[trigger] files[i]),
    ensures
        forall|i: int| 0 <= i < files.len() ==> file_outcome(index, #[trigger] files[i])
            == FileOutcome::Unchanged,
        ({
            let r = report_after(fresh_report(files.len() as usize), index, files);
            &&& r.added == 0
            &&& r.updated == 0
            &&& r.errors == 0
            &&& r.skipped == files.len()
            &&& r.scanned == files.len()
        }),
{
    assert forall|i: int| 0 <= i < files.len() implies file_outcome(index, #[trigger] files[i])
        == FileOutcome::Unchanged by {
        assert(matches_stored_row(index, files[i]));
        let j = choose|j: int|
            0 <= j < index.len() && !shadowed(index, j) && (#[trigger] index[j]).key@ == norm_path(
                files[i].0,
            ) && files[i].1 == Some((index[j].modified, index[j].size));
        assert forall|k: int| j < k < index.len() implies (#[trigger] index[k]).key@
            != index[j].key@ by {
            if index[k].key@ == index[j].key@ {
                assert(shadowed(index, j));
            }
        }
        lemma_last_with_key_unshadowed(index, j);
    }
    lemma_all_unchanged(index, files);
    law_scan_report_counts(index, files);
}

proof fn lemma_all_unchanged(
    index: Seq<StoredFile>,
    files: Seq<(Seq<char>, Option<(i64, i64)>, bool)>,
)
    requires
        forall|i: int| 0 <= i < files.len() ==> file_outcome(index, #[trigger] files[i])
            == FileOutcome::Unchanged,
    ensures
        count_outcome(index, files, FileOutcome::Unchanged) == files.len(),
        count_outcome(index, files, FileOutcome::Added) == 0,
        count_outcome(index, files, FileOutcome::Updated) == 0,
        count_outcome(index, files, FileOutcome::StatFailed) == 0,
        count_outcome(index, files, FileOutcome::ReadFailed) == 0,
    decreases files.len(),
{
    if files.len() > 0 {
        let d = files.drop_last();
        assert forall|i: int| 0 <= i < d.len() implies file_outcome(index, #[trigger] d[i])
            == FileOutcome::Unchanged by {
            assert(d[i] == files[i]);
        }
        lemma_all_unchanged(index, d);
        assert(file_outcome(index, files[files.len() - 1]) == FileOutcome::Unchanged);
    }
}

/// A file whose tags could not be read is not stored, so the next scan
/// finds no row for it and reads its tags again.
pub proof fn law_unreadable_file_is_retried(
    index: Seq<StoredFile>,
    path: Seq<char>,
    modified: i64,
    size: i64,
)
    requires
        forall|j: int| 0 <= j < index.len() ==> (#[trigger] index[j]).key@ != norm_path(path),
    ensures
        file_action(index, path, Some((modified, size))) == FileAction::ReadTags(FileState::New),
{
    law_unknown_file_is_new(index, path, modified, size);
}


// ---------------------------------------------------------------------
// The stored rows across two scans
// ---------------------------------------------------------------------

/// Position of the last stored `(path, modified, size)` row whose
/// normalized path is `key`, or -1.
pub open spec fn last_row(rows: Seq<(Seq<char>, i64, i64)>, key: Seq<char>) -> int
    decreases rows.len(),
{
    if rows.len() == 0 {
        -1
    } else if norm_path(rows.last().0) == key {
        rows.len() - 1
    } else {
        last_row(rows.drop_last(), key)
    }
}

/// How the file at `path` compares to the stored rows (see [`file_state`]).
pub open spec fn row_state(
    rows: Seq<(Seq<char>, i64, i64)>,
    path: Seq<char>,
    modified: i64,
    size: i64,
) -> FileState {
    let k = last_row(rows, norm_path(path));
    if k < 0 {
        FileState::New
    } else {
        classify(Some(rows[k].1), Some(rows[k].2), modified, size)
    }
}

/// The outcome of one file against the stored rows (see [`file_outcome`]).
pub open spec fn row_outcome(
    rows: Seq<(Seq<char>, i64, i64)>,
    f: (Seq<char>, Option<(i64, i64)>, bool),
) -> FileOutcome {
    match f.1 {
        None => FileOutcome::StatFailed,
        Some((m, s)) => {
            let st = row_state(rows, f.0, m, s);
            if st == FileState::Unchanged {
                FileOutcome::Unchanged
            } else {
                read_result(st, f.2)
            }
        },
    }
}

/// The rows after storing a track for `path`: the row with that exact path
/// is updated in place, or a row is added at the end (the table's path is
/// unique, `INSERT ... ON CONFLICT(path) DO UPDATE`).
pub open spec fn upsert_row(
    rows: Seq<(Seq<char>, i64, i64)>,
    path: Seq<char>,
    modified: i64,
    size: i64,
) -> Seq<(Seq<char>, i64, i64)> {
    let i = path_row(rows, path);
    if i >= 0 {
        rows.update(i, (path, modified, size))
    } else {
        rows.push((path, modified, size))
    }
}

/// Position of the last row with exactly `path`, or -1.
pub open spec fn path_row(rows: Seq<(Seq<char>, i64, i64)>, path: Seq<char>) -> int
    decreases rows.len(),
{
    if rows.len() == 0 {
        -1
    } else if rows.last().0 == path {
        rows.len() - 1
    } else {
        path_row(rows.drop_last(), path)
    }
}

proof fn lemma_path_row(rows: Seq<(Seq<char>, i64, i64)>, path: Seq<char>)
    ensures
        -1 <= path_row(rows, path) < rows.len(),
        path_row(rows, path) >= 0 ==> rows[path_row(rows, path)].0 == path,
    decreases rows.len(),
{
    if rows.len() > 0 && rows.last().0 != path {
        lemma_path_row(rows.drop_last(), path);
    }
}

/// The rows after a scan that met `files` with the index built from
/// `rows0`: every file stored as added or updated is upserted, in order.
pub open spec fn stored_after(
    rows0: Seq<(Seq<char>, i64, i64)>,
    files: Seq<(Seq<char>, Option<(i64, i64)>, bool)>,
) -> Seq<(Seq<char>, i64, i64)>
    decreases files.len(),
{
    if files.len() == 0 {
        rows0
    } else {
        let prev = stored_after(rows0, files.drop_last());
        let f = files.last();
        let o = row_outcome(rows0, f);
        if o == FileOutcome::Added || o == FileOutcome::Updated {
            upsert_row(prev, f.0, f.1.unwrap().0, f.1.unwrap().1)
        } else {
            prev
        }
    }
}

/// The outcomes of `files` against `rows`, in order.
pub open spec fn row_outcomes(
    rows: Seq<(Seq<char>, i64, i64)>,
    files: Seq<(Seq<char>, Option<(i64, i64)>, bool)>,
) -> Seq<FileOutcome> {
    files.map_values(|f: (Seq<char>, Option<(i64, i64)>, bool)| row_outcome(rows, f))
}

/// The report after recording `outs` in order (what [`ScanProgress::record`]
/// computes), starting from `p`.
pub open spec fn report_of(p: ScanProgress, outs: Seq<FileOutcome>) -> ScanProgress
    decreases outs.len(),
{
    if outs.len() == 0 {
        p
    } else {
        recorded(report_of(p, outs.drop_last()), outs.last())
    }
}

/// A stored or unchanged file is unchanged the next time.
pub open spec fn settled(o: FileOutcome) -> FileOutcome {
    if o == FileOutcome::Added || o == FileOutcome::Updated {
        FileOutcome::Unchanged
    } else {
        o
    }
}

/// The stored rows hold each normalized path at most once.
pub open spec fn keys_distinct(rows: Seq<(Seq<char>, i64, i64)>) -> bool {
    forall|a: int, b: int|
        0 <= a < b < rows.len() ==> norm_path((#[trigger] rows[a]).0) != norm_path(
            (#[trigger] rows[b]).0,
        )
}

/// The found files have pairwise different normalized paths.
pub open spec fn file_keys_distinct(files: Seq<(Seq<char>, Option<(i64, i64)>, bool)>) -> bool {
    forall|a: int, b: int|
        0 <= a < b < files.len() ==> norm_path((#[trigger] files[a]).0) != norm_path(
            (#[trigger] files[b]).0,
        )
}

proof fn lemma_last_row(rows: Seq<(Seq<char>, i64, i64)>, key: Seq<char>)
    ensures
        -1 <= last_row(rows, key) < rows.len(),
        last_row(rows, key) >= 0 ==> norm_path(rows[last_row(rows, key)].0) == key,
        forall|j: int|
            last_row(rows, key) < j < rows.len() ==> norm_path((#[trigger] rows[j]).0) != key,
    decreases rows.len(),
{
    if rows.len() > 0 && norm_path(rows.last().0) != key {
        let d = rows.drop_last();
        lemma_last_row(d, key);
        assert forall|j: int| last_row(rows, key) < j < rows.len() implies norm_path(
            (#[trigger] rows[j]).0,
        ) != key by {
            if j < rows.len() - 1 {
                assert(rows[j] == d[j]);
            }
        }
    }
}

/// The last row with `key` is the one at `i` when no later row has `key`.
proof fn lemma_last_row_is(rows: Seq<(Seq<char>, i64, i64)>, key: Seq<char>, i: int)
    requires
        0 <= i < rows.len(),
        norm_path(rows[i].0) == key,
        forall|j: int| i < j < rows.len() ==> norm_path((#[trigger] rows[j]).0) != key,
    ensures
        last_row(rows, key) == i,
    decreases rows.len(),
{
    if i < rows.len() - 1 {
        let d = rows.drop_last();
        assert(norm_path(rows[rows.len() - 1].0) != key);
        assert forall|j: int| i < j < d.len() implies norm_path((#[trigger] d[j]).0) != key by {
            assert(d[j] == rows[j]);
        }
        lemma_last_row_is(d, key, i);
    }
}

proof fn lemma_last_row_none(rows: Seq<(Seq<char>, i64, i64)>, key: Seq<char>)
    requires
        forall|j: int| 0 <= j < rows.len() ==> norm_path((#[trigger] rows[j]).0) != key,
    ensures
        last_row(rows, key) == -1,
    decreases rows.len(),
{
    if rows.len() > 0 {
        let d = rows.drop_last();
        assert(norm_path(rows[rows.len() - 1].0) != key);
        assert forall|j: int| 0 <= j < d.len() implies norm_path((#[trigger] d[j]).0) != key by {
            assert(d[j] == rows[j]);
        }
        lemma_last_row_none(d, key);
    }
}

/// The rows of `t` with key `k` are those of `rows0`, untouched: the paths
/// of the first `rows0.len()` rows are kept, rows with key `k` among them
/// hold their old values, and no later row has key `k`.
pub open spec fn untouched(
    t: Seq<(Seq<char>, i64, i64)>,
    rows0: Seq<(Seq<char>, i64, i64)>,
    k: Seq<char>,
) -> bool {
    &&& t.len() >= rows0.len()
    &&& forall|j: int| 0 <= j < rows0.len() ==> (#[trigger] t[j]).0 == rows0[j].0
    &&& forall|j: int| 0 <= j < rows0.len() && norm_path(rows0[j].0) == k ==> #[trigger] t[j] == rows0[j]
    &&& forall|j: int| rows0.len() <= j < t.len() ==> norm_path((#[trigger] t[j]).0) != k
}

/// Untouched rows give the same last row for their key.
proof fn lemma_untouched_last_row(
    t: Seq<(Seq<char>, i64, i64)>,
    rows0: Seq<(Seq<char>, i64, i64)>,
    k: Seq<char>,
)
    requires
        untouched(t, rows0, k),
    ensures
        last_row(t, k) == last_row(rows0, k),
        last_row(rows0, k) >= 0 ==> t[last_row(rows0, k)] == rows0[last_row(rows0, k)],
{
    lemma_last_row(rows0, k);
    let l = last_row(rows0, k);
    if l >= 0 {
        assert(t[l] == rows0[l]);
        assert forall|j: int| l < j < t.len() implies norm_path((#[trigger] t[j]).0) != k by {
            if j < rows0.len() {
                assert(t[j].0 == rows0[j].0);
                assert(norm_path(rows0[j].0) != k);
            }
        }
        lemma_last_row_is(t, k, l);
    } else {
        assert forall|j: int| 0 <= j < t.len() implies norm_path((#[trigger] t[j]).0) != k by {
            if j < rows0.len() {
                assert(t[j].0 == rows0[j].0);
                assert(norm_path(rows0[j].0) != k);
            }
        }
        lemma_last_row_none(t, k);
    }
}

/// Upserting a path with another key leaves the rows of key `k` untouched
/// and keeps every row's path.
proof fn lemma_upsert_other_key(
    t: Seq<(Seq<char>, i64, i64)>,
    rows0: Seq<(Seq<char>, i64, i64)>,
    path: Seq<char>,
    m: i64,
    s: i64,
    k: Seq<char>,
)
    requires
        norm_path(path) != k,
        t.len() >= rows0.len(),
        forall|j: int| 0 <= j < rows0.len() ==> (#[trigger] t[j]).0 == rows0[j].0,
    ensures
        upsert_row(t, path, m, s).len() >= rows0.len(),
        forall|j: int|
            0 <= j < rows0.len() ==> (#[trigger] upsert_row(t, path, m, s)[j]).0 == rows0[j].0,
        forall|j: int|
            0 <= j < t.len() && norm_path(t[j].0) == k ==> #[trigger] upsert_row(t, path, m, s)[j]
                == t[j],
        forall|j: int|
            t.len() <= j < upsert_row(t, path, m, s).len() ==> norm_path(
                (#[trigger] upsert_row(t, path, m, s)[j]).0,
            ) != k,
        last_row(upsert_row(t, path, m, s), k) == last_row(t, k),
{
    let u = upsert_row(t, path, m, s);
    lemma_path_row(t, path);
    lemma_last_row(t, k);
    let l = last_row(t, k);
    if l >= 0 {
        assert forall|j: int| l < j < u.len() implies norm_path((#[trigger] u[j]).0) != k by {
            if j < t.len() {
                assert(u[j].0 == t[j].0);
            }
        }
        lemma_last_row_is(u, k, l);
    } else {
        assert forall|j: int| 0 <= j < u.len() implies norm_path((#[trigger] u[j]).0) != k by {
            if j < t.len() {
                assert(u[j].0 == t[j].0);
            }
        }
        lemma_last_row_none(u, k);
    }
}

/// Upserting `path` where at most one row has its key makes the last row of
/// that key hold the new time and size.
proof fn lemma_upsert_own_key(t: Seq<(Seq<char>, i64, i64)>, path: Seq<char>, m: i64, s: i64)
    requires
        forall|a: int, b: int|
            0 <= a < t.len() && 0 <= b < t.len() && norm_path((#[trigger] t[a]).0) == norm_path(
                path,
            ) && norm_path((#[trigger] t[b]).0) == norm_path(path) ==> a == b,
    ensures
        ({
            let u = upsert_row(t, path, m, s);
            let l = last_row(u, norm_path(path));
            &&& 0 <= l < u.len()
            &&& u[l].1 == m
            &&& u[l].2 == s
        }),
        upsert_row(t, path, m, s).len() >= t.len(),
        forall|j: int|
            0 <= j < t.len() ==> (#[trigger] upsert_row(t, path, m, s)[j]).0 == t[j].0,
{
    let k = norm_path(path);
    let u = upsert_row(t, path, m, s);
    lemma_path_row(t, path);
    let p = path_row(t, path);
    if p >= 0 {
        assert forall|j: int| p < j < u.len() implies norm_path((#[trigger] u[j]).0) != k by {
            assert(u[j] == t[j]);
            if norm_path(t[j].0) == k {
                assert(norm_path(t[p].0) == k);
            }
        }
        lemma_last_row_is(u, k, p);
    } else {
        lemma_last_row_is(u, k, u.len() - 1);
    }
}

/// No file that the scan stores (added or updated) has key `k`.
pub open spec fn key_not_stored(
    rows0: Seq<(Seq<char>, i64, i64)>,
    files: Seq<(Seq<char>, Option<(i64, i64)>, bool)>,
    k: Seq<char>,
) -> bool {
    forall|i: int|
        0 <= i < files.len() ==> (row_outcome(rows0, #[trigger] files[i]) == FileOutcome::Added
            || row_outcome(rows0, files[i]) == FileOutcome::Updated) ==> norm_path(files[i].0) != k
}

/// The state of the rows after storing the first `n` files: a file stored
/// by the scan has a last row with its time and size; the rows of every
/// other file's key are untouched.
proof fn lemma_stored_after(
    rows0: Seq<(Seq<char>, i64, i64)>,
    files: Seq<(Seq<char>, Option<(i64, i64)>, bool)>,
)
    requires
        keys_distinct(rows0),
        file_keys_distinct(files),
    ensures
        ({
            let t = stored_after(rows0, files);
            &&& t.len() >= rows0.len()
            &&& forall|j: int| 0 <= j < rows0.len() ==> (#[trigger] t[j]).0 == rows0[j].0
            &&& forall|i: int|
                0 <= i < files.len() ==> {
                    let o = row_outcome(rows0, #[trigger] files[i]);
                    let k = norm_path(files[i].0);
                    (o == FileOutcome::Added || o == FileOutcome::Updated) ==> {
                        &&& 0 <= last_row(t, k) < t.len()
                        &&& t[last_row(t, k)].1 == files[i].1.unwrap().0
                        &&& t[last_row(t, k)].2 == files[i].1.unwrap().1
                    }
                }
            &&& forall|k: Seq<char>|
                #![trigger untouched(t, rows0, k)]
                key_not_stored(rows0, files, k) ==> untouched(t, rows0, k)
        }),
    decreases files.len(),
{
    if files.len() == 0 {
        return;
    }
    let d = files.drop_last();
    assert forall|a: int, b: int| 0 <= a < b < d.len() implies norm_path((#[trigger] d[a]).0)
        != norm_path((#[trigger] d[b]).0) by {
        assert(d[a] == files[a]);
        assert(d[b] == files[b]);
    }
    lemma_stored_after(rows0, d);
    let prev = stored_after(rows0, d);
    let n = files.len() - 1;
    let f = files[n];
    assert(f == files.last());
    let kn = norm_path(f.0);
    let o = row_outcome(rows0, f);
    let t = stored_after(rows0, files);
    assert forall|i: int| 0 <= i < n implies norm_path((#[trigger] files[i]).0) != kn by {
        assert(norm_path(files[i].0) != norm_path(files[n].0));
    }
    assert forall|i: int| 0 <= i < d.len() implies norm_path((#[trigger] d[i]).0) != kn by {
        assert(d[i] == files[i]);
    }
    assert(key_not_stored(rows0, d, kn));
    assert(untouched(prev, rows0, kn));
    if o == FileOutcome::Added || o == FileOutcome::Updated {
        let m = f.1.unwrap().0;
        let s = f.1.unwrap().1;
        assert(t == upsert_row(prev, f.0, m, s));
        assert forall|a: int, b: int|
            0 <= a < prev.len() && 0 <= b < prev.len() && norm_path((#[trigger] prev[a]).0)
                == kn && norm_path((#[trigger] prev[b]).0) == kn implies a == b by {
            if a < rows0.len() && b < rows0.len() {
                assert(prev[a].0 == rows0[a].0);
                assert(prev[b].0 == rows0[b].0);
                if a < b {
                    assert(norm_path(rows0[a].0) != norm_path(rows0[b].0));
                } else if b < a {
                    assert(norm_path(rows0[b].0) != norm_path(rows0[a].0));
                }
            }
        }
        lemma_upsert_own_key(prev, f.0, m, s);
        assert forall|i: int| 0 <= i < files.len() implies ({
            let o = row_outcome(rows0, #[trigger] files[i]);
            let k = norm_path(files[i].0);
            (o == FileOutcome::Added || o == FileOutcome::Updated) ==> {
                &&& 0 <= last_row(t, k) < t.len()
                &&& t[last_row(t, k)].1 == files[i].1.unwrap().0
                &&& t[last_row(t, k)].2 == files[i].1.unwrap().1
            }
        }) by {
            if i < n {
                assert(files[i] == d[i]);
                let k = norm_path(files[i].0);
                lemma_upsert_other_key(prev, rows0, f.0, m, s, k);
                let oi = row_outcome(rows0, files[i]);
                if oi == FileOutcome::Added || oi == FileOutcome::Updated {
                    lemma_last_row(prev, k);
                    let l = last_row(prev, k);
                    assert(t[l] == prev[l]);
                }
            }
        }
        assert forall|k: Seq<char>|
            #![trigger untouched(t, rows0, k)]
            key_not_stored(rows0, files, k) implies untouched(t, rows0, k) by {
            assert(norm_path(files[n].0) != k);
            assert forall|i: int| 0 <= i < d.len() implies (row_outcome(rows0, #[trigger] d[i])
                == FileOutcome::Added || row_outcome(rows0, d[i]) == FileOutcome::Updated)
                ==> norm_path(d[i].0) != k by {
                assert(d[i] == files[i]);
            }
            assert(key_not_stored(rows0, d, k));
            assert(untouched(prev, rows0, k));
            lemma_upsert_other_key(prev, rows0, f.0, m, s, k);
            assert forall|j: int|
                0 <= j < rows0.len() && norm_path(rows0[j].0) == k implies #[trigger] t[j]
                == rows0[j] by {
                assert(prev[j].0 == rows0[j].0);
                assert(t[j] == prev[j]);
            }
        }
    } else {
        assert(t == prev);
        assert forall|i: int| 0 <= i < files.len() implies ({
            let o = row_outcome(rows0, #[trigger] files[i]);
            let k = norm_path(files[i].0);
            (o == FileOutcome::Added || o == FileOutcome::Updated) ==> {
                &&& 0 <= last_row(t, k) < t.len()
                &&& t[last_row(t, k)].1 == files[i].1.unwrap().0
                &&& t[last_row(t, k)].2 == files[i].1.unwrap().1
            }
        }) by {
            if i < n {
                assert(files[i] == d[i]);
            }
        }
        assert forall|k: Seq<char>|
            #![trigger untouched(t, rows0, k)]
            key_not_stored(rows0, files, k) implies untouched(t, rows0, k) by {
            assert forall|i: int| 0 <= i < d.len() implies (row_outcome(rows0, #[trigger] d[i])
                == FileOutcome::Added || row_outcome(rows0, d[i]) == FileOutcome::Updated)
                ==> norm_path(d[i].0) != k by {
                assert(d[i] == files[i]);
            }
            assert(key_not_stored(rows0, d, k));
        }
    }
}

/// Recording settled outcomes: nothing added or updated, the first run's
/// stored and skipped files all skipped, the same errors and scanned count.
proof fn lemma_report_settled(outs1: Seq<FileOutcome>, outs2: Seq<FileOutcome>, n: usize)
    requires
        outs1.len() == outs2.len(),
        outs1.len() <= n,
        n < usize::MAX,
        forall|i: int| 0 <= i < outs1.len() ==> #[trigger] outs2[i] == settled(outs1[i]),
    ensures
        ({
            let r1 = report_of(fresh_report(n), outs1);
            let r2 = report_of(fresh_report(n), outs2);
            &&& r2.added == 0
            &&& r2.updated == 0
            &&& r2.skipped == r1.added + r1.updated + r1.skipped
            &&& r2.errors == r1.errors
            &&& r2.scanned == r1.scanned
            &&& r2.total_files == r1.total_files
            &&& r2.removed == r1.removed
            &&& r1.added + r1.updated + r1.skipped <= r1.scanned
            &&& r1.scanned <= outs1.len()
            &&& r1.errors <= outs1.len()
        }),
    decreases outs1.len(),
{
    if outs1.len() > 0 {
        let d1 = outs1.drop_last();
        let d2 = outs2.drop_last();
        assert forall|i: int| 0 <= i < d1.len() implies #[trigger] d2[i] == settled(d1[i]) by {
            assert(d1[i] == outs1[i]);
            assert(d2[i] == outs2[i]);
        }
        lemma_report_settled(d1, d2, n);
        assert(outs2.last() == settled(outs1.last()));
    }
}

/// Scanning the same unchanged folder twice (every file with the same
/// time, size and readability, nothing else touching the rows): the second
/// scan adds and updates nothing, skips every file the first scan skipped
/// or stored, fails on exactly the files the first one failed on (a file
/// whose tags cannot be read is never stored, so it is read again), and
/// stores nothing more. The stored rows start with each normalized path at
/// most once, and the found files have different normalized paths.
pub proof fn law_second_scan_is_incremental(
    rows: Seq<(Seq<char>, i64, i64)>,
    files: Seq<(Seq<char>, Option<(i64, i64)>, bool)>,
)
    requires
        files.len() < usize::MAX,
        keys_distinct(rows),
        file_keys_distinct(files),
    ensures
        ({
            let rows2 = stored_after(rows, files);
            let n = files.len() as usize;
            let r1 = report_of(fresh_report(n), row_outcomes(rows, files));
            let r2 = report_of(fresh_report(n), row_outcomes(rows2, files));
            &&& r2.added == 0
            &&& r2.updated == 0
            &&& r2.skipped == r1.added + r1.updated + r1.skipped
            &&& r2.errors == r1.errors
            &&& r2.scanned == r1.scanned
            &&& stored_after(rows2, files) == rows2
        }),
{
    let rows2 = stored_after(rows, files);
    lemma_stored_after(rows, files);
    let outs1 = row_outcomes(rows, files);
    let outs2 = row_outcomes(rows2, files);
    assert forall|i: int| 0 <= i < files.len() implies #[trigger] outs2[i] == settled(outs1[i]) by {
        let f = files[i];
        let k = norm_path(f.0);
        let o1 = row_outcome(rows, f);
        assert(outs1[i] == o1);
        assert(outs2[i] == row_outcome(rows2, f));
        if o1 == FileOutcome::Added || o1 == FileOutcome::Updated {
            assert(f.1 is Some);
        } else {
            assert forall|j: int| 0 <= j < files.len() implies (row_outcome(rows, #[trigger] files[j])
                == FileOutcome::Added || row_outcome(rows, files[j]) == FileOutcome::Updated)
                ==> norm_path(files[j].0) != k by {
                if j != i {
                    if j < i {
                        assert(norm_path(files[j].0) != norm_path(files[i].0));
                    } else {
                        assert(norm_path(files[i].0) != norm_path(files[j].0));
                    }
                }
            }
            assert(key_not_stored(rows, files, k));
            assert(untouched(rows2, rows, k));
            lemma_untouched_last_row(rows2, rows, k);
        }
    }
    lemma_report_settled(outs1, outs2, files.len() as usize);
    assert forall|i: int| 0 <= i < files.len() implies row_outcome(rows2, #[trigger] files[i])
        != FileOutcome::Added && row_outcome(rows2, files[i]) != FileOutcome::Updated by {
        assert(outs2[i] == row_outcome(rows2, files[i]));
        assert(outs2[i] == settled(outs1[i]));
    }
    lemma_no_stores(rows2, files);
}

/// A scan in which no file is added or updated stores nothing.
proof fn lemma_no_stores(
    rows: Seq<(Seq<char>, i64, i64)>,
    files: Seq<(Seq<char>, Option<(i64, i64)>, bool)>,
)
    requires
        forall|i: int|
            0 <= i < files.len() ==> row_outcome(rows, #[trigger] files[i]) != FileOutcome::Added
                && row_outcome(rows, files[i]) != FileOutcome::Updated,
    ensures
        stored_after(rows, files) == rows,
    decreases files.len(),
{
    if files.len() > 0 {
        let d = files.drop_last();
        assert forall|i: int| 0 <= i < d.len() implies row_outcome(rows, #[trigger] d[i])
            != FileOutcome::Added && row_outcome(rows, d[i]) != FileOutcome::Updated by {
            assert(d[i] == files[i]);
        }
        lemma_no_stores(rows, d);
        assert(files.last() == files[files.len() - 1]);
    }
}

/// The index built from stored rows decides as the rows do: for rows
/// indexed by [`index_stored`] (keys normalized, times and sizes copied),
/// [`file_state`] and [`row_state`] agree on every file.
pub proof fn lemma_index_follows_rows(
    index: Seq<StoredFile>,
    rows: Seq<(Seq<char>, i64, i64)>,
    path: Seq<char>,
    modified: i64,
    size: i64,
)
    requires
        index.len() == rows.len(),
        forall|i: int|
            0 <= i < rows.len() ==> {
                &&& (#[trigger] index[i]).key@ == norm_path(rows[i].0)
                &&& index[i].modified == rows[i].1
                &&& index[i].size == rows[i].2
            },
    ensures
        file_state(index, path, modified, size) == row_state(rows, path, modified, size),
        forall|stat: Option<(i64, i64)>, readable: bool|
            #![trigger file_outcome(index, (path, stat, readable))]
            file_outcome(index, (path, stat, readable)) == row_outcome(
                rows,
                (path, stat, readable),
            ),
{
    lemma_index_follows_rows_state(index, rows, path, modified, size);
    assert forall|stat: Option<(i64, i64)>, readable: bool|
        #![trigger file_outcome(index, (path, stat, readable))]
        file_outcome(index, (path, stat, readable)) == row_outcome(
            rows,
            (path, stat, readable),
        ) by {
        if let Some((m, s)) = stat {
            lemma_index_follows_rows_state(index, rows, path, m, s);
        }
    }
}

proof fn lemma_last_with_key_eq(index: Seq<StoredFile>, rows: Seq<(Seq<char>, i64, i64)>, k: Seq<char>)
    requires
        index.len() == rows.len(),
        forall|i: int| 0 <= i < rows.len() ==> (#[trigger] index[i]).key@ == norm_path(rows[i].0),
    ensures
        last_with_key(index, k) == last_row(rows, k),
    decreases rows.len(),
{
    if rows.len() > 0 {
        let di = index.drop_last();
        let dr = rows.drop_last();
        assert forall|i: int| 0 <= i < dr.len() implies (#[trigger] di[i]).key@ == norm_path(
            dr[i].0,
        ) by {
            assert(di[i] == index[i]);
            assert(dr[i] == rows[i]);
        }
        lemma_last_with_key_eq(di, dr, k);
        assert(index.last() == index[index.len() - 1]);
        assert(rows.last() == rows[rows.len() - 1]);
    }
}

proof fn lemma_index_follows_rows_state(
    index: Seq<StoredFile>,
    rows: Seq<(Seq<char>, i64, i64)>,
    path: Seq<char>,
    modified: i64,
    size: i64,
)
    requires
        index.len() == rows.len(),
        forall|i: int|
            0 <= i < rows.len() ==> {
                &&& (#[trigger] index[i]).key@ == norm_path(rows[i].0)
                &&& index[i].modified == rows[i].1
                &&& index[i].size == rows[i].2
            },
    ensures
        file_state(index, path, modified, size) == row_state(rows, path, modified, size),
{
    let k = norm_path(path);
    assert forall|i: int| 0 <= i < rows.len() implies (#[trigger] index[i]).key@ == norm_path(
        rows[i].0,
    ) by {}
    lemma_last_with_key_eq(index, rows, k);
    lemma_last_row(rows, k);
    let l = last_row(rows, k);
    if l >= 0 {
        assert(index[l].key@ == norm_path(rows[l].0));
    }
}

} // verus!
