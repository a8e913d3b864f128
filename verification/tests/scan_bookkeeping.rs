use iwaks::scan::{
    decide_file, read_outcome, FileAction, index_stored, lookup_state, progress_due, stale_candidates, upsert_outcome, FileOutcome,
    FileState, ScanOptions, ScanProgress,
};

#[test]
fn progress_counts_each_outcome_once() {
    let mut p = ScanProgress::started(5);
    assert_eq!(p, ScanProgress { total_files: 5, ..Default::default() });
    p.record(FileOutcome::StatFailed);
    p.record(FileOutcome::Unchanged);
    p.record(FileOutcome::Added);
    p.record(FileOutcome::Updated);
    p.record(FileOutcome::ReadFailed);
    assert_eq!(
        p,
        ScanProgress {
            total_files: 5,
            scanned: 4,
            added: 1,
            updated: 1,
            skipped: 1,
            removed: 0,
            errors: 2,
        }
    );
}

#[test]
fn successful_reads_add_new_files_and_update_changed_ones() {
    assert_eq!(upsert_outcome(FileState::New), FileOutcome::Added);
    assert_eq!(upsert_outcome(FileState::Changed), FileOutcome::Updated);
}

#[test]
fn progress_is_reported_every_n_files() {
    assert!(progress_due(0, 50));
    assert!(!progress_due(49, 50));
    assert!(progress_due(50, 50));
    assert!(progress_due(40, 20));
    assert!(!progress_due(41, 20));
}

fn rows() -> Vec<(String, i64, i64)> {
    vec![
        (r"C:\Music\A.flac".to_string(), 100, 10),
        ("/music/b.flac".to_string(), 200, 20),
        ("c:/music/a.FLAC".to_string(), 300, 30),
    ]
}

#[test]
fn stored_rows_are_keyed_by_normalized_path() {
    let idx = index_stored(&rows());
    assert_eq!(idx.len(), 3);
    assert_eq!(idx[0].key, "c:/music/a.flac");
    assert_eq!(idx[0].path, r"C:\Music\A.flac");
    assert_eq!(idx[2].key, "c:/music/a.flac");
    assert_eq!((idx[1].modified, idx[1].size), (200, 20));
}

#[test]
fn lookup_uses_the_last_row_for_a_key() {
    let idx = index_stored(&rows());
    assert_eq!(lookup_state(&idx, "C:/MUSIC/a.flac", 300, 30), FileState::Unchanged);
    assert_eq!(lookup_state(&idx, "C:/MUSIC/a.flac", 100, 10), FileState::Changed);
    assert_eq!(lookup_state(&idx, "/music/b.flac", 200, 21), FileState::Changed);
    assert_eq!(lookup_state(&idx, "/music/new.flac", 1, 1), FileState::New);
    assert_eq!(lookup_state(&[], "/music/b.flac", 200, 20), FileState::New);
}

#[test]
fn prune_candidates_are_one_path_per_key() {
    let idx = index_stored(&rows());
    assert_eq!(
        stale_candidates(&idx),
        vec!["/music/b.flac".to_string(), "c:/music/a.FLAC".to_string()]
    );
    assert!(stale_candidates(&[]).is_empty());
}

#[test]
fn scan_options_carry_root_and_pruning_flag() {
    let o = ScanOptions { root: "/music".into(), clean_missing: true };
    assert!(o.clean_missing);
    assert_eq!(o.root, "/music");
}

#[test]
fn scan_step_counts_skips_or_reads() {
    let idx = index_stored(&rows());
    assert_eq!(
        decide_file(&idx, "/music/b.flac", None),
        FileAction::Count(FileOutcome::StatFailed)
    );
    assert_eq!(
        decide_file(&idx, "/music/b.flac", Some((200, 20))),
        FileAction::Count(FileOutcome::Unchanged)
    );
    assert_eq!(
        decide_file(&idx, "/MUSIC/B.flac", Some((201, 20))),
        FileAction::ReadTags(FileState::Changed)
    );
    assert_eq!(
        decide_file(&idx, "/music/broken.wav", Some((1, 1))),
        FileAction::ReadTags(FileState::New),
        "a file that was never stored is read (again)"
    );
    assert_eq!(read_outcome(FileState::New, true), FileOutcome::Added);
    assert_eq!(read_outcome(FileState::Changed, true), FileOutcome::Updated);
    assert_eq!(read_outcome(FileState::New, false), FileOutcome::ReadFailed);
}

#[test]
fn rescan_of_an_unchanged_folder_adds_nothing() {
    let idx = index_stored(&rows());
    let found = [("/music/b.flac", (200, 20)), ("C:/music/a.flac", (300, 30))];
    let mut report = ScanProgress::started(found.len());
    for (path, stat) in found {
        let outcome = match decide_file(&idx, path, Some(stat)) {
            FileAction::Count(o) => o,
            FileAction::ReadTags(state) => read_outcome(state, true),
        };
        report.record(outcome);
    }
    assert_eq!(
        report,
        ScanProgress { total_files: 2, scanned: 2, skipped: 2, ..Default::default() }
    );
}

/// One scan over `found` (path, stat, tags readable) against `rows`,
/// storing what it reads the way the library table does.
fn scan_once(
    rows: &mut Vec<(String, i64, i64)>,
    found: &[(&str, Option<(i64, i64)>, bool)],
) -> ScanProgress {
    let idx = index_stored(rows);
    let mut report = ScanProgress::started(found.len());
    for (path, stat, readable) in found {
        let outcome = match decide_file(&idx, path, *stat) {
            FileAction::Count(o) => o,
            FileAction::ReadTags(state) => {
                if *readable {
                    let (m, s) = stat.unwrap();
                    match rows.iter_mut().find(|r| r.0 == *path) {
                        Some(r) => *r = (path.to_string(), m, s),
                        None => rows.push((path.to_string(), m, s)),
                    }
                }
                read_outcome(state, *readable)
            }
        };
        report.record(outcome);
    }
    report
}

#[test]
fn second_scan_is_incremental() {
    let mut rows = vec![("/m/a.flac".to_string(), 1, 1), ("/m/e.flac".to_string(), 5, 5)];
    let found = [
        ("/m/a.flac", Some((1, 1)), true),
        ("/m/b.flac", Some((2, 2)), true),
        ("/m/broken.wav", Some((3, 3)), false),
        ("/m/gone.flac", None, true),
        ("/m/e.flac", Some((6, 6)), true),
    ];
    let first = scan_once(&mut rows, &found);
    assert_eq!((first.added, first.updated, first.skipped, first.errors), (1, 1, 1, 2));
    let stored = rows.clone();
    let second = scan_once(&mut rows, &found);
    assert_eq!(second.added, 0);
    assert_eq!(second.updated, 0);
    assert_eq!(second.skipped, first.added + first.updated + first.skipped);
    assert_eq!(second.errors, first.errors, "the unreadable file is read again");
    assert_eq!(second.scanned, first.scanned);
    assert_eq!(rows, stored, "nothing more is stored");
}
