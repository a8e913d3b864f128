use std::collections::HashSet;

use iwaks::fts::build_fts_query;
use iwaks::scan::{classify_file, find_stale, is_supported_audio, FileState, SUPPORTED_EXTENSIONS};
use iwaks::time::format_duration;
use iwaks::track::{AudioMetadata, Track};

// ---- full-text query building ----

#[test]
fn empty_and_blank_are_none() {
    assert_eq!(build_fts_query(""), None);
    assert_eq!(build_fts_query("   "), None);
}

#[test]
fn single_word_becomes_prefix() {
    assert_eq!(build_fts_query("hello"), Some("hello*".into()));
}

#[test]
fn multiple_words_implicit_and() {
    assert_eq!(build_fts_query("pink floyd"), Some("pink* floyd*".into()));
}

#[test]
fn quotes_and_fts_operators_are_stripped() {
    assert_eq!(build_fts_query(r#"say "you""#), Some("say* you*".into()));
    assert_eq!(build_fts_query("c++"), Some("c*".into()));
    assert_eq!(
        build_fts_query("pre-*mix -(live)"),
        Some("pre* mix* live*".into())
    );
}

#[test]
fn keeps_unicode_letters_and_digits() {
    assert_eq!(build_fts_query("CAFÉ"), Some("café*".into()));
    assert_eq!(build_fts_query("2023"), Some("2023*".into()));
    assert_eq!(build_fts_query("日本語"), Some("日本語*".into()));
}

#[test]
fn fts_query_of_only_operators_is_none() {
    assert_eq!(build_fts_query("\"*\" -() +"), None);
}

#[test]
fn fts_query_collapses_runs_of_separators() {
    assert_eq!(build_fts_query("  a\t\tb  "), Some("a* b*".into()));
    assert_eq!(build_fts_query("AC/DC"), Some("ac* dc*".into()));
}

// ---- the crate's pieces used together ----

#[test]
fn public_api_links_together() {
    assert!(is_supported_audio("a.flac"));
    assert_eq!(classify_file(None, None, 1, 1), FileState::New);
    assert_eq!(find_stale(&["x".into()], &[]).len(), 1);
    assert!(build_fts_query("x").is_some());
    assert_eq!(format_duration(0), "0:00");
    let t = Track::from_metadata("p.flac", &AudioMetadata::new("flac"), 1, 1);
    assert_eq!(t.title, "p");
    let _unused: HashSet<String> = HashSet::new();
}

// ---- supported files and change detection ----

#[test]
fn supported_extensions_positive() {
    for ext in SUPPORTED_EXTENSIONS {
        let p = format!("x/song.{ext}");
        assert!(is_supported_audio(&p), "{ext} should be supported");
    }
}

#[test]
fn unsupported_and_upper_case() {
    assert!(!is_supported_audio("song.txt"));
    assert!(!is_supported_audio("song.mp4"));
    assert!(!is_supported_audio("song.flac.bak"));
    assert!(!is_supported_audio("song"));
    assert!(is_supported_audio("SONG.FLAC"));
}

#[test]
fn supported_audio_edge_paths() {
    assert!(!is_supported_audio(".flac"), "a dot file has no extension");
    assert!(!is_supported_audio("song."), "an empty extension is not audio");
    assert!(is_supported_audio(r"C:\music\Song.Mp3"));
    assert!(!is_supported_audio("music.flac/cover"));
    assert!(is_supported_audio("x/song.flac/."));
    assert!(!is_supported_audio("./"));
    assert!(is_supported_audio("C:song.flac"));
    assert!(!is_supported_audio("C:"));
}

#[test]
fn classify_new_when_no_db_row() {
    assert_eq!(classify_file(None, None, 100, 10), FileState::New);
}

#[test]
fn classify_unchanged_when_identical() {
    assert_eq!(
        classify_file(Some(100), Some(10), 100, 10),
        FileState::Unchanged
    );
}

#[test]
fn classify_changed_on_mtime_or_size() {
    assert_eq!(
        classify_file(Some(99), Some(10), 100, 10),
        FileState::Changed
    );
    assert_eq!(
        classify_file(Some(100), Some(99), 100, 10),
        FileState::Changed
    );
}

#[test]
fn classify_with_half_a_row() {
    assert_eq!(classify_file(Some(100), None, 100, 10), FileState::Changed);
    assert_eq!(classify_file(None, Some(10), 100, 10), FileState::New);
}

#[test]
fn find_stale_keeps_stored_order_of_missing_paths() {
    let stored: Vec<String> = vec!["a".into(), "b".into(), "c".into(), "b".into()];
    let found: Vec<String> = vec!["b".into()];
    assert_eq!(find_stale(&stored, &found), vec!["a".to_string(), "c".to_string()]);
    assert!(find_stale(&stored, &stored).is_empty());
}

// ---- durations ----

#[test]
fn formats_seconds_and_minutes() {
    assert_eq!(format_duration(0), "0:00");
    assert_eq!(format_duration(61_000), "1:01");
    assert_eq!(format_duration(366_000), "6:06");
    assert_eq!(format_duration(3_659_000), "60:59");
}

#[test]
fn clamps_negative_to_zero() {
    assert_eq!(format_duration(-500), "0:00");
}

#[test]
fn format_duration_truncates_partial_seconds_and_extremes() {
    assert_eq!(format_duration(59_999), "0:59");
    assert_eq!(format_duration(i64::MIN), "0:00");
    assert_eq!(format_duration(i64::MAX), "153722867280912:55");
}

// ---- tracks ----

fn meta_with(title: Option<&str>) -> AudioMetadata {
    let mut m = AudioMetadata::new("flac");
    if let Some(t) = title {
        m.title = Some(t.to_string());
    }
    m.duration_ms = 90_000;
    m
}

#[test]
fn title_falls_back_to_file_stem() {
    let t = Track::from_metadata(r"C:\music\song.flac", &meta_with(None), 12, 1);
    assert_eq!(t.title, "song");
}

#[test]
fn title_uses_tag_when_present() {
    let t = Track::from_metadata(r"C:\music\song.flac", &meta_with(Some("Judul")), 12, 1);
    assert_eq!(t.title, "Judul");
}

#[test]
fn blank_tag_title_falls_back_to_stem() {
    let t = Track::from_metadata(r"C:\music\song.flac", &meta_with(Some("   ")), 12, 1);
    assert_eq!(t.title, "song");
}

#[test]
fn non_music_path_has_no_stem_fallbacks_to_path() {
    let t = Track::from_metadata("no-extension", &meta_with(None), 1, 1);
    assert_eq!(t.title, "no-extension");
}

#[test]
fn carries_metadata_through() {
    let m = meta_with(Some("T"));
    let t = Track::from_metadata("p", &m, 99, 42);
    assert_eq!(t.duration_ms, 90_000);
    assert_eq!(t.format, "flac");
    assert_eq!(t.file_size, 99);
    assert_eq!(t.modified_at, 42);
    assert_eq!(t.id, 0);
}

#[test]
fn tag_title_is_trimmed_and_tags_are_copied() {
    let mut m = meta_with(Some("  Wish You Were Here \n"));
    m.artist = Some("Pink Floyd".into());
    m.year = Some(1975);
    m.sample_rate = Some(44_100);
    let t = Track::from_metadata("/music/a.flac", &m, 5, 6);
    assert_eq!(t.title, "Wish You Were Here");
    assert_eq!(t.artist.as_deref(), Some("Pink Floyd"));
    assert_eq!(t.year, Some(1975));
    assert_eq!(t.sample_rate, Some(44_100));
    assert_eq!(t.album, None);
    assert_eq!(t.path, "/music/a.flac");
}

#[test]
fn stem_of_dotted_and_trailing_separator_paths() {
    let t = Track::from_metadata("/music/Live.At.Pompeii.flac", &meta_with(None), 1, 1);
    assert_eq!(t.title, "Live.At.Pompeii");
    let t = Track::from_metadata("/music/.hidden", &meta_with(None), 1, 1);
    assert_eq!(t.title, ".hidden");
    let t = Track::from_metadata("/music/Album/./", &meta_with(None), 1, 1);
    assert_eq!(t.title, "Album", "a trailing `.` component is skipped");
    let t = Track::from_metadata("C:song.flac", &meta_with(None), 1, 1);
    assert_eq!(t.title, "song", "a drive prefix is not part of the stem");
    let t = Track::from_metadata("/music/..", &meta_with(None), 1, 1);
    assert_eq!(t.title, "/music/..", "no file name: the whole path");
}

#[test]
fn new_metadata_is_empty_but_for_format() {
    let m = AudioMetadata::new("mp3");
    assert_eq!(m.format, "mp3");
    assert_eq!(m.title, None);
    assert_eq!(m.duration_ms, 0);
    assert_eq!(m.bitrate, None);
}

#[test]
fn unc_prefix_is_not_a_file_name() {
    assert!(!is_supported_audio(r"\\srv\share.flac"));
    assert!(is_supported_audio(r"\\srv\share\song.flac"));
}
