use iwaks::playlist::{
    clean_name, m3u_lookup_keys, m3u_playlist_name, m3u_text, migration_steps, norm, SchemaStep,
    SCHEMA_VERSION,
};
use iwaks::track::{AudioMetadata, Track};

fn fake_track(path: &str, title: &str) -> Track {
    let mut t = Track::from_metadata(path, &AudioMetadata::new("flac"), 1000, 42);
    t.title = title.to_string();
    t.duration_ms = 92_000;
    t
}

#[test]
fn playlist_names_are_trimmed_and_not_blank() {
    assert_eq!(clean_name("  Road Trip  "), Some("Road Trip".to_string()));
    assert_eq!(clean_name("Night Drive"), Some("Night Drive".to_string()));
    assert_eq!(clean_name("   "), None);
    assert_eq!(clean_name(""), None);
    assert_eq!(clean_name("\t\n"), None);
}

#[test]
fn norm_lowercases_and_unifies_separators() {
    assert_eq!(norm(r"C:\Music\Song.FLAC"), "c:/music/song.flac");
    assert_eq!(norm("c:/music/song.flac"), "c:/music/song.flac");
    assert_eq!(norm(""), "");
}

#[test]
fn export_m3u_shape() {
    let tracks = vec![
        fake_track("C:/music/a.flac", "Song A"),
        fake_track("C:/music/b.flac", "Song B"),
    ];
    let content = m3u_text(&tracks);
    assert!(content.starts_with("#EXTM3U\n"));
    assert!(content.contains("#EXTINF:92,Song A\nC:/music/a.flac\n"));
    assert!(content.contains("#EXTINF:92,Song B\nC:/music/b.flac\n"));
    assert_eq!(
        content,
        "#EXTM3U\n#EXTINF:92,Song A\nC:/music/a.flac\n#EXTINF:92,Song B\nC:/music/b.flac\n"
    );
}

#[test]
fn export_of_empty_playlist_is_the_header() {
    assert_eq!(m3u_text(&[]), "#EXTM3U\n");
}

#[test]
fn export_truncates_seconds_toward_zero() {
    let mut t = fake_track("/m/a.flac", "A");
    t.duration_ms = 1_999;
    let mut n = fake_track("/m/b.flac", "B");
    n.duration_ms = -1_500;
    assert_eq!(
        m3u_text(&[t, n]),
        "#EXTM3U\n#EXTINF:1,A\n/m/a.flac\n#EXTINF:-1,B\n/m/b.flac\n"
    );
}

#[test]
fn export_then_import_keys_keep_order() {
    let tracks = vec![
        fake_track("C:/music/a.flac", "Song A"),
        fake_track("C:/music/b.flac", "Song B"),
    ];
    let content = m3u_text(&tracks);
    let keys = m3u_lookup_keys("/tmp/export.m3u", &content);
    assert_eq!(keys, vec![norm("C:/music/a.flac"), norm("C:/music/b.flac")]);
}

#[test]
fn import_keys_skip_directives_and_blank_lines() {
    let keys = m3u_lookup_keys(
        "/tmp/mix.m3u",
        "#EXTM3U\n#EXTINF:92,Ignored\ngone.flac\nC:/music/a.flac\nalso-gone.flac\n",
    );
    assert_eq!(
        keys,
        vec![
            "/tmp/gone.flac".to_string(),
            "c:/music/a.flac".to_string(),
            "/tmp/also-gone.flac".to_string(),
        ]
    );
    assert!(m3u_lookup_keys("/tmp/x.m3u", "\n   \n# only comments\n").is_empty());
}

#[test]
fn import_keys_resolve_relative_entries() {
    let keys = m3u_lookup_keys("/tmp/rel/play.m3u", "a.flac\r\n  b.flac  \n");
    assert_eq!(keys, vec!["/tmp/rel/a.flac".to_string(), "/tmp/rel/b.flac".to_string()]);
    let keys = m3u_lookup_keys(r"D:\Lists\Play.m3u", r"Sub\A.FLAC");
    assert_eq!(keys, vec!["d:/lists/sub/a.flac".to_string()]);
    let keys = m3u_lookup_keys("play.m3u", "a.flac\n");
    assert_eq!(keys, vec!["a.flac".to_string()]);
}

#[test]
fn imported_playlist_is_named_after_the_file() {
    assert_eq!(m3u_playlist_name("/tmp/export.m3u"), "export");
    assert_eq!(m3u_playlist_name(r"C:\lists\Road Trip.m3u8"), "Road Trip");
    assert_eq!(m3u_playlist_name("/tmp/   .m3u"), "Imported");
    assert_eq!(m3u_playlist_name("/"), "Imported");
}

#[test]
fn migrations_bring_any_known_version_to_current() {
    assert_eq!(SCHEMA_VERSION, 2);
    assert_eq!(
        migration_steps(0),
        Some(vec![SchemaStep::Tracks, SchemaStep::Playlists])
    );
    assert_eq!(migration_steps(1), Some(vec![SchemaStep::Playlists]));
    assert_eq!(migration_steps(2), Some(vec![]));
    assert_eq!(migration_steps(99), None, "a future schema is rejected");
    assert_eq!(migration_steps(-1), None);
}

#[test]
fn rooted_entries_stay_on_the_playlist_drive() {
    let keys = m3u_lookup_keys(r"C:\Lists\p.m3u", "\\Music\\a.flac\n/other/b.flac\nD:\\x.flac\n");
    assert_eq!(
        keys,
        vec![
            "c:/music/a.flac".to_string(),
            "c:/other/b.flac".to_string(),
            "d:/x.flac".to_string(),
        ]
    );
    let keys = m3u_lookup_keys("/lists/p.m3u", "/music/a.flac");
    assert_eq!(keys, vec!["/music/a.flac".to_string()]);
}

#[test]
fn playlist_folder_is_the_parent_path() {
    assert_eq!(m3u_lookup_keys("dir//p.m3u", "a.flac"), vec!["dir/a.flac".to_string()]);
    assert_eq!(m3u_lookup_keys("a//b/./p.m3u", "x.flac"), vec!["a//b/x.flac".to_string()]);
    assert_eq!(m3u_lookup_keys("C:p.m3u", "a.flac"), vec!["c:a.flac".to_string()]);
    assert_eq!(m3u_lookup_keys(r"C:\p.m3u", "a.flac"), vec!["c:/a.flac".to_string()]);
    assert_eq!(m3u_lookup_keys("/p.m3u", "a.flac"), vec!["/a.flac".to_string()]);
    assert_eq!(m3u_lookup_keys("./p.m3u", "a.flac"), vec!["./a.flac".to_string()]);
    assert_eq!(m3u_lookup_keys("/", "a.flac"), vec!["./a.flac".to_string()]);
}

#[test]
fn drive_prefix_is_not_part_of_the_name() {
    assert_eq!(m3u_playlist_name("C:list.m3u"), "list");
    assert_eq!(m3u_playlist_name("C:"), "Imported");
    assert_eq!(m3u_playlist_name(r"C:\"), "Imported");
}

#[test]
fn norm_of_a_key_is_the_key() {
    for p in [r"C:\Music\A.FLAC", "c:/music/a.flac", "/Mix/./B.Mp3"] {
        let k = norm(p);
        assert_eq!(norm(&k), k);
    }
    assert_eq!(norm(r"C:\Music\A.FLAC"), norm("c:/music/a.flac"));
}

#[test]
fn unc_and_verbatim_prefixes_are_kept_whole() {
    assert_eq!(m3u_lookup_keys(r"C:\m\p.m3u", r"\\s\a"), vec!["//s/a".to_string()]);
    assert_eq!(
        m3u_lookup_keys(r"\\srv\share\lists\p.m3u", "\\music\\a.flac\nb.flac\n"),
        vec![
            "//srv/share/music/a.flac".to_string(),
            "//srv/share/lists/b.flac".to_string(),
        ]
    );
    assert_eq!(m3u_lookup_keys(r"\\srv\share\p.m3u", "b.flac"), vec!["//srv/share/b.flac".to_string()]);
    assert_eq!(m3u_playlist_name(r"\\srv\share"), "Imported");
    assert_eq!(m3u_playlist_name(r"\\srv\share\Mix.m3u"), "Mix");
    assert_eq!(m3u_playlist_name(r"\\?\UNC\srv\share"), "Imported");
    assert_eq!(m3u_playlist_name(r"\\?\C:\lists\Road.m3u"), "Road");
}
