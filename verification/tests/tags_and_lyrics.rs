use iwaks::lrc::parse_lrc_text;
use iwaks::tags::{
    best_picture, cover_data_url, cover_mime, embedded_lyrics, lyrics_plan, picture_rank,
    stream_format, Cover, PictureKind, TimedSource,
};

// ---- album art ----

#[test]
fn front_cover_beats_back_and_icons() {
    let (front, icon, other_icon, other, extra) = (
        PictureKind::CoverFront,
        PictureKind::Icon,
        PictureKind::OtherIcon,
        PictureKind::Other,
        PictureKind::Additional,
    );
    assert_eq!(best_picture(&[extra, front]), Some(1));
    assert_eq!(best_picture(&[icon, extra, other_icon]), Some(1));
    assert_eq!(best_picture(&[other, icon]), Some(0), "ties keep the first");
    assert_eq!(best_picture(&[front, front]), Some(0));
    assert_eq!(best_picture(&[]), None);
    assert_eq!(picture_rank(front), 0);
    assert_eq!(picture_rank(extra), 1);
    assert_eq!(picture_rank(icon), 2);
}

#[test]
fn cover_mime_defaults_to_jpeg() {
    assert_eq!(cover_mime(Some("image/png".into())), "image/png");
    assert_eq!(cover_mime(None), "image/jpeg");
}

#[test]
fn cover_data_url_encodes_standard_base64() {
    let c = Cover { mime: "image/png".into(), data: b"PNG-THE-FRONT".to_vec() };
    assert_eq!(cover_data_url(&c), "data:image/png;base64,UE5HLVRIRS1GUk9OVA==");
    let c = Cover { mime: "image/jpeg".into(), data: vec![0xfb, 0xff, 0xbf] };
    assert_eq!(cover_data_url(&c), "data:image/jpeg;base64,+/+/");
    let c = Cover { mime: "image/gif".into(), data: vec![] };
    assert_eq!(cover_data_url(&c), "data:image/gif;base64,");
    let c = Cover { mime: "x".into(), data: b"ab".to_vec() };
    assert_eq!(cover_data_url(&c), "data:x;base64,YWI=");
}

#[test]
fn format_name_is_the_lowercased_extension() {
    assert_eq!(stream_format("/music/a.WAV"), "wav");
    assert_eq!(stream_format(r"C:\music\b.Flac"), "flac");
    assert_eq!(stream_format("/music/noext"), "audio");
    assert_eq!(stream_format("/music/.hidden"), "audio");
}

// ---- lyrics sources ----

#[test]
fn embedded_lyrics_take_the_first_non_blank_text() {
    assert_eq!(embedded_lyrics(&[]), None);
    assert_eq!(embedded_lyrics(&["  ".into(), "\n".into()]), None);
    assert_eq!(
        embedded_lyrics(&["   ".into(), "  First line\nSecond line \n".into(), "later".into()]),
        Some("First line\nSecond line".to_string())
    );
}

#[test]
fn sidecar_wins_timing_and_embedded_wins_plain_text() {
    let p = lyrics_plan(Some("Embedded text".into()), Some("[00:05.00]Sidecar line".into()));
    assert_eq!(p.timed_from, TimedSource::Sidecar);
    assert_eq!(p.plain.as_deref(), Some("Embedded text"));

    let p = lyrics_plan(None, Some("[00:01.00]One\n".into()));
    assert_eq!(p.timed_from, TimedSource::Sidecar);
    assert_eq!(p.plain.as_deref(), Some("[00:01.00]One\n"), "raw sidecar doubles as plain text");

    let p = lyrics_plan(Some("[00:03.00]Timed\n".into()), None);
    assert_eq!(p.timed_from, TimedSource::Embedded);

    let p = lyrics_plan(None, None);
    assert_eq!(p.timed_from, TimedSource::Neither);
    assert_eq!(p.plain, None);
}

// ---- LRC structure ----

fn lines(text: &str) -> (Vec<(Vec<String>, String)>, i64) {
    let parsed = parse_lrc_text(text);
    (
        parsed.lines.into_iter().map(|l| (l.stamps, l.text)).collect(),
        parsed.offset_ms,
    )
}

fn s(v: &[&str]) -> Vec<String> {
    v.iter().map(|x| x.to_string()).collect()
}

#[test]
fn parses_timestamps_and_applies_offset() {
    let (ls, off) = lines("[offset:500]\n[00:12.00]Hello\n[01:02.5]World\n");
    assert_eq!(off, 500);
    assert_eq!(
        ls,
        vec![
            (s(&["00:12.00"]), "Hello".to_string()),
            (s(&["01:02.5"]), "World".to_string()),
        ]
    );
}

#[test]
fn multiple_timestamps_per_line_and_hours() {
    let (ls, off) = lines("[00:01.00][00:05.00]same\n[01:02:03.4]long\n");
    assert_eq!(off, 0);
    assert_eq!(
        ls,
        vec![
            (s(&["00:01.00", "00:05.00"]), "same".to_string()),
            (s(&["01:02:03.4"]), "long".to_string()),
        ]
    );
}

#[test]
fn metadata_and_bad_tags_are_ignored() {
    let (ls, off) = lines("[ti:Title]\n[ar:Artist]\n[oops]bad\nplain line\n");
    assert_eq!(off, 0);
    assert_eq!(
        ls,
        vec![
            (s(&["ti:Title"]), String::new()),
            (s(&["ar:Artist"]), String::new()),
            (s(&["oops"]), "bad".to_string()),
        ]
    );
}

#[test]
fn offset_can_be_negative_and_clamps_at_zero() {
    let (ls, off) = lines("[offset:-300]\n[00:00.20]early\n[00:10.00]later\n");
    assert_eq!(off, -300);
    assert_eq!(
        ls,
        vec![
            (s(&["00:00.20"]), "early".to_string()),
            (s(&["00:10.00"]), "later".to_string()),
        ]
    );
}

#[test]
fn lrc_last_valid_offset_wins() {
    let (_, off) = lines("[offset:100]\n[offset: +250 ]\n[offset:junk]\n[00:01]x\n");
    assert_eq!(off, 250, "the last valid offset applies");
}

#[test]
fn lrc_unclosed_bracket_and_spacing() {
    let (ls, _) = lines("  [00:01.00]  spaced  [x\n[00:02.00\n\n   \n");
    assert_eq!(ls, vec![(s(&["00:01.00"]), "spaced  [x".to_string())]);
    let (ls, _) = lines("[00:01.00] [00:02.00]two\r\n");
    assert_eq!(ls, vec![(s(&["00:01.00", "00:02.00"]), "two".to_string())]);
}
