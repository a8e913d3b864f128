//! Track model and metadata normalization.

use vstd::prelude::*;

use crate::paths::{file_stem, file_stem_chars};
use crate::text::{chars_of, string_from, trim, trim_chars};

verus! {

/// Raw metadata read from audio tags. All optional except duration/format.
#[derive(Debug, Clone, Default, PartialEq)]
pub struct AudioMetadata {
    pub title: Option<String>,
    pub artist: Option<String>,
    pub album: Option<String>,
    pub album_artist: Option<String>,
    pub genre: Option<String>,
    pub year: Option<i64>,
    pub track_no: Option<i64>,
    pub disc_no: Option<i64>,
    pub duration_ms: i64,
    pub sample_rate: Option<i64>,
    pub bit_depth: Option<i64>,
    pub bitrate: Option<i64>,
    /// Canonical short format name, e.g. "flac", "mp3", "dsf".
    pub format: String,
}

impl AudioMetadata {
    /// Metadata with only a format name: no tags, zero duration, no stream
    /// properties.
    pub fn new(format: &str) -> (m: AudioMetadata)
        ensures
            m.format@ == format@,
            m.title is None,
            m.artist is None,
            m.album is None,
            m.album_artist is None,
            m.genre is None,
            m.year is None,
            m.track_no is None,
            m.disc_no is None,
            m.duration_ms == 0,
            m.sample_rate is None,
            m.bit_depth is None,
            m.bitrate is None,
    {
        AudioMetadata {
            title: None,
            artist: None,
            album: None,
            album_artist: None,
            genre: None,
            year: None,
            track_no: None,
            disc_no: None,
            duration_ms: 0,
            sample_rate: None,
            bit_depth: None,
            bitrate: None,
            format: String::from_str(format),
        }
    }
}

/// A track as stored/returned by the library.
#[derive(Debug, Clone, PartialEq)]
pub struct Track {
    pub id: i64,
    pub path: String,
    pub title: String,
    pub artist: Option<String>,
    pub album: Option<String>,
    pub album_artist: Option<String>,
    pub genre: Option<String>,
    pub year: Option<i64>,
    pub track_no: Option<i64>,
    pub disc_no: Option<i64>,
    pub duration_ms: i64,
    pub sample_rate: Option<i64>,
    pub bit_depth: Option<i64>,
    pub bitrate: Option<i64>,
    pub format: String,
    pub file_size: i64,
    /// Unix seconds of last file modification (used for incremental scan).
    pub modified_at: i64,
}

/// File-name fallback title: the trimmed file stem, or the whole path when
/// there is no (non-blank) stem.
pub open spec fn fallback_title(path: Seq<char>) -> Seq<char> {
    match file_stem(path) {
        Some(stem) => if trim(stem).len() > 0 {
            trim(stem)
        } else {
            path
        },
        None => path,
    }
}

/// The title a track gets: the trimmed tag title when it is not blank,
/// otherwise the file-name fallback.
pub open spec fn track_title(path: Seq<char>, tag: Option<Seq<char>>) -> Seq<char> {
    match tag {
        Some(t) => if trim(t).len() > 0 {
            trim(t)
        } else {
            fallback_title(path)
        },
        None => fallback_title(path),
    }
}

pub open spec fn opt_view(o: Option<String>) -> Option<Seq<char>> {
    match o {
        Some(s) => Some(s@),
        None => None,
    }
}

fn clone_opt(o: &Option<String>) -> (r: Option<String>)
    ensures
        r == *o,
{
    match o {
        Some(s) => Some(s.clone()),
        None => None,
    }
}

fn default_title(path: &str) -> (r: String)
    ensures
        r@ == fallback_title(path@),
{
    let p = chars_of(path);
    match file_stem_chars(&p) {
        Some(stem) => {
            let t = trim_chars(&stem);
            if t.len() > 0 {
                string_from(&t)
            } else {
                String::from_str(path)
            }
        },
        None => String::from_str(path),
    }
}

impl Track {
    /// Build a Track from scanned metadata, applying fallbacks
    /// (title falls back to the file name stem). `id` starts at 0 and is
    /// assigned by the database. Pure — no filesystem access.
    pub fn from_metadata(path: &str, meta: &AudioMetadata, file_size: i64, modified_at: i64) -> (t:
        Track)
        ensures
            t.id == 0,
            t.path@ == path@,
            t.title@ == track_title(path@, opt_view(meta.title)),
            t.artist == meta.artist,
            t.album == meta.album,
            t.album_artist == meta.album_artist,
            t.genre == meta.genre,
            t.year == meta.year,
            t.track_no == meta.track_no,
            t.disc_no == meta.disc_no,
            t.duration_ms == meta.duration_ms,
            t.sample_rate == meta.sample_rate,
            t.bit_depth == meta.bit_depth,
            t.bitrate == meta.bitrate,
            t.format == meta.format,
            t.file_size == file_size,
            t.modified_at == modified_at,
    {
        let title = match &meta.title {
            Some(tag) => {
                let t = trim_chars(&chars_of(tag.as_str()));
                if t.len() > 0 {
                    string_from(&t)
                } else {
                    default_title(path)
                }
            },
            None => default_title(path),
        };
        Track {
            id: 0,
            path: String::from_str(path),
            title,
            artist: clone_opt(&meta.artist),
            album: clone_opt(&meta.album),
            album_artist: clone_opt(&meta.album_artist),
            genre: clone_opt(&meta.genre),
            year: meta.year,
            track_no: meta.track_no,
            disc_no: meta.disc_no,
            duration_ms: meta.duration_ms,
            sample_rate: meta.sample_rate,
            bit_depth: meta.bit_depth,
            bitrate: meta.bitrate,
            format: meta.format.clone(),
            file_size,
            modified_at,
        }
    }
}

} // verus!
