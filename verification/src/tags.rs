//! Decisions around audio tags: which embedded picture is the album art,
//! how it is handed to the UI, which lyrics source wins, and the format
//! name of a file.

use vstd::prelude::*;

use crate::paths::{extension, extension_chars};
use crate::text::{
    chars_of, extend_chars, string_from, to_lowercase, trim, trim_chars, unicode_lowercase,
};

verus! {

// ---------------------------------------------------------------------
// Album art
// ---------------------------------------------------------------------

/// Role of an embedded picture, as far as choosing album art goes.
#[derive(Debug, Clone, Copy, PartialEq, Eq, Structural)]
pub enum PictureKind {
    CoverFront,
    Icon,
    OtherIcon,
    Other,
    /// Any other role (back cover, artist, booklet, ...).
    Additional,
}

/// Lower rank = preferred; the front cover beats every other role, icons
/// and unspecified pictures come last.
pub open spec fn rank(k: PictureKind) -> u8 {
    match k {
        PictureKind::CoverFront => 0,
        PictureKind::Icon | PictureKind::OtherIcon | PictureKind::Other => 2,
        PictureKind::Additional => 1,
    }
}

pub fn picture_rank(k: PictureKind) -> (r: u8)
    ensures
        r == rank(k),
{
    match k {
        PictureKind::CoverFront => 0,
        PictureKind::Icon | PictureKind::OtherIcon | PictureKind::Other => 2,
        PictureKind::Additional => 1,
    }
}

/// The first picture of the best rank.
pub open spec fn best_picture_index(kinds: Seq<PictureKind>) -> Option<int>
    decreases kinds.len(),
{
    if kinds.len() == 0 {
        None
    } else {
        match best_picture_index(kinds.drop_last()) {
            None => Some(kinds.len() - 1),
            Some(i) => if rank(kinds.last()) < rank(kinds[i]) {
                Some(kinds.len() - 1)
            } else {
                Some(i)
            },
        }
    }
}

/// The album art choice: there is one exactly when there is a picture, it
/// has the best rank of all pictures (so a front cover whenever the file
/// has one), and no earlier picture has that rank.
pub proof fn law_album_art_is_the_first_best_ranked_picture(kinds: Seq<PictureKind>)
    ensures
        kinds.len() == 0 <==> best_picture_index(kinds) is None,
        best_picture_index(kinds) matches Some(i) ==> {
            &&& 0 <= i < kinds.len()
            &&& forall|j: int| 0 <= j < kinds.len() ==> rank(kinds[i]) <= rank(#[trigger] kinds[j])
            &&& forall|j: int| 0 <= j < i ==> rank(kinds[i]) < rank(#[trigger] kinds[j])
            &&& (exists|j: int| 0 <= j < kinds.len() && #[trigger] kinds[j]
                == PictureKind::CoverFront) ==> kinds[i] == PictureKind::CoverFront
        },
    decreases kinds.len(),
{
    if kinds.len() > 0 {
        law_album_art_is_the_first_best_ranked_picture(kinds.drop_last());
        assert forall|j: int| 0 <= j < kinds.len() - 1 implies kinds[j] == kinds.drop_last()[j] by {}
        let i = best_picture_index(kinds).unwrap();
        if exists|j: int| 0 <= j < kinds.len() && #[trigger] kinds[j] == PictureKind::CoverFront {
            let j = choose|j: int| 0 <= j < kinds.len() && #[trigger] kinds[j] == PictureKind::CoverFront;
            assert(rank(kinds[i]) <= rank(kinds[j]));
        }
    }
}

/// A file-icon picture, an "other file icon" picture, or one with no
/// stated role: placeholders, never preferred as album art.
pub open spec fn is_placeholder(k: PictureKind) -> bool {
    k is Icon || k is OtherIcon || k is Other
}

/// Placeholders are shown only when the file has nothing else: the album
/// art is a placeholder only when every picture is one, and when the file
/// has no front cover but some other real picture, the album art is the
/// first real picture and only placeholders stand before it.
pub proof fn law_album_art_skips_placeholders(kinds: Seq<PictureKind>)
    ensures
        best_picture_index(kinds) matches Some(i) ==> {
            &&& is_placeholder(kinds[i]) ==> forall|j: int|
                0 <= j < kinds.len() ==> is_placeholder(#[trigger] kinds[j])
            &&& (forall|j: int| 0 <= j < kinds.len() ==> #[trigger] kinds[j]
                != PictureKind::CoverFront) && (exists|j: int|
                0 <= j < kinds.len() && !is_placeholder(#[trigger] kinds[j])) ==> {
                &&& kinds[i] == PictureKind::Additional
                &&& forall|j: int| 0 <= j < i ==> is_placeholder(#[trigger] kinds[j])
            }
        },
{
    law_album_art_is_the_first_best_ranked_picture(kinds);
    if let Some(i) = best_picture_index(kinds) {
        assert forall|j: int| 0 <= j < kinds.len() && is_placeholder(kinds[i]) implies is_placeholder(
            #[trigger] kinds[j],
        ) by {
            assert(rank(kinds[i]) <= rank(kinds[j]));
        }
        if (forall|j: int| 0 <= j < kinds.len() ==> #[trigger] kinds[j] != PictureKind::CoverFront)
            && (exists|j: int| 0 <= j < kinds.len() && !is_placeholder(#[trigger] kinds[j])) {
            let w = choose|j: int| 0 <= j < kinds.len() && !is_placeholder(#[trigger] kinds[j]);
            assert(rank(kinds[i]) <= rank(kinds[w]));
            assert(kinds[i] != PictureKind::CoverFront);
            assert forall|j: int| 0 <= j < i implies is_placeholder(#[trigger] kinds[j]) by {
                assert(rank(kinds[i]) < rank(kinds[j]));
            }
        }
    }
}

/// Index of the picture to show as album art: the first front cover, else
/// the first other picture, icons last; `None` when there is no picture.
pub fn best_picture(kinds: &[PictureKind]) -> (r: Option<usize>)
    ensures
        r matches Some(i) ==> best_picture_index(kinds@) == Some(i as int),
        r is None <==> best_picture_index(kinds@) is None,
{
    let mut best: Option<usize> = None;
    let mut i: usize = 0;
    while i < kinds.len()
        invariant
            i <= kinds@.len(),
            best_picture_index(kinds@.take(i as int)) == match best {
                Some(b) => Some(b as int),
                None => None,
            },
            best matches Some(b) ==> b < i,
        decreases kinds.len() - i,
    {
        let ghost pre = kinds@.take(i + 1);
        assert(pre.drop_last() == kinds@.take(i as int));
        assert(pre.last() == kinds@[i as int]);
        let r = picture_rank(kinds[i]);
        match best {
            None => {
                best = Some(i);
            },
            Some(b) => {
                assert(pre[b as int] == kinds@[b as int]);
                if r < picture_rank(kinds[b]) {
                    best = Some(i);
                }
            },
        }
        i += 1;
    }
    assert(kinds@.take(kinds@.len() as int) == kinds@);
    best
}

/// Album art extracted from an audio file's tags.
#[derive(Debug, Clone, PartialEq, Eq)]
pub struct Cover {
    /// MIME type of the image, e.g. `image/jpeg`, `image/png`.
    pub mime: String,
    /// Raw encoded image bytes.
    pub data: Vec<u8>,
}

/// The MIME type to report for a picture: its own when tagged, otherwise
/// `image/jpeg`.
pub fn cover_mime(mime: Option<String>) -> (r: String)
    ensures
        r@ == match mime {
            Some(m) => m@,
            None => "image/jpeg"@,
        },
{
    match mime {
        Some(m) => m,
        None => String::from_str("image/jpeg"),
    }
}

/// The Base64 alphabet of RFC 4648 (standard, not URL-safe).
pub open spec fn b64_digit(v: int) -> char {
    if v < 26 {
        (('A' as int) + v) as char
    } else if v < 52 {
        (('a' as int) + (v - 26)) as char
    } else if v < 62 {
        (('0' as int) + (v - 52)) as char
    } else if v == 62 {
        '+'
    } else {
        '/'
    }
}

/// Standard Base64 with `=` padding: every 3 bytes become 4 digits of 6
/// bits each; a final group of 1 or 2 bytes is padded to 4 characters.
pub open spec fn base64(data: Seq<u8>) -> Seq<char>
    decreases data.len(),
{
    if data.len() == 0 {
        Seq::empty()
    } else if data.len() == 1 {
        let a = data[0] as int;
        seq![b64_digit(a / 4), b64_digit((a % 4) * 16), '=', '=']
    } else if data.len() == 2 {
        let a = data[0] as int;
        let b = data[1] as int;
        seq![b64_digit(a / 4), b64_digit((a % 4) * 16 + b / 16), b64_digit((b % 16) * 4), '=']
    } else {
        let a = data[0] as int;
        let b = data[1] as int;
        let c = data[2] as int;
        seq![
            b64_digit(a / 4),
            b64_digit((a % 4) * 16 + b / 16),
            b64_digit((b % 16) * 4 + c / 64),
            b64_digit(c % 64),
        ] + base64(data.skip(3))
    }
}

/// Length of the padded Base64 text of `n` bytes.
pub open spec fn base64_len(n: nat) -> int {
    (n / 3) * 4 + (if n % 3 > 0 { 4int } else { 0int })
}

/// `base64`'s `Engine::encode` on the `STANDARD` engine: RFC 4648 Base64
/// with the standard alphabet and `=` padding. The call panics when the
/// encoded length does not fit in `usize`, so that input is left out.
#[verifier::external_body]
fn base64_encode(data: &[u8]) -> (r: String)
    requires
        base64_len(data@.len()) <= usize::MAX,
    ensures
        r@ == base64(data@),
{
    base64::Engine::encode(&base64::engine::general_purpose::STANDARD, data)
}

/// The album art as a `data:` URL (`data:<mime>;base64,<payload>`), the
/// form the UI loads directly.
pub fn cover_data_url(cover: &Cover) -> (r: String)
    requires
        base64_len(cover.data@.len()) <= usize::MAX,
    ensures
        r@ == "data:"@ + cover.mime@ + ";base64,"@ + base64(cover.data@),
{
    let mut out = chars_of("data:");
    extend_chars(&mut out, &chars_of(cover.mime.as_str()));
    extend_chars(&mut out, &chars_of(";base64,"));
    let payload = base64_encode(cover.data.as_slice());
    extend_chars(&mut out, &chars_of(payload.as_str()));
    string_from(&out)
}

// ---------------------------------------------------------------------
// Lyrics sources
// ---------------------------------------------------------------------

/// The first text that is not blank, trimmed.
pub open spec fn first_nonblank(texts: Seq<Seq<char>>) -> Option<Seq<char>>
    decreases texts.len(),
{
    if texts.len() == 0 {
        None
    } else if trim(texts[0]).len() > 0 {
        Some(trim(texts[0]))
    } else {
        first_nonblank(texts.drop_first())
    }
}

/// Embedded lyrics: the first non-blank lyrics text of the file's tags
/// (in tag order), trimmed.
pub fn embedded_lyrics(texts: &[String]) -> (r: Option<String>)
    ensures
        r matches Some(t) ==> first_nonblank(texts@.map_values(|s: String| s@)) == Some(t@),
        r is None <==> first_nonblank(texts@.map_values(|s: String| s@)) is None,
{
    let ghost all = texts@.map_values(|s: String| s@);
    let mut i: usize = 0;
    assert(all.skip(0) == all);
    while i < texts.len()
        invariant
            i <= texts@.len(),
            all == texts@.map_values(|s: String| s@),
            first_nonblank(all) == first_nonblank(all.skip(i as int)),
        decreases texts.len() - i,
    {
        let t = trim_chars(&chars_of(texts[i].as_str()));
        assert(all.skip(i as int)[0] == texts@[i as int]@);
        assert(all.skip(i as int).drop_first() == all.skip(i + 1));
        if t.len() > 0 {
            return Some(string_from(&t));
        }
        i += 1;
    }
    assert(all.skip(i as int).len() == 0);
    None
}

/// Where the timed (synchronized) lines come from.
#[derive(Debug, Clone, Copy, PartialEq, Eq, Structural)]
pub enum TimedSource {
    /// The `.lrc` file next to the audio file.
    Sidecar,
    /// The embedded lyrics text, read as LRC.
    Embedded,
    /// No text to read timestamps from.
    Neither,
}

/// How the lyrics of a track are assembled from its embedded text and its
/// `.lrc` sidecar.
pub struct LyricsPlan {
    pub timed_from: TimedSource,
    pub plain: Option<String>,
}

/// Timed lines come from the sidecar when there is one, otherwise from the
/// embedded text; the plain text is the embedded text, or the raw sidecar
/// when nothing is embedded.
pub fn lyrics_plan(embedded: Option<String>, sidecar: Option<String>) -> (r: LyricsPlan)
    ensures
        r.timed_from == (if sidecar is Some {
            TimedSource::Sidecar
        } else if embedded is Some {
            TimedSource::Embedded
        } else {
            TimedSource::Neither
        }),
        r.plain == (if embedded is Some {
            embedded
        } else {
            sidecar
        }),
{
    let timed_from = if sidecar.is_some() {
        TimedSource::Sidecar
    } else if embedded.is_some() {
        TimedSource::Embedded
    } else {
        TimedSource::Neither
    };
    let plain = if embedded.is_some() {
        embedded
    } else {
        sidecar
    };
    LyricsPlan { timed_from, plain }
}

// ---------------------------------------------------------------------
// Format name
// ---------------------------------------------------------------------

/// Canonical short format name: the lowercased file extension, or
/// `audio` when the path has none.
pub open spec fn format_name(path: Seq<char>) -> Seq<char> {
    match extension(path) {
        Some(e) => unicode_lowercase(e),
        None => "audio"@,
    }
}

pub fn stream_format(path: &str) -> (r: String)
    ensures
        r@ == format_name(path@),
{
    match extension_chars(&chars_of(path)) {
        Some(e) => to_lowercase(string_from(&e).as_str()),
        None => String::from_str("audio"),
    }
}

} // verus!
