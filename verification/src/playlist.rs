//! Playlists: name rules, `.m3u` import/export text, path keys used to
//! match playlist entries against library tracks, and the schema
//! migration plan of the library database.

use vstd::prelude::*;

use crate::paths::{file_stem, file_stem_chars, has_prefix, join, join_chars, parent, parent_chars};
use crate::text::{
    all_ascii, ascii_lower, is_ascii_char, chars_of, decimal, digit_char, extend_chars, is_whitespace, lead_ws, signed_decimal,
    signed_decimal_chars, split_chars, split_on, string_from, to_lowercase, trail_ws, trim,
    trim_chars, unicode_lowercase, unicode_whitespace, views,
};
use crate::track::Track;

verus! {

/// A playlist row with its current track count (0 when empty).
#[derive(Debug, Clone, PartialEq, Eq)]
pub struct Playlist {
    pub id: i64,
    pub name: String,
    pub track_count: i64,
}

/// The trimmed playlist name; `None` when it is blank (playlist names must
/// not be empty).
pub fn clean_name(name: &str) -> (r: Option<String>)
    ensures
        r matches Some(n) ==> n@ == trim(name@),
        r is None <==> trim(name@).len() == 0,
{
    let t = trim_chars(&chars_of(name));
    if t.len() == 0 {
        None
    } else {
        Some(string_from(&t))
    }
}

// ---------------------------------------------------------------------
// Path keys
// ---------------------------------------------------------------------

pub open spec fn slash(c: char) -> char {
    if c == '\\' {
        '/'
    } else {
        c
    }
}

/// Lookup key of a path: lowercase, with `\` and `/` equivalent.
pub open spec fn norm_path(p: Seq<char>) -> Seq<char> {
    unicode_lowercase(p).map_values(|c: char| slash(c))
}

/// Normalized path key for lookups: case-insensitive, and `/`/`\`
/// equivalent — a file picked from a dialog can carry either separator on
/// Windows, while walking a folder yields the other.
pub fn norm(p: &str) -> (r: String)
    ensures
        r@ == norm_path(p@),
        all_ascii(p@) ==> r@ == ascii_key(p@),
{
    let lower = chars_of(to_lowercase(p).as_str());
    let mut out: Vec<char> = Vec::new();
    let mut i: usize = 0;
    while i < lower.len()
        invariant
            i <= lower@.len(),
            out@ == lower@.take(i as int).map_values(|c: char| slash(c)),
        decreases lower.len() - i,
    {
        let c = lower[i];
        out.push(if c == '\\' { '/' } else { c });
        i += 1;
        assert(out@ =~= lower@.take(i as int).map_values(|c: char| slash(c)));
    }
    assert(lower@.take(lower@.len() as int) == lower@);
    proof {
        if all_ascii(p@) {
            assert(out@ =~= ascii_key(p@));
        }
    }
    string_from(&out)
}

/// The lookup key of an ASCII path, spelled out: ASCII lowercase with `\`
/// turned into `/`.
pub open spec fn ascii_key(p: Seq<char>) -> Seq<char> {
    p.map_values(|c: char| slash(ascii_lower(c)))
}

/// Normalising a key again changes nothing: for an ASCII path the key is
/// ASCII too, and its own key is itself (so [`norm`] of [`norm`] is
/// [`norm`]).
pub proof fn law_norm_is_idempotent(p: Seq<char>)
    requires
        all_ascii(p),
    ensures
        all_ascii(ascii_key(p)),
        ascii_key(ascii_key(p)) == ascii_key(p),
{
    let k = ascii_key(p);
    assert forall|i: int| 0 <= i < k.len() implies is_ascii_char(#[trigger] k[i]) by {
        assert(is_ascii_char(p[i]));
    }
    assert(ascii_key(k) =~= k);
}

/// The folder a playlist's relative entries are read from: the parent of
/// the playlist path, or `.` when it has none.
pub open spec fn m3u_base(m3u_path: Seq<char>) -> Seq<char> {
    match parent(m3u_path) {
        Some(d) => d,
        None => "."@,
    }
}

/// A playlist entry resolved against the playlist file: joined onto the
/// playlist's folder, so an entry with a prefix (drive or UNC share)
/// stands as it is and an entry starting at a root stays on the playlist's
/// drive or share.
pub open spec fn resolve_entry(m3u_path: Seq<char>, e: Seq<char>) -> Seq<char> {
    join(m3u_base(m3u_path), e)
}

/// The path entry of one `.m3u` line: the trimmed line, unless it is blank
/// or a `#` directive/comment.
pub open spec fn m3u_entry(line: Seq<char>) -> Option<Seq<char>> {
    let t = trim(line);
    if t.len() == 0 || t[0] == '#' {
        None
    } else {
        Some(t)
    }
}

/// Lookup keys of the entries of the given lines, in order.
pub open spec fn m3u_keys_of_lines(m3u_path: Seq<char>, lines: Seq<Seq<char>>) -> Seq<Seq<char>>
    decreases lines.len(),
{
    if lines.len() == 0 {
        Seq::empty()
    } else {
        let rest = m3u_keys_of_lines(m3u_path, lines.drop_last());
        match m3u_entry(lines.last()) {
            Some(e) => rest.push(norm_path(resolve_entry(m3u_path, e))),
            None => rest,
        }
    }
}

/// Lookup keys of every entry of an `.m3u` file read from `m3u_path`.
pub open spec fn m3u_keys(m3u_path: Seq<char>, content: Seq<char>) -> Seq<Seq<char>> {
    m3u_keys_of_lines(m3u_path, split_on(content, '\n'))
}

fn m3u_base_chars(m3u_path: &Vec<char>) -> (r: Vec<char>)
    ensures
        r@ == m3u_base(m3u_path@),
{
    match parent_chars(m3u_path) {
        Some(d) => d,
        None => chars_of("."),
    }
}

/// Lookup key for the `.m3u` line `line` of a playlist whose folder is
/// `base`.
fn m3u_key(base: &Vec<char>, line: &Vec<char>) -> (r: Option<String>)
    ensures
        r matches Some(k) ==> (m3u_entry(line@) matches Some(e) && k@ == norm_path(
            join(base@, e),
        )),
        r is None ==> m3u_entry(line@) is None,
{
    let t = trim_chars(line);
    if t.len() == 0 || t[0] == '#' {
        return None;
    }
    let resolved = join_chars(base, &t);
    Some(norm(string_from(&resolved).as_str()))
}

/// Lookup keys of the entries of `.m3u` text read from `m3u_path`: blank
/// lines and `#` lines are skipped, relative entries resolve against the
/// playlist's folder, and every key is normalized with [`norm`].
pub fn m3u_lookup_keys(m3u_path: &str, content: &str) -> (r: Vec<String>)
    ensures
        r@.map_values(|s: String| s@) == m3u_keys(m3u_path@, content@),
{
    let base = m3u_base_chars(&chars_of(m3u_path));
    let lines = split_chars(&chars_of(content), '\n');
    let mut r: Vec<String> = Vec::new();
    let mut i: usize = 0;
    while i < lines.len()
        invariant
            i <= lines@.len(),
            base@ == m3u_base(m3u_path@),
            views(lines@) == split_on(content@, '\n'),
            r@.map_values(|s: String| s@) == m3u_keys_of_lines(
                m3u_path@,
                views(lines@).take(i as int),
            ),
        decreases lines.len() - i,
    {
        let ghost pre = views(lines@).take(i + 1);
        assert(pre.drop_last() == views(lines@).take(i as int));
        assert(pre.last() == lines@[i as int]@);
        match m3u_key(&base, &lines[i]) {
            Some(k) => {
                let ghost before = r@;
                r.push(k);
                assert(r@.map_values(|s: String| s@) =~= before.map_values(|s: String| s@).push(
                    r@[r@.len() - 1]@,
                ));
            },
            None => {},
        }
        i += 1;
    }
    assert(views(lines@).take(lines@.len() as int) == views(lines@));
    r
}

/// Name of a playlist imported from `m3u_path`: the file stem when it is
/// not blank, otherwise `Imported`.
pub open spec fn import_name(m3u_path: Seq<char>) -> Seq<char> {
    match file_stem(m3u_path) {
        Some(s) => if trim(s).len() > 0 {
            s
        } else {
            "Imported"@
        },
        None => "Imported"@,
    }
}

pub fn m3u_playlist_name(m3u_path: &str) -> (r: String)
    ensures
        r@ == import_name(m3u_path@),
{
    match file_stem_chars(&chars_of(m3u_path)) {
        Some(stem) => {
            if trim_chars(&stem).len() > 0 {
                string_from(&stem)
            } else {
                String::from_str("Imported")
            }
        },
        None => String::from_str("Imported"),
    }
}

// ---------------------------------------------------------------------
// Export
// ---------------------------------------------------------------------

/// Whole seconds of a millisecond count, truncated toward zero.
pub open spec fn whole_seconds(ms: int) -> int {
    if ms >= 0 {
        ms / 1000
    } else {
        -((-ms) / 1000)
    }
}

/// `#EXTINF:<seconds>,<title>` followed by the track path.
pub open spec fn extinf_entry(t: Track) -> Seq<char> {
    "#EXTINF:"@ + signed_decimal(whole_seconds(t.duration_ms as int)) + seq![','] + t.title@
        + seq!['\n'] + t.path@ + seq!['\n']
}

/// An extended `.m3u` document: the `#EXTM3U` header and one entry per
/// track, in order.
pub open spec fn m3u_document(ts: Seq<Track>) -> Seq<char>
    decreases ts.len(),
{
    if ts.len() == 0 {
        "#EXTM3U\n"@
    } else {
        m3u_document(ts.drop_last()) + extinf_entry(ts.last())
    }
}

fn seconds_of(ms: i64) -> (r: i64)
    ensures
        r as int == whole_seconds(ms as int),
{
    if ms >= 0 {
        ms / 1000
    } else if ms == i64::MIN {
        -9_223_372_036_854_775
    } else {
        -((-ms) / 1000)
    }
}

/// `.m3u` content for the given playlist tracks (in playlist order).
pub fn m3u_text(tracks: &[Track]) -> (r: String)
    ensures
        r@ == m3u_document(tracks@),
        (forall|i: int| 0 <= i < tracks@.len() ==> m3u_safe(#[trigger] tracks@[i])) ==> forall|
            base: Seq<char>,
        | #[trigger] m3u_keys(base, r@) == resolved_keys(base, tracks@),
        (forall|i: int|
            0 <= i < tracks@.len() ==> m3u_safe(#[trigger] tracks@[i]) && has_prefix(
                tracks@[i].path@,
            )) ==> forall|base: Seq<char>| #[trigger] m3u_keys(base, r@) == path_keys(tracks@),
{
    // '#' is not whitespace, so directive lines stay directives after trimming
    let hash_is_space = is_whitespace('#');
    assert(!hash_is_space);
    let mut out = chars_of("#EXTM3U\n");
    let extinf = chars_of("#EXTINF:");
    let mut i: usize = 0;
    while i < tracks.len()
        invariant
            i <= tracks@.len(),
            extinf@ == "#EXTINF:"@,
            out@ == m3u_document(tracks@.take(i as int)),
        decreases tracks.len() - i,
    {
        let t = &tracks[i];
        let ghost before = out@;
        extend_chars(&mut out, &extinf);
        extend_chars(&mut out, &signed_decimal_chars(seconds_of(t.duration_ms)));
        out.push(',');
        extend_chars(&mut out, &chars_of(t.title.as_str()));
        out.push('\n');
        extend_chars(&mut out, &chars_of(t.path.as_str()));
        out.push('\n');
        let ghost pre = tracks@.take(i + 1);
        assert(pre.drop_last() == tracks@.take(i as int));
        assert(pre.last() == tracks@[i as int]);
        assert(out@ =~= before + extinf_entry(tracks@[i as int]));
        i += 1;
    }
    assert(tracks@.take(tracks@.len() as int) == tracks@);
    proof {
        if forall|i: int| 0 <= i < tracks@.len() ==> m3u_safe(#[trigger] tracks@[i]) {
            assert forall|base: Seq<char>| #[trigger] m3u_keys(base, out@) == resolved_keys(
                base,
                tracks@,
            ) by {
                lemma_m3u_roundtrip(base, tracks@);
            }
        }
        if forall|i: int|
            0 <= i < tracks@.len() ==> m3u_safe(#[trigger] tracks@[i]) && has_prefix(
                tracks@[i].path@,
            ) {
            assert forall|base: Seq<char>| #[trigger] m3u_keys(base, out@) == path_keys(tracks@) by {
                lemma_m3u_roundtrip(base, tracks@);
                lemma_prefixed_paths_resolve_to_themselves(base, tracks@);
            }
        }
    }
    string_from(&out)
}

// ---------------------------------------------------------------------
// Export / import round trip
// ---------------------------------------------------------------------

pub open spec fn no_newline(s: Seq<char>) -> bool {
    forall|i: int| 0 <= i < s.len() ==> s[i] != '\n'
}

/// A track whose entry reads back as one entry: title and path on one line
/// each, the path without surrounding whitespace and not starting with `#`.
pub open spec fn m3u_safe(t: Track) -> bool {
    &&& no_newline(t.title@)
    &&& no_newline(t.path@)
    &&& trim(t.path@) == t.path@
    &&& t.path@.len() > 0
    &&& t.path@[0] != '#'
}

/// The lookup keys of the tracks' paths, in order.
pub open spec fn path_keys(ts: Seq<Track>) -> Seq<Seq<char>> {
    ts.map_values(|t: Track| norm_path(t.path@))
}

/// The lookup keys of the tracks' paths read as entries of a playlist at
/// `base`, in order.
pub open spec fn resolved_keys(base: Seq<char>, ts: Seq<Track>) -> Seq<Seq<char>> {
    ts.map_values(|t: Track| norm_path(resolve_entry(base, t.path@)))
}

/// A path with a prefix (a drive, or a UNC share) is read back from any
/// playlist as itself.
pub proof fn lemma_prefixed_paths_resolve_to_themselves(base: Seq<char>, ts: Seq<Track>)
    requires
        forall|i: int| 0 <= i < ts.len() ==> has_prefix(#[trigger] ts[i].path@),
    ensures
        resolved_keys(base, ts) == path_keys(ts),
{
    assert forall|i: int| 0 <= i < ts.len() implies #[trigger] resolved_keys(base, ts)[i]
        == path_keys(ts)[i] by {
        assert(has_prefix(ts[i].path@));
    }
    assert(resolved_keys(base, ts) =~= path_keys(ts));
}

proof fn lemma_split_no_sep(s: Seq<char>, sep: char)
    requires
        forall|i: int| 0 <= i < s.len() ==> s[i] != sep,
    ensures
        split_on(s, sep) == seq![s],
    decreases s.len(),
{
    if s.len() > 0 {
        lemma_split_no_sep(s.drop_last(), sep);
        assert(s.drop_last().push(s.last()) =~= s);
        assert(seq![s.drop_last()].update(0, s.drop_last().push(s.last())) =~= seq![s]);
    } else {
        assert(s =~= Seq::<char>::empty());
    }
}

proof fn lemma_split_push_sep(x: Seq<char>, sep: char)
    ensures
        split_on(x.push(sep), sep) == split_on(x, sep).push(Seq::empty()),
{
    assert(x.push(sep).drop_last() =~= x);
}

proof fn lemma_split_append(a: Seq<char>, b: Seq<char>, sep: char)
    requires
        a.len() > 0,
        a.last() == sep,
    ensures
        split_on(a + b, sep) == split_on(a, sep).drop_last() + split_on(b, sep),
    decreases b.len(),
{
    let prefix = split_on(a.drop_last(), sep);
    assert(split_on(a, sep) == prefix.push(Seq::empty()));
    assert(split_on(a, sep).drop_last() == prefix);
    if b.len() == 0 {
        assert(a + b == a);
        assert(prefix.push(Seq::empty()) =~= prefix + seq![Seq::<char>::empty()]);
    } else {
        lemma_split_append(a, b.drop_last(), sep);
        assert((a + b).drop_last() == a + b.drop_last());
        assert((a + b).last() == b.last());
        let y = split_on(b.drop_last(), sep);
        crate::text::lemma_split_on_nonempty(b.drop_last(), sep);
        let x = prefix + y;
        if b.last() == sep {
            assert(x.push(Seq::empty()) =~= prefix + y.push(Seq::empty()));
        } else {
            assert(x.update(x.len() - 1, x.last().push(b.last())) =~= prefix + y.update(
                y.len() - 1,
                y.last().push(b.last()),
            ));
        }
    }
}

proof fn lemma_keys_append(base: Seq<char>, l1: Seq<Seq<char>>, l2: Seq<Seq<char>>)
    ensures
        m3u_keys_of_lines(base, l1 + l2) == m3u_keys_of_lines(base, l1) + m3u_keys_of_lines(
            base,
            l2,
        ),
    decreases l2.len(),
{
    if l2.len() == 0 {
        assert(l1 + l2 == l1);
        assert(m3u_keys_of_lines(base, l1) + Seq::<Seq<char>>::empty() == m3u_keys_of_lines(
            base,
            l1,
        ));
    } else {
        lemma_keys_append(base, l1, l2.drop_last());
        assert((l1 + l2).drop_last() == l1 + l2.drop_last());
        assert((l1 + l2).last() == l2.last());
        let k1 = m3u_keys_of_lines(base, l1);
        let k2 = m3u_keys_of_lines(base, l2.drop_last());
        if let Some(e) = m3u_entry(l2.last()) {
            assert((k1 + k2).push(norm_path(resolve_entry(base, e))) =~= k1 + k2.push(
                norm_path(resolve_entry(base, e)),
            ));
        }
    }
}

proof fn lemma_lead_ws_zero(s: Seq<char>)
    requires
        s.len() > 0,
        !unicode_whitespace(s[0]),
    ensures
        lead_ws(s) == 0,
{
}

proof fn lemma_trail_ws_all(s: Seq<char>)
    requires
        trail_ws(s) == s.len(),
    ensures
        forall|i: int| 0 <= i < s.len() ==> unicode_whitespace(s[i]),
    decreases s.len(),
{
    if s.len() > 0 {
        lemma_trail_ws_all(s.drop_last());
        assert forall|i: int| 0 <= i < s.len() implies unicode_whitespace(s[i]) by {
            if i < s.len() - 1 {
                assert(s[i] == s.drop_last()[i]);
            }
        }
    }
}

/// A line whose first character is not whitespace keeps that character
/// first after trimming.
proof fn lemma_trim_first(s: Seq<char>)
    requires
        s.len() > 0,
        !unicode_whitespace(s[0]),
    ensures
        trim(s).len() > 0,
        trim(s)[0] == s[0],
{
    lemma_lead_ws_zero(s);
    assert(s.skip(0) == s);
    crate::text::lemma_trail_ws_bound(s);
    if trail_ws(s) == s.len() {
        lemma_trail_ws_all(s);
    }
}

proof fn lemma_decimal_no_newline(n: nat)
    ensures
        no_newline(decimal(n)),
        decimal(n).len() > 0,
    decreases n,
{
    if n >= 10 {
        lemma_decimal_no_newline(n / 10);
        let d = decimal(n / 10).push(digit_char((n % 10) as int));
        assert forall|i: int| 0 <= i < d.len() implies d[i] != '\n' by {
            if i < d.len() - 1 {
                assert(d[i] == decimal(n / 10)[i]);
            }
        }
    }
}

proof fn lemma_directive_line(base: Seq<char>, line: Seq<char>)
    requires
        line.len() > 0,
        line[0] == '#',
        !unicode_whitespace('#'),
    ensures
        m3u_entry(line) is None,
{
    lemma_trim_first(line);
}

/// Exporting tracks as `.m3u` and reading the file back from any playlist
/// path yields the lookup keys of the tracks' paths as entries of that
/// playlist, in the same order.
pub proof fn lemma_m3u_roundtrip(base: Seq<char>, ts: Seq<Track>)
    requires
        forall|i: int| 0 <= i < ts.len() ==> m3u_safe(#[trigger] ts[i]),
        !unicode_whitespace('#'),
    ensures
        m3u_keys(base, m3u_document(ts)) == resolved_keys(base, ts),
        m3u_document(ts).len() > 0,
        m3u_document(ts).last() == '\n',
    decreases ts.len(),
{
    let doc = m3u_document(ts);
    if ts.len() == 0 {
        reveal_strlit("#EXTM3U\n");
        let h = "#EXTM3U"@;
        reveal_strlit("#EXTM3U");
        assert(doc =~= h.push('\n'));
        lemma_split_no_sep(h, '\n');
        lemma_split_push_sep(h, '\n');
        assert(split_on(doc, '\n') =~= seq![h, Seq::empty()]);
        lemma_directive_line(base, h);
        assert(m3u_entry(Seq::<char>::empty()) is None);
        let lines = seq![h, Seq::<char>::empty()];
        assert(lines.drop_last() =~= seq![h]);
        assert(lines.drop_last().drop_last() =~= Seq::<Seq<char>>::empty());
        assert(m3u_entry(h) is None);
        assert(m3u_keys_of_lines(base, Seq::<Seq<char>>::empty()) == Seq::<Seq<char>>::empty());
        assert(m3u_keys_of_lines(base, lines.drop_last()) == Seq::<Seq<char>>::empty());
        assert(m3u_keys_of_lines(base, lines) == Seq::<Seq<char>>::empty());
        assert(resolved_keys(base, ts) =~= Seq::<Seq<char>>::empty());
    } else {
        let prev = ts.drop_last();
        let t = ts.last();
        assert forall|i: int| 0 <= i < prev.len() implies m3u_safe(#[trigger] prev[i]) by {
            assert(prev[i] == ts[i]);
        }
        lemma_m3u_roundtrip(base, prev);
        let pdoc = m3u_document(prev);
        reveal_strlit("#EXTINF:");
        let secs = signed_decimal(whole_seconds(t.duration_ms as int));
        let head = "#EXTINF:"@ + secs + seq![','] + t.title@;
        assert forall|i: int| 0 <= i < secs.len() implies secs[i] != '\n' by {
            let w = whole_seconds(t.duration_ms as int);
            if w < 0 {
                lemma_decimal_no_newline((-w) as nat);
                if i > 0 {
                    assert(secs[i] == decimal((-w) as nat)[i - 1]);
                }
            } else {
                lemma_decimal_no_newline(w as nat);
            }
        }
        assert forall|i: int| 0 <= i < head.len() implies head[i] != '\n' by {
            if i >= 8 + secs.len() + 1 {
                assert(head[i] == t.title@[i - 8 - secs.len() - 1]);
            } else if i >= 8 && i < 8 + secs.len() {
                assert(head[i] == secs[i - 8]);
            }
        }
        let e1 = head.push('\n');
        let e2 = t.path@.push('\n');
        assert(extinf_entry(t) =~= e1 + e2);
        assert(doc =~= pdoc + (e1 + e2));
        // lines of the new entry
        lemma_split_no_sep(head, '\n');
        lemma_split_no_sep(t.path@, '\n');
        lemma_split_push_sep(head, '\n');
        lemma_split_push_sep(t.path@, '\n');
        assert(split_on(e1, '\n') =~= seq![head, Seq::empty()]);
        assert(split_on(e2, '\n') =~= seq![t.path@, Seq::empty()]);
        lemma_split_append(e1, e2, '\n');
        let entry_lines = seq![head, t.path@, Seq::<char>::empty()];
        assert(split_on(e1 + e2, '\n') =~= entry_lines);
        lemma_split_append(pdoc, e1 + e2, '\n');
        let plines = split_on(pdoc, '\n');
        assert(plines.last() == Seq::<char>::empty());
        assert(split_on(doc, '\n') == plines.drop_last() + entry_lines);
        lemma_keys_append(base, plines.drop_last(), entry_lines);
        assert(m3u_entry(Seq::<char>::empty()) is None);
        assert(plines == plines.drop_last().push(plines.last()));
        assert(m3u_keys_of_lines(base, plines) == m3u_keys_of_lines(base, plines.drop_last()));
        // the entry contributes exactly the path key
        assert(head[0] == '#');
        lemma_directive_line(base, head);
        assert(entry_lines.drop_last() =~= seq![head, t.path@]);
        assert(entry_lines.drop_last().drop_last() =~= seq![head]);
        assert(seq![head].drop_last() =~= Seq::<Seq<char>>::empty());
        assert(m3u_entry(t.path@) == Some(t.path@));
        let one = seq![head];
        let two = seq![head, t.path@];
        assert(one.drop_last() =~= Seq::<Seq<char>>::empty());
        assert(one.last() == head);
        assert(m3u_entry(head) is None);
        assert(m3u_keys_of_lines(base, Seq::<Seq<char>>::empty()) == Seq::<Seq<char>>::empty());
        assert(m3u_keys_of_lines(base, one) == m3u_keys_of_lines(base, one.drop_last()));
        assert(m3u_keys_of_lines(base, one) =~= Seq::<Seq<char>>::empty());
        assert(two.drop_last() =~= one);
        assert(two.last() == t.path@);
        assert(m3u_keys_of_lines(base, two) =~= seq![norm_path(resolve_entry(base, t.path@))]);
        assert(entry_lines.drop_last() =~= two);
        assert(entry_lines.last() == Seq::<char>::empty());
        assert(m3u_keys_of_lines(base, entry_lines) =~= seq![
            norm_path(resolve_entry(base, t.path@)),
        ]);
        assert(resolved_keys(base, ts) =~= resolved_keys(base, prev).push(
            norm_path(resolve_entry(base, t.path@)),
        ));
        assert(m3u_keys(base, pdoc) == m3u_keys_of_lines(base, plines));
        assert(m3u_keys(base, doc) == m3u_keys_of_lines(base, plines.drop_last())
            + m3u_keys_of_lines(base, entry_lines));
        assert(m3u_keys(base, doc) =~= resolved_keys(base, prev).push(
            norm_path(resolve_entry(base, t.path@)),
        ));
        assert(doc.last() == '\n');
    }
}

// ---------------------------------------------------------------------
// Schema migration
// ---------------------------------------------------------------------

/// Schema version written by this build.
pub const SCHEMA_VERSION: i32 = 2;

/// One schema script of the library database.
#[derive(Debug, Clone, Copy, PartialEq, Eq, Structural)]
pub enum SchemaStep {
    /// Tracks table, full-text index and its triggers (version 1).
    Tracks,
    /// Playlists and playlist entries (version 2).
    Playlists,
}

/// Scripts that bring a database at `version` to [`SCHEMA_VERSION`], in
/// order; `None` for a version this build does not know.
pub open spec fn migration_plan(version: i32) -> Option<Seq<SchemaStep>> {
    if version == 0 {
        Some(seq![SchemaStep::Tracks, SchemaStep::Playlists])
    } else if version == 1 {
        Some(seq![SchemaStep::Playlists])
    } else if version == 2 {
        Some(Seq::empty())
    } else {
        None
    }
}

pub fn migration_steps(version: i32) -> (r: Option<Vec<SchemaStep>>)
    ensures
        r matches Some(v) ==> migration_plan(version) == Some(v@),
        r is None <==> migration_plan(version) is None,
{
    if version == 0 {
        let mut v = Vec::new();
        v.push(SchemaStep::Tracks);
        v.push(SchemaStep::Playlists);
        assert(v@ =~= seq![SchemaStep::Tracks, SchemaStep::Playlists]);
        Some(v)
    } else if version == 1 {
        let mut v = Vec::new();
        v.push(SchemaStep::Playlists);
        assert(v@ =~= seq![SchemaStep::Playlists]);
        Some(v)
    } else if version == 2 {
        let v: Vec<SchemaStep> = Vec::new();
        assert(v@ =~= Seq::<SchemaStep>::empty());
        Some(v)
    } else {
        None
    }
}

} // verus!
