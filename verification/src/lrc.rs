//! LRC (synchronized lyrics) text structure.
//!
//! A line carries bracketed tags before its text: timestamps
//! (`[mm:ss.xx]`, `[hh:mm:ss.xx]`, several per line), metadata (`[ti:…]`,
//! `[ar:…]`) and the global `[offset:±ms]`. This module splits the text
//! into lines and tags, keeps the candidate timestamp tags of every line
//! with its text, and applies the offset rule; turning a timestamp tag
//! into seconds is a decimal (floating-point) conversion done by the
//! caller.

use vstd::prelude::*;

use crate::text::{
    chars_of, chars_start_with, is_ascii_digit, lemma_lead_ws_bound, slice_chars, split_chars,
    split_on, string_from, trim, trim_chars, trim_start, trim_start_chars, views,
};

verus! {

// ---------------------------------------------------------------------
// Integers (`i64::from_str`)
// ---------------------------------------------------------------------

pub open spec fn all_digits(d: Seq<char>) -> bool {
    forall|i: int| 0 <= i < d.len() ==> is_ascii_digit(#[trigger] d[i])
}

pub open spec fn digits_value(d: Seq<char>) -> int
    decreases d.len(),
{
    if d.len() == 0 {
        0
    } else {
        digits_value(d.drop_last()) * 10 + ((d.last() as int) - ('0' as int))
    }
}

/// `i64::from_str`: an optional `+`/`-` sign followed by at least one
/// ASCII digit, within the range of `i64`.
pub open spec fn parse_i64(s: Seq<char>) -> Option<int> {
    let signed = s.len() > 0 && (s[0] == '-' || s[0] == '+');
    let d = if signed {
        s.drop_first()
    } else {
        s
    };
    if d.len() == 0 || !all_digits(d) {
        None
    } else {
        let v = if s[0] == '-' {
            -digits_value(d)
        } else {
            digits_value(d)
        };
        if i64::MIN <= v && v <= i64::MAX {
            Some(v)
        } else {
            None
        }
    }
}

proof fn lemma_digits_value_grows(d: Seq<char>, k: int)
    requires
        all_digits(d),
        0 <= k <= d.len(),
    ensures
        0 <= digits_value(d.take(k)) <= digits_value(d),
    decreases d.len(),
{
    if d.len() > 0 {
        if k == d.len() {
            assert(d.take(k) == d);
            lemma_digits_value_grows(d.drop_last(), k - 1);
            assert(d.drop_last().take(k - 1) == d.drop_last());
        } else {
            lemma_digits_value_grows(d.drop_last(), k);
            assert(d.drop_last().take(k) == d.take(k));
        }
        assert(is_ascii_digit(d[d.len() - 1]));
    }
}

/// `i64` parse of `s` (see [`parse_i64`]).
pub fn parse_i64_chars(s: &Vec<char>) -> (r: Option<i64>)
    ensures
        r matches Some(v) ==> parse_i64(s@) == Some(v as int),
        r is None ==> parse_i64(s@) is None,
{
    let n = s.len();
    let signed = n > 0 && (s[0] == '-' || s[0] == '+');
    let negative = n > 0 && s[0] == '-';
    let start: usize = if signed {
        1
    } else {
        0
    };
    let ghost d = if signed {
        s@.drop_first()
    } else {
        s@
    };
    assert(d =~= s@.skip(start as int));
    if start == n {
        return None;
    }
    let mut mag: u128 = 0;
    let mut i: usize = start;
    let limit: u128 = 9_223_372_036_854_775_808u128;
    while i < n
        invariant
            start <= i <= n == s@.len(),
            start == 0 || start == 1,
            (start == 1) == (n > 0 && (s@[0] == '-' || s@[0] == '+')),
            negative == (n > 0 && s@[0] == '-'),
            d == (if start == 1 { s@.drop_first() } else { s@ }),
            d == s@.skip(start as int),
            limit == 9_223_372_036_854_775_808u128,
            mag <= limit,
            all_digits(d.take(i - start)),
            mag as int == digits_value(d.take(i - start)),
        decreases n - i,
    {
        let c = s[i];
        let ghost pre = d.take(i - start + 1);
        assert(pre.drop_last() == d.take(i - start));
        assert(pre.last() == c);
        assert(d[i - start] == c);
        if !('0' <= c && c <= '9') {
            assert(!is_ascii_digit(d[i - start]));
            assert(!all_digits(d));
            return None;
        }
        assert(all_digits(pre));
        let digit: u128 = ((c as u32) - ('0' as u32)) as u128;
        assert(digit as int == (c as int) - ('0' as int));
        mag = mag * 10 + digit;
        assert(mag as int == digits_value(pre));
        i += 1;
        if mag > limit {
            proof {
                if all_digits(d) {
                    lemma_digits_value_grows(d, i - start);
                    assert(digits_value(d) > 9_223_372_036_854_775_808);
                }
            }
            return None;
        }
    }
    assert(d.take(n - start) == d);
    if negative {
        if mag == limit {
            Some(i64::MIN)
        } else {
            Some(-(mag as i64))
        }
    } else {
        if mag > 9_223_372_036_854_775_807u128 {
            None
        } else {
            Some(mag as i64)
        }
    }
}

// ---------------------------------------------------------------------
// Tags
// ---------------------------------------------------------------------

/// Position of the first `c` in `s`, or -1.
pub open spec fn find_char(s: Seq<char>, c: char) -> int
    decreases s.len(),
{
    if s.len() == 0 {
        -1
    } else if s[0] == c {
        0
    } else {
        let k = find_char(s.drop_first(), c);
        if k < 0 {
            -1
        } else {
            k + 1
        }
    }
}

pub proof fn lemma_find_char(s: Seq<char>, c: char)
    ensures
        -1 <= find_char(s, c) < s.len(),
        find_char(s, c) >= 0 ==> s[find_char(s, c)] == c,
        find_char(s, c) >= 0 ==> forall|i: int| 0 <= i < find_char(s, c) ==> s[i] != c,
        find_char(s, c) < 0 ==> forall|i: int| 0 <= i < s.len() ==> s[i] != c,
    decreases s.len(),
{
    if s.len() > 0 && s[0] != c {
        lemma_find_char(s.drop_first(), c);
        assert forall|i: int| 0 < i < s.len() implies s[i] == s.drop_first()[i - 1] by {}
    }
}

/// The leading bracketed tags of a (trimmed) line and the text after
/// them: while the rest starts with `[` and has a closing `]`, the text
/// between them is a tag and the rest continues after `]`, without leading
/// whitespace.
pub open spec fn line_tags(rest: Seq<char>) -> (Seq<Seq<char>>, Seq<char>)
    decreases rest.len(),
{
    if rest.len() > 0 && rest[0] == '[' && find_char(rest.drop_first(), ']') >= 0 {
        let inner = rest.drop_first();
        let e = find_char(inner, ']');
        let next = trim_start(inner.skip(e + 1));
        proof {
            lemma_find_char(inner, ']');
            lemma_lead_ws_bound(inner.skip(e + 1));
        }
        let (ts, text) = line_tags(next);
        (seq![inner.take(e)] + ts, text)
    } else {
        (Seq::empty(), rest)
    }
}

/// A tag that sets the global offset.
pub open spec fn is_offset_tag(tag: Seq<char>) -> bool {
    tag.len() >= 7 && tag.take(7) == "offset:"@
}

/// The candidate timestamp tags: every tag that is not an offset tag.
pub open spec fn stamp_tags(tags: Seq<Seq<char>>) -> Seq<Seq<char>>
    decreases tags.len(),
{
    if tags.len() == 0 {
        Seq::empty()
    } else {
        let rest = stamp_tags(tags.drop_last());
        if is_offset_tag(tags.last()) {
            rest
        } else {
            rest.push(tags.last())
        }
    }
}

/// The offset after reading `tags`, starting from `acc`: every offset tag
/// whose value (trimmed) is an `i64` replaces it.
pub open spec fn tags_offset(tags: Seq<Seq<char>>, acc: int) -> int
    decreases tags.len(),
{
    if tags.len() == 0 {
        acc
    } else {
        let o = tags_offset(tags.drop_last(), acc);
        let t = tags.last();
        if is_offset_tag(t) {
            match parse_i64(trim(t.skip(7))) {
                Some(v) => v,
                None => o,
            }
        } else {
            o
        }
    }
}

/// Tags and text of one line of LRC text (nothing for a blank line).
pub open spec fn piece_tags(piece: Seq<char>) -> (Seq<Seq<char>>, Seq<char>) {
    let rest = trim(piece);
    if rest.len() == 0 {
        (Seq::empty(), Seq::empty())
    } else {
        line_tags(rest)
    }
}

/// The timed lines: for every line with at least one candidate timestamp
/// tag, those tags and the line's text.
pub open spec fn lrc_lines(pieces: Seq<Seq<char>>) -> Seq<(Seq<Seq<char>>, Seq<char>)>
    decreases pieces.len(),
{
    if pieces.len() == 0 {
        Seq::empty()
    } else {
        let prev = lrc_lines(pieces.drop_last());
        let (tags, text) = piece_tags(pieces.last());
        let st = stamp_tags(tags);
        if st.len() > 0 {
            prev.push((st, text))
        } else {
            prev
        }
    }
}

/// The offset (ms) in force after all lines: the last valid offset tag,
/// 0 when there is none.
pub open spec fn lrc_offset(pieces: Seq<Seq<char>>) -> int
    decreases pieces.len(),
{
    if pieces.len() == 0 {
        0
    } else {
        tags_offset(piece_tags(pieces.last()).0, lrc_offset(pieces.drop_last()))
    }
}

/// One timed line: its candidate timestamp tags and its text.
pub struct LrcLine {
    pub stamps: Vec<String>,
    pub text: String,
}

/// Structure of LRC text: the timed lines in file order and the global
/// offset in milliseconds, which applies to every timestamp.
pub struct LrcText {
    pub lines: Vec<LrcLine>,
    pub offset_ms: i64,
}

pub open spec fn string_seq_view(v: Seq<String>) -> Seq<Seq<char>> {
    v.map_values(|s: String| s@)
}

pub open spec fn line_view(l: LrcLine) -> (Seq<Seq<char>>, Seq<char>) {
    (string_seq_view(l.stamps@), l.text@)
}

pub open spec fn lines_view(v: Seq<LrcLine>) -> Seq<(Seq<Seq<char>>, Seq<char>)> {
    v.map_values(|l: LrcLine| line_view(l))
}

/// Tags and text of a trimmed, non-empty line.
fn split_tags(rest0: &Vec<char>) -> (r: (Vec<Vec<char>>, Vec<char>))
    ensures
        (views(r.0@), r.1@) == line_tags(rest0@),
{
    let mut tags: Vec<Vec<char>> = Vec::new();
    let mut rest = slice_chars(rest0, 0, rest0.len());
    assert(rest@ =~= rest0@);
    loop
        invariant
            line_tags(rest0@) == (views(tags@) + line_tags(rest@).0, line_tags(rest@).1),
        decreases rest@.len(),
    {
        if rest.len() == 0 || rest[0] != '[' {
            assert(views(tags@) + Seq::<Seq<char>>::empty() == views(tags@));
            return (tags, rest);
        }
        let ghost inner = rest@.drop_first();
        let mut e: usize = 1;
        while e < rest.len() && rest[e] != ']'
            invariant
                1 <= e <= rest@.len(),
                inner == rest@.drop_first(),
                forall|k: int| 0 <= k < e - 1 ==> inner[k] != ']',
            decreases rest.len() - e,
        {
            e += 1;
        }
        proof {
            lemma_find_char(inner, ']');
        }
        if e == rest.len() {
            assert(find_char(inner, ']') < 0);
            assert(views(tags@) + Seq::<Seq<char>>::empty() == views(tags@));
            return (tags, rest);
        }
        assert(inner[e - 1] == rest@[e as int]);
        assert(find_char(inner, ']') == e - 1);
        let tag = slice_chars(&rest, 1, e);
        assert(tag@ =~= inner.take(e - 1));
        let after = slice_chars(&rest, e + 1, rest.len());
        assert(after@ =~= inner.skip(e as int));
        let next = trim_start_chars(&after);
        proof {
            lemma_lead_ws_bound(after@);
            crate::text::lemma_views_push(tags@, tag);
            let (ts, text) = line_tags(next@);
            assert(line_tags(rest@) == (seq![tag@] + ts, text));
            assert(views(tags@.push(tag)) + ts =~= views(tags@) + (seq![tag@] + ts));
        }
        tags.push(tag);
        rest = next;
    }
}

/// Split LRC text into its timed lines (candidate timestamp tags + text)
/// and the global `[offset:±ms]`. Blank lines are skipped, metadata tags
/// are kept as candidates (they are not timestamps and are dropped when
/// converted), lines without tags are not timed lines.
pub fn parse_lrc_text(text: &str) -> (r: LrcText)
    ensures
        lines_view(r.lines@) == lrc_lines(split_on(text@, '\n')),
        r.offset_ms as int == lrc_offset(split_on(text@, '\n')),
{
    let pieces = split_chars(&chars_of(text), '\n');
    let offset_prefix = chars_of("offset:");
    let mut lines: Vec<LrcLine> = Vec::new();
    let mut offset: i64 = 0;
    let mut i: usize = 0;
    while i < pieces.len()
        invariant
            i <= pieces@.len(),
            offset_prefix@ == "offset:"@,
            views(pieces@) == split_on(text@, '\n'),
            lines_view(lines@) == lrc_lines(views(pieces@).take(i as int)),
            offset as int == lrc_offset(views(pieces@).take(i as int)),
        decreases pieces.len() - i,
    {
        let ghost pre = views(pieces@).take(i + 1);
        assert(pre.drop_last() == views(pieces@).take(i as int));
        assert(pre.last() == pieces@[i as int]@);
        let rest = trim_chars(&pieces[i]);
        let ghost tv = piece_tags(pieces@[i as int]@);
        let (tags, line_text) = if rest.len() == 0 {
            let t: Vec<Vec<char>> = Vec::new();
            assert(views(t@) =~= Seq::<Seq<char>>::empty());
            (t, Vec::new())
        } else {
            split_tags(&rest)
        };
        assert((views(tags@), line_text@) == tv);
        let mut stamps: Vec<String> = Vec::new();
        let ghost off0 = offset as int;
        let mut j: usize = 0;
        while j < tags.len()
            invariant
                j <= tags@.len(),
                offset_prefix@ == "offset:"@,
                string_seq_view(stamps@) == stamp_tags(views(tags@).take(j as int)),
                offset as int == tags_offset(views(tags@).take(j as int), off0),
            decreases tags.len() - j,
        {
            let ghost tp = views(tags@).take(j + 1);
            assert(tp.drop_last() == views(tags@).take(j as int));
            assert(tp.last() == tags@[j as int]@);
            let tag = &tags[j];
            let is_offset = chars_start_with(tag, &offset_prefix);
            proof {
                reveal_strlit("offset:");
            }
            assert(is_offset == is_offset_tag(tag@));
            if is_offset {
                let tail = slice_chars(tag, 7, tag.len());
                assert(tail@ =~= tag@.skip(7));
                let value = trim_chars(&tail);
                match parse_i64_chars(&value) {
                    Some(v) => {
                        offset = v;
                    },
                    None => {},
                }
            } else {
                let ghost before = stamps@;
                stamps.push(string_from(tag));
                assert(string_seq_view(stamps@) =~= string_seq_view(before).push(tag@));
            }
            j += 1;
        }
        assert(views(tags@).take(tags@.len() as int) == views(tags@));
        if stamps.len() > 0 {
            let ghost before = lines@;
            let line = LrcLine { stamps, text: string_from(&line_text) };
            lines.push(line);
            assert(lines_view(lines@) =~= lines_view(before).push(line_view(line)));
        }
        i += 1;
    }
    assert(views(pieces@).take(pieces@.len() as int) == views(pieces@));
    LrcText { lines, offset_ms: offset }
}

} // verus!
