//! File-name arithmetic on path strings (no filesystem access).
//!
//! Paths are treated the way the player's target platform (Windows) sees
//! them: both `/` and `\` separate components, a leading prefix (a drive
//! `X:`, a UNC `\\server\share`, a device `\\.\name` or a verbatim
//! `\\?\...`) is not part of any name, and joining follows Windows rules,
//! so a path picked from a dialog and one produced by walking a folder
//! split the same way on every machine. Within a verbatim path `/` still
//! counts as a separator here, and pushing onto a verbatim base does not
//! normalize the pushed components.

use vstd::prelude::*;

use crate::text::{all_ascii, chars_of, is_ascii_lower, is_ascii_upper, slice_chars};

verus! {

pub open spec fn is_sep(c: char) -> bool {
    c == '/' || c == '\\'
}

/// `p` without trailing separators.
pub open spec fn strip_trailing_seps(p: Seq<char>) -> Seq<char>
    decreases p.len(),
{
    if p.len() > 0 && is_sep(p.last()) {
        strip_trailing_seps(p.drop_last())
    } else {
        p
    }
}

/// Index just after the last separator of `q` (0 when there is none).
pub open spec fn after_last_sep(q: Seq<char>) -> int
    decreases q.len(),
{
    if q.len() == 0 {
        0
    } else if is_sep(q.last()) {
        q.len() as int
    } else {
        after_last_sep(q.drop_last())
    }
}

/// A drive prefix (`X:`, with an ASCII letter) starts `p`.
pub open spec fn has_drive(p: Seq<char>) -> bool {
    p.len() >= 2 && (is_ascii_upper(p[0]) || is_ascii_lower(p[0])) && p[1] == ':'
}

/// Index of the first separator of `p` at or after `i` (`p.len()` when
/// there is none).
pub open spec fn next_sep(p: Seq<char>, i: int) -> int
    decreases p.len() - i,
{
    if i < 0 || i >= p.len() {
        p.len() as int
    } else if is_sep(p[i]) {
        i
    } else {
        next_sep(p, i + 1)
    }
}

/// End of the two components `server\share` that start at `i`.
pub open spec fn unc_end(p: Seq<char>, i: int) -> int {
    let a = next_sep(p, i);
    if a >= p.len() {
        p.len() as int
    } else {
        next_sep(p, a + 1)
    }
}

/// `p` starts with the verbatim UNC marker `\\?\UNC\`.
pub open spec fn is_verbatim_unc(p: Seq<char>) -> bool {
    &&& p.len() >= 8
    &&& p[0] == '\\' && p[1] == '\\' && p[2] == '?' && p[3] == '\\'
    &&& p[4] == 'U' && p[5] == 'N' && p[6] == 'C' && p[7] == '\\'
}

/// Length of the Windows prefix of `p` (0 without one): a drive `X:`; or,
/// after two leading separators, the next two components — the
/// `server\share` of a UNC path, `.\device`, or `?\name` of a verbatim
/// path (`\\?\UNC\server\share` as a whole).
pub open spec fn prefix_len(p: Seq<char>) -> int {
    if has_drive(p) {
        2
    } else if p.len() >= 2 && is_sep(p[0]) && is_sep(p[1]) {
        if is_verbatim_unc(p) {
            unc_end(p, 8)
        } else {
            unc_end(p, 2)
        }
    } else {
        0
    }
}

/// `p` starts with a Windows prefix (drive, UNC, device or verbatim).
pub open spec fn has_prefix(p: Seq<char>) -> bool {
    prefix_len(p) > 0
}

proof fn lemma_next_sep(p: Seq<char>, i: int)
    requires
        0 <= i <= p.len(),
    ensures
        i <= next_sep(p, i) <= p.len(),
        next_sep(p, i) < p.len() ==> is_sep(p[next_sep(p, i)]),
    decreases p.len() - i,
{
    if i < p.len() && !is_sep(p[i]) {
        lemma_next_sep(p, i + 1);
    }
}

pub proof fn lemma_prefix_len(p: Seq<char>)
    ensures
        0 <= prefix_len(p) <= p.len(),
{
    if !has_drive(p) && p.len() >= 2 && is_sep(p[0]) && is_sep(p[1]) {
        let i: int = if is_verbatim_unc(p) {
            8
        } else {
            2
        };
        lemma_next_sep(p, i);
        let a = next_sep(p, i);
        if a < p.len() {
            lemma_next_sep(p, a + 1);
        }
    }
}

/// The final component of `p`, as `Path::file_name` finds it: a prefix is
/// not part of any component (see [`body_file_name`]).
pub open spec fn file_name(p: Seq<char>) -> Option<Seq<char>> {
    body_file_name(p.skip(prefix_len(p)))
}

/// The final component of a path without prefix: trailing
/// separators are ignored and a `.` component after a separator is skipped;
/// `None` when the final component is empty, `..`, or a leading `.`.
pub open spec fn body_file_name(p: Seq<char>) -> Option<Seq<char>>
    decreases p.len(),
{
    let q = strip_trailing_seps(p);
    let k = after_last_sep(q);
    let name = q.subrange(k, q.len() as int);
    if name == seq!['.'] && k > 0 {
        proof {
            lemma_strip_trailing_seps_len(p);
            lemma_after_last_sep_bound(q);
            assert(name.len() == q.len() - k);
            assert(q.take(k).len() < p.len());
        }
        body_file_name(q.take(k))
    } else if name.len() == 0 || name == seq!['.'] || name == seq!['.', '.'] {
        None
    } else {
        Some(name)
    }
}

pub proof fn lemma_strip_trailing_seps_len(p: Seq<char>)
    ensures
        strip_trailing_seps(p).len() <= p.len(),
        strip_trailing_seps(p) == p.take(strip_trailing_seps(p).len() as int),
    decreases p.len(),
{
    if p.len() > 0 && is_sep(p.last()) {
        lemma_strip_trailing_seps_len(p.drop_last());
        let s = strip_trailing_seps(p.drop_last());
        assert(p.drop_last().take(s.len() as int) == p.take(s.len() as int));
    } else {
        assert(p.take(p.len() as int) == p);
    }
}

/// Index of the last `.` in `n`, or -1.
pub open spec fn last_dot(n: Seq<char>) -> int
    decreases n.len(),
{
    if n.len() == 0 {
        -1
    } else if n.last() == '.' {
        n.len() - 1
    } else {
        last_dot(n.drop_last())
    }
}

/// Text after the final `.` of the file name; `None` when there is no file
/// name, no `.`, or the only `.` is the leading one.
pub open spec fn extension(p: Seq<char>) -> Option<Seq<char>> {
    match file_name(p) {
        None => None,
        Some(n) => {
            let k = last_dot(n);
            if k <= 0 {
                None
            } else {
                Some(n.subrange(k + 1, n.len() as int))
            }
        },
    }
}

/// The file name without its extension; the whole file name when it has
/// no extension.
pub open spec fn file_stem(p: Seq<char>) -> Option<Seq<char>> {
    match file_name(p) {
        None => None,
        Some(n) => {
            let k = last_dot(n);
            if k <= 0 {
                Some(n)
            } else {
                Some(n.subrange(0, k))
            }
        },
    }
}

pub fn is_separator(c: char) -> (r: bool)
    ensures
        r == is_sep(c),
{
    c == '/' || c == '\\'
}

proof fn lemma_take_drop_last(s: Seq<char>, k: int)
    requires
        0 < k <= s.len(),
    ensures
        s.take(k).drop_last() == s.take(k - 1),
        s.take(k).last() == s[k - 1],
{
    assert(s.take(k).drop_last() =~= s.take(k - 1));
}

proof fn lemma_last_dot_bound(n: Seq<char>)
    ensures
        -1 <= last_dot(n) < n.len(),
        last_dot(n) >= 0 ==> n[last_dot(n)] == '.',
    decreases n.len(),
{
    if n.len() > 0 && n.last() != '.' {
        lemma_last_dot_bound(n.drop_last());
    }
}

pub proof fn lemma_after_last_sep_bound(q: Seq<char>)
    ensures
        0 <= after_last_sep(q) <= q.len(),
    decreases q.len(),
{
    if q.len() > 0 && !is_sep(q.last()) {
        lemma_after_last_sep_bound(q.drop_last());
    }
}

/// Index of the last `.` in `n`, or `None`.
fn find_last_dot(n: &Vec<char>) -> (r: Option<usize>)
    ensures
        r matches Some(k) ==> last_dot(n@) == k as int,
        r is None ==> last_dot(n@) == -1,
{
    let mut k: usize = n.len();
    assert(n@.take(k as int) == n@);
    while k > 0 && n[k - 1] != '.'
        invariant
            k <= n@.len(),
            last_dot(n@) == last_dot(n@.take(k as int)),
        decreases k,
    {
        proof {
            lemma_take_drop_last(n@, k as int);
        }
        k -= 1;
    }
    if k == 0 {
        None
    } else {
        proof {
            lemma_take_drop_last(n@, k as int);
        }
        Some(k - 1)
    }
}

fn is_drive(p: &Vec<char>) -> (r: bool)
    ensures
        r == has_drive(p@),
{
    p.len() >= 2 && (('A' <= p[0] && p[0] <= 'Z') || ('a' <= p[0] && p[0] <= 'z')) && p[1] == ':'
}

fn next_separator(p: &Vec<char>, i: usize) -> (r: usize)
    requires
        i <= p@.len(),
    ensures
        r as int == next_sep(p@, i as int),
{
    let mut k = i;
    while k < p.len() && !is_separator(p[k])
        invariant
            i <= k <= p@.len(),
            next_sep(p@, i as int) == next_sep(p@, k as int),
        decreases p.len() - k,
    {
        k += 1;
    }
    k
}

/// Length of the prefix of `p` (see [`prefix_len`]).
pub fn prefix_length(p: &Vec<char>) -> (r: usize)
    ensures
        r as int == prefix_len(p@),
        r <= p@.len(),
{
    proof {
        lemma_prefix_len(p@);
    }
    if is_drive(p) {
        2
    } else if p.len() >= 2 && is_separator(p[0]) && is_separator(p[1]) {
        let verbatim_unc = p.len() >= 8 && p[0] == '\\' && p[1] == '\\' && p[2] == '?' && p[3]
            == '\\' && p[4] == 'U' && p[5] == 'N' && p[6] == 'C' && p[7] == '\\';
        let start: usize = if verbatim_unc {
            8
        } else {
            2
        };
        let a = next_separator(p, start);
        if a >= p.len() {
            p.len()
        } else {
            next_separator(p, a + 1)
        }
    } else {
        0
    }
}

/// The final component of `p` (see [`file_name`]).
pub fn file_name_chars(p: &Vec<char>) -> (r: Option<Vec<char>>)
    ensures
        r matches Some(n) ==> file_name(p@) == Some(n@),
        r is None ==> file_name(p@) is None,
{
    let d = prefix_length(p);
    let body = slice_chars(p, d, p.len());
    assert(body@ =~= p@.skip(d as int));
    body_file_name_chars(&body)
}

fn body_file_name_chars(p: &Vec<char>) -> (r: Option<Vec<char>>)
    ensures
        r matches Some(n) ==> body_file_name(p@) == Some(n@),
        r is None ==> body_file_name(p@) is None,
{
    let mut end: usize = p.len();
    assert(p@.take(end as int) == p@);
    loop
        invariant
            end <= p@.len(),
            body_file_name(p@) == body_file_name(p@.take(end as int)),
        decreases end,
    {
        let ghost cur = p@.take(end as int);
        let mut e: usize = end;
        assert(cur.take(e as int) == cur);
        while e > 0 && is_separator(p[e - 1])
            invariant
                e <= end <= p@.len(),
                cur == p@.take(end as int),
                strip_trailing_seps(cur) == strip_trailing_seps(cur.take(e as int)),
            decreases e,
        {
            proof {
                lemma_take_drop_last(cur, e as int);
            }
            e -= 1;
        }
        let ghost q = cur.take(e as int);
        proof {
            if e > 0 {
                lemma_take_drop_last(cur, e as int);
            }
            assert(strip_trailing_seps(q) == q);
            assert(q == p@.take(e as int));
        }
        let mut start: usize = e;
        assert(q.take(start as int) == q);
        while start > 0 && !is_separator(p[start - 1])
            invariant
                start <= e <= end <= p@.len(),
                q == p@.take(e as int),
                after_last_sep(q) == after_last_sep(q.take(start as int)),
            decreases start,
        {
            proof {
                lemma_take_drop_last(q, start as int);
            }
            start -= 1;
        }
        proof {
            if start > 0 {
                lemma_take_drop_last(q, start as int);
            }
        }
        let name = slice_chars(p, start, e);
        assert(name@ == q.subrange(after_last_sep(q), q.len() as int));
        let dot = name.len() == 1 && name[0] == '.';
        let dotdot = name.len() == 2 && name[0] == '.' && name[1] == '.';
        proof {
            if name@.len() == 1 && name@[0] == '.' {
                assert(name@ =~= seq!['.']);
            }
            if name@.len() == 2 && name@[0] == '.' && name@[1] == '.' {
                assert(name@ =~= seq!['.', '.']);
            }
        }
        if dot && start > 0 {
            assert(q.take(start as int) == p@.take(start as int));
            end = start;
        } else if name.len() == 0 || dot || dotdot {
            return None;
        } else {
            return Some(name);
        }
    }
}

/// Extension of `p` (see [`extension`]).
pub fn extension_chars(p: &Vec<char>) -> (r: Option<Vec<char>>)
    ensures
        r matches Some(e) ==> extension(p@) == Some(e@),
        r is None ==> extension(p@) is None,
{
    match file_name_chars(p) {
        None => None,
        Some(n) => match find_last_dot(&n) {
            None => None,
            Some(k) => {
                if k == 0 {
                    None
                } else {
                    proof {
                        lemma_last_dot_bound(n@);
                    }
                    assert(k < n.len());
                    Some(slice_chars(&n, k + 1, n.len()))
                }
            },
        },
    }
}

/// Stem of `p` (see [`file_stem`]).
pub fn file_stem_chars(p: &Vec<char>) -> (r: Option<Vec<char>>)
    ensures
        r matches Some(e) ==> file_stem(p@) == Some(e@),
        r is None ==> file_stem(p@) is None,
{
    match file_name_chars(p) {
        None => None,
        Some(n) => match find_last_dot(&n) {
            None => Some(n),
            Some(k) => {
                if k == 0 {
                    Some(n)
                } else {
                    proof {
                        lemma_last_dot_bound(n@);
                    }
                    Some(slice_chars(&n, 0, k))
                }
            },
        },
    }
}


// ---------------------------------------------------------------------
// Parent folder and joining (`Path::parent`, `Path::join` on Windows)
// ---------------------------------------------------------------------

/// `r` (the text before a final component) with trailing separators and
/// trailing `.` components removed, as `Components::as_path` trims it; a
/// root separator stays.
pub open spec fn trim_tail(r: Seq<char>) -> Seq<char>
    decreases r.len(),
{
    let q = strip_trailing_seps(r);
    if q.len() == 0 {
        r.take(if r.len() > 0 { 1int } else { 0int })
    } else {
        let k = after_last_sep(q);
        if q.subrange(k, q.len() as int) == seq!['.'] && k > 0 {
            proof {
                lemma_strip_trailing_seps_len(r);
                lemma_after_last_sep_bound(q);
                assert(q.subrange(k, q.len() as int).len() == q.len() - k);
                assert(q.take(k).len() < r.len());
            }
            trim_tail(q.take(k))
        } else {
            q
        }
    }
}

/// The parent of a path without prefix: `None` when no component is
/// left to remove (empty path or a bare root).
pub open spec fn body_parent(p: Seq<char>) -> Option<Seq<char>>
    decreases p.len(),
{
    let q = strip_trailing_seps(p);
    if q.len() == 0 {
        None
    } else {
        let k = after_last_sep(q);
        if q.subrange(k, q.len() as int) == seq!['.'] && k > 0 {
            proof {
                lemma_strip_trailing_seps_len(p);
                lemma_after_last_sep_bound(q);
                assert(q.subrange(k, q.len() as int).len() == q.len() - k);
                assert(q.take(k).len() < p.len());
            }
            body_parent(q.take(k))
        } else {
            proof {
                lemma_after_last_sep_bound(q);
            }
            Some(trim_tail(q.take(k)))
        }
    }
}

/// `Path::parent`: the path without its final component (the prefix
/// stays); `None` for a path that is only a prefix and/or a root.
pub open spec fn parent(p: Seq<char>) -> Option<Seq<char>> {
    match body_parent(p.skip(prefix_len(p))) {
        Some(b) => Some(p.take(prefix_len(p)) + b),
        None => None,
    }
}

/// `Path::join` as Windows does it: an entry with a prefix (drive, UNC,
/// device, verbatim) replaces the base, an entry starting at a root keeps
/// only the base's prefix, and a relative entry is appended after a `\`
/// (none after an empty base, a base ending in a separator, or a bare
/// drive).
pub open spec fn join(base: Seq<char>, e: Seq<char>) -> Seq<char> {
    if has_prefix(e) {
        e
    } else if e.len() > 0 && is_sep(e[0]) {
        base.take(prefix_len(base)) + e
    } else if base.len() == 0 || is_sep(base.last()) || (has_drive(base) && base.len() == 2) {
        base + e
    } else {
        base.push('\\') + e
    }
}

fn trim_tail_chars(r: &Vec<char>) -> (t: Vec<char>)
    ensures
        t@ == trim_tail(r@),
{
    let mut end: usize = r.len();
    assert(r@.take(end as int) == r@);
    loop
        invariant
            end <= r@.len(),
            trim_tail(r@) == trim_tail(r@.take(end as int)),
        decreases end,
    {
        let ghost cur = r@.take(end as int);
        let mut e: usize = end;
        assert(cur.take(e as int) == cur);
        while e > 0 && is_separator(r[e - 1])
            invariant
                e <= end <= r@.len(),
                cur == r@.take(end as int),
                strip_trailing_seps(cur) == strip_trailing_seps(cur.take(e as int)),
            decreases e,
        {
            proof {
                lemma_take_drop_last(cur, e as int);
            }
            e -= 1;
        }
        let ghost q = cur.take(e as int);
        proof {
            if e > 0 {
                lemma_take_drop_last(cur, e as int);
            }
            assert(strip_trailing_seps(q) == q);
            assert(q == r@.take(e as int));
        }
        if e == 0 {
            let n: usize = if end > 0 {
                1
            } else {
                0
            };
            let t = slice_chars(r, 0, n);
            assert(t@ =~= cur.take(n as int));
            return t;
        }
        let mut start: usize = e;
        assert(q.take(start as int) == q);
        while start > 0 && !is_separator(r[start - 1])
            invariant
                start <= e <= end <= r@.len(),
                q == r@.take(e as int),
                after_last_sep(q) == after_last_sep(q.take(start as int)),
            decreases start,
        {
            proof {
                lemma_take_drop_last(q, start as int);
            }
            start -= 1;
        }
        proof {
            if start > 0 {
                lemma_take_drop_last(q, start as int);
            }
        }
        assert(after_last_sep(q) == start as int);
        let dot = e - start == 1 && r[start] == '.';
        proof {
            if e - start == 1 && r@[start as int] == '.' {
                assert(q.subrange(start as int, e as int) =~= seq!['.']);
            }
            if q.subrange(after_last_sep(q), q.len() as int) == seq!['.'] {
                assert(q.subrange(start as int, e as int)[0] == r@[start as int]);
            }
        }
        if dot && start > 0 {
            assert(q.take(start as int) == r@.take(start as int));
            end = start;
        } else {
            proof {
                if q.subrange(start as int, e as int) == seq!['.'] && start > 0 {
                    assert(q.subrange(start as int, e as int).len() == 1);
                    assert(q.subrange(start as int, e as int)[0] == r@[start as int]);
                }
                assert(strip_trailing_seps(cur) == q);
                assert(trim_tail(cur) == q);
            }
            return slice_chars(r, 0, e);
        }
    }
}

fn body_parent_chars(p: &Vec<char>) -> (r: Option<Vec<char>>)
    ensures
        r matches Some(d) ==> body_parent(p@) == Some(d@),
        r is None ==> body_parent(p@) is None,
{
    let mut end: usize = p.len();
    assert(p@.take(end as int) == p@);
    loop
        invariant
            end <= p@.len(),
            body_parent(p@) == body_parent(p@.take(end as int)),
        decreases end,
    {
        let ghost cur = p@.take(end as int);
        let mut e: usize = end;
        assert(cur.take(e as int) == cur);
        while e > 0 && is_separator(p[e - 1])
            invariant
                e <= end <= p@.len(),
                cur == p@.take(end as int),
                strip_trailing_seps(cur) == strip_trailing_seps(cur.take(e as int)),
            decreases e,
        {
            proof {
                lemma_take_drop_last(cur, e as int);
            }
            e -= 1;
        }
        let ghost q = cur.take(e as int);
        proof {
            if e > 0 {
                lemma_take_drop_last(cur, e as int);
            }
            assert(strip_trailing_seps(q) == q);
            assert(q == p@.take(e as int));
        }
        if e == 0 {
            return None;
        }
        let mut start: usize = e;
        assert(q.take(start as int) == q);
        while start > 0 && !is_separator(p[start - 1])
            invariant
                start <= e <= end <= p@.len(),
                q == p@.take(e as int),
                after_last_sep(q) == after_last_sep(q.take(start as int)),
            decreases start,
        {
            proof {
                lemma_take_drop_last(q, start as int);
            }
            start -= 1;
        }
        proof {
            if start > 0 {
                lemma_take_drop_last(q, start as int);
            }
        }
        assert(after_last_sep(q) == start as int);
        let dot = e - start == 1 && p[start] == '.';
        proof {
            if e - start == 1 && p@[start as int] == '.' {
                assert(q.subrange(start as int, e as int) =~= seq!['.']);
            }
            if q.subrange(after_last_sep(q), q.len() as int) == seq!['.'] {
                assert(q.subrange(start as int, e as int)[0] == p@[start as int]);
            }
        }
        assert(q.take(start as int) == p@.take(start as int));
        if dot && start > 0 {
            end = start;
        } else {
            proof {
                if q.subrange(start as int, e as int) == seq!['.'] && start > 0 {
                    assert(q.subrange(start as int, e as int).len() == 1);
                    assert(q.subrange(start as int, e as int)[0] == p@[start as int]);
                }
                assert(strip_trailing_seps(cur) == q);
                assert(body_parent(cur) == Some(trim_tail(q.take(start as int))));
            }
            let before = slice_chars(p, 0, start);
            assert(before@ == q.take(start as int));
            return Some(trim_tail_chars(&before));
        }
    }
}

/// The parent of `p` (see [`parent`]).
pub fn parent_chars(p: &Vec<char>) -> (r: Option<Vec<char>>)
    ensures
        r matches Some(d) ==> parent(p@) == Some(d@),
        r is None ==> parent(p@) is None,
{
    let d = prefix_length(p);
    let body = slice_chars(p, d, p.len());
    assert(body@ =~= p@.skip(d as int));
    match body_parent_chars(&body) {
        Some(b) => {
            let mut out = slice_chars(p, 0, d);
            let ghost head = out@;
            let mut i: usize = 0;
            while i < b.len()
                invariant
                    i <= b@.len(),
                    out@ == head + b@.take(i as int),
                decreases b.len() - i,
            {
                out.push(b[i]);
                i += 1;
                assert(out@ == head + b@.take(i as int));
            }
            assert(b@.take(b@.len() as int) == b@);
            assert(head == p@.take(d as int));
            Some(out)
        },
        None => None,
    }
}

/// `base` joined with `e` (see [`join`]).
pub fn join_chars(base: &Vec<char>, e: &Vec<char>) -> (r: Vec<char>)
    ensures
        r@ == join(base@, e@),
{
    let mut out: Vec<char> = if prefix_length(e) > 0 {
        Vec::new()
    } else if e.len() > 0 && is_separator(e[0]) {
        slice_chars(base, 0, prefix_length(base))
    } else {
        let bl = base.len();
        let mut o = slice_chars(base, 0, bl);
        assert(o@ =~= base@);
        if !(bl == 0 || is_separator(base[bl - 1]) || (is_drive(base) && bl == 2)) {
            o.push('\\');
        }
        o
    };
    let ghost head = out@;
    let mut i: usize = 0;
    while i < e.len()
        invariant
            i <= e@.len(),
            out@ == head + e@.take(i as int),
        decreases e.len() - i,
    {
        out.push(e[i]);
        i += 1;
        assert(out@ == head + e@.take(i as int));
    }
    assert(e@.take(e@.len() as int) == e@);
    proof {
        if !has_prefix(e@) && !(e@.len() > 0 && is_sep(e@[0])) && base@.len() > 0 {
            assert(base@.last() == base@[base@.len() - 1]);
        }
        if has_prefix(e@) {
            assert(out@ =~= e@);
        }
    }
    out
}

} // verus!
