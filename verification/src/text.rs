//! Character and string primitives shared by the rest of the library.
//!
//! Unicode character classes and case mapping come from `core`/`alloc`
//! (`char::is_alphanumeric`, `char::is_whitespace`, `str::to_lowercase`);
//! their results are named here and only their ASCII behaviour is spelled
//! out. Everything built on top of them (trimming, splitting, joining,
//! decimal rendering) is verified.

use vstd::prelude::*;

verus! {

broadcast use vstd::string::group_string_axioms;

/// `String::push` appends one character.
pub assume_specification[ String::push ](s: &mut String, ch: char)
    ensures
        final(s)@ == old(s)@.push(ch),
;

/// Name for the result of `char::is_alphanumeric` (Unicode `Alphabetic`
/// or `Numeric`).
pub uninterp spec fn unicode_alphanumeric(c: char) -> bool;

/// Name for the result of `char::is_whitespace` (Unicode `White_Space`).
pub uninterp spec fn unicode_whitespace(c: char) -> bool;

/// Name for the result of `str::to_lowercase` (Unicode lowercase mapping
/// of a whole string, including context-dependent rules such as final
/// sigma).
pub uninterp spec fn unicode_lowercase(s: Seq<char>) -> Seq<char>;

pub open spec fn is_ascii_char(c: char) -> bool {
    (c as u32) < 128
}

pub open spec fn is_ascii_upper(c: char) -> bool {
    'A' <= c && c <= 'Z'
}

pub open spec fn is_ascii_lower(c: char) -> bool {
    'a' <= c && c <= 'z'
}

pub open spec fn is_ascii_digit(c: char) -> bool {
    '0' <= c && c <= '9'
}

pub open spec fn is_ascii_alnum(c: char) -> bool {
    is_ascii_upper(c) || is_ascii_lower(c) || is_ascii_digit(c)
}

/// ASCII whitespace in the Unicode `White_Space` sense: tab, line feed,
/// vertical tab, form feed, carriage return and space.
pub open spec fn is_ascii_white(c: char) -> bool {
    c == '\t' || c == '\n' || c == '\x0B' || c == '\x0C' || c == '\r' || c == ' '
}

/// ASCII lowercase of one character (non-letters unchanged).
pub open spec fn ascii_lower(c: char) -> char {
    if is_ascii_upper(c) {
        ((c as u32) + 32) as char
    } else {
        c
    }
}

pub open spec fn all_ascii(s: Seq<char>) -> bool {
    forall|i: int| 0 <= i < s.len() ==> is_ascii_char(#[trigger] s[i])
}

/// `core`'s `char::is_alphanumeric`. The contract names the result and
/// states its value on ASCII characters (letters and digits only).
#[verifier::external_body]
pub fn is_alphanumeric(c: char) -> (r: bool)
    ensures
        r == unicode_alphanumeric(c),
        is_ascii_char(c) ==> (r <==> is_ascii_alnum(c)),
{
    c.is_alphanumeric()
}

/// `core`'s `char::is_whitespace`. The contract names the result and
/// states its value on ASCII characters.
#[verifier::external_body]
pub fn is_whitespace(c: char) -> (r: bool)
    ensures
        r == unicode_whitespace(c),
        is_ascii_char(c) ==> (r <==> is_ascii_white(c)),
{
    c.is_whitespace()
}

/// `alloc`'s `str::to_lowercase`. The contract names the result; for an
/// all-ASCII input it is the character-wise ASCII lowercase.
#[verifier::external_body]
pub fn to_lowercase(s: &str) -> (r: String)
    ensures
        r@ == unicode_lowercase(s@),
        all_ascii(s@) ==> r@ == s@.map_values(|c: char| ascii_lower(c)),
{
    s.to_lowercase()
}

/// The characters of `s`, in order.
pub fn chars_of(s: &str) -> (v: Vec<char>)
    ensures
        v@ == s@,
{
    let mut v: Vec<char> = Vec::new();
    for c in it: s.chars()
        invariant
            v@ == it.seq().take(it.index() as int),
    {
        v.push(c);
    }
    v
}

/// A `String` holding exactly the characters of `v`.
pub fn string_from(v: &Vec<char>) -> (s: String)
    ensures
        s@ == v@,
{
    let mut s = String::new();
    let mut i: usize = 0;
    while i < v.len()
        invariant
            i <= v.len(),
            s@ == v@.take(i as int),
        decreases v.len() - i,
    {
        s.push(v[i]);
        i += 1;
        assert(s@ == v@.take(i as int));
    }
    assert(v@.take(v.len() as int) == v@);
    s
}

/// Append every character of `src` to `dst`.
pub fn extend_chars(dst: &mut Vec<char>, src: &Vec<char>)
    ensures
        final(dst)@ == old(dst)@ + src@,
{
    let ghost start = dst@;
    let mut i: usize = 0;
    while i < src.len()
        invariant
            i <= src.len(),
            dst@ == start + src@.take(i as int),
        decreases src.len() - i,
    {
        dst.push(src[i]);
        i += 1;
        assert(dst@ == start + src@.take(i as int));
    }
    assert(src@.take(src.len() as int) == src@);
}

// ---------------------------------------------------------------------
// Trimming (Unicode whitespace at both ends, as `str::trim`)
// ---------------------------------------------------------------------

/// Number of leading whitespace characters.
pub open spec fn lead_ws(s: Seq<char>) -> nat
    decreases s.len(),
{
    if s.len() == 0 {
        0
    } else if unicode_whitespace(s[0]) {
        1 + lead_ws(s.drop_first())
    } else {
        0
    }
}

/// Number of trailing whitespace characters.
pub open spec fn trail_ws(s: Seq<char>) -> nat
    decreases s.len(),
{
    if s.len() == 0 {
        0
    } else if unicode_whitespace(s.last()) {
        1 + trail_ws(s.drop_last())
    } else {
        0
    }
}

/// `s` without leading and trailing whitespace.
pub open spec fn trim(s: Seq<char>) -> Seq<char> {
    let a = s.skip(lead_ws(s) as int);
    a.take(a.len() - trail_ws(a))
}

pub proof fn lemma_lead_ws_bound(s: Seq<char>)
    ensures
        lead_ws(s) <= s.len(),
    decreases s.len(),
{
    if s.len() > 0 {
        lemma_lead_ws_bound(s.drop_first());
    }
}

pub proof fn lemma_trail_ws_bound(s: Seq<char>)
    ensures
        trail_ws(s) <= s.len(),
    decreases s.len(),
{
    if s.len() > 0 {
        lemma_trail_ws_bound(s.drop_last());
    }
}

/// `lead_ws` counted from position `i` onwards.
proof fn lemma_lead_ws_skip(s: Seq<char>, i: int)
    requires
        0 <= i < s.len(),
    ensures
        unicode_whitespace(s[i]) ==> lead_ws(s.skip(i)) == 1 + lead_ws(s.skip(i + 1)),
        !unicode_whitespace(s[i]) ==> lead_ws(s.skip(i)) == 0,
{
    assert(s.skip(i).drop_first() == s.skip(i + 1));
}

proof fn lemma_trail_ws_take(s: Seq<char>, j: int)
    requires
        0 < j <= s.len(),
    ensures
        unicode_whitespace(s[j - 1]) ==> trail_ws(s.take(j)) == 1 + trail_ws(s.take(j - 1)),
        !unicode_whitespace(s[j - 1]) ==> trail_ws(s.take(j)) == 0,
{
    assert(s.take(j).drop_last() == s.take(j - 1));
}

/// `s` with surrounding Unicode whitespace removed (`str::trim`).
pub fn trim_chars(s: &Vec<char>) -> (r: Vec<char>)
    ensures
        r@ == trim(s@),
{
    let n = s.len();
    let mut a: usize = 0;
    assert(s@.skip(0) == s@);
    while a < n && is_whitespace(s[a])
        invariant
            a <= n == s@.len(),
            lead_ws(s@) == a + lead_ws(s@.skip(a as int)),
        decreases n - a,
    {
        proof {
            lemma_lead_ws_skip(s@, a as int);
        }
        a += 1;
    }
    proof {
        if a < n {
            lemma_lead_ws_skip(s@, a as int);
        } else {
            assert(s@.skip(a as int).len() == 0);
        }
    }
    let ghost rest = s@.skip(a as int);
    assert(rest == s@.skip(lead_ws(s@) as int));
    let mut b: usize = n;
    assert(rest.take(b - a) == rest);
    while b > a && is_whitespace(s[b - 1])
        invariant
            a <= b <= n == s@.len(),
            rest == s@.skip(a as int),
            trail_ws(rest) == (n - b) + trail_ws(rest.take(b - a)),
        decreases b - a,
    {
        proof {
            assert(rest.take(b - a)[b - a - 1] == s@[b - 1]);
            lemma_trail_ws_take(rest, b - a);
        }
        b -= 1;
    }
    proof {
        if b > a {
            assert(rest.take(b - a)[b - a - 1] == s@[b - 1]);
            lemma_trail_ws_take(rest, b - a);
        } else {
            assert(rest.take(0).len() == 0);
        }
    }
    let mut r: Vec<char> = Vec::new();
    let mut i: usize = a;
    while i < b
        invariant
            a <= i <= b <= n == s@.len(),
            r@ == s@.subrange(a as int, i as int),
        decreases b - i,
    {
        r.push(s[i]);
        i += 1;
        assert(r@ == s@.subrange(a as int, i as int));
    }
    assert(r@ == rest.take(b - a));
    r
}

// ---------------------------------------------------------------------
// Decimal rendering of natural numbers
// ---------------------------------------------------------------------

pub open spec fn digit_char(d: int) -> char {
    (('0' as int) + d) as char
}

/// Base-10 digits of `n`, most significant first, without leading zeros
/// (`"0"` for zero), as `u64`'s `Display` renders them.
pub open spec fn decimal(n: nat) -> Seq<char>
    decreases n,
{
    if n < 10 {
        seq![digit_char(n as int)]
    } else {
        decimal(n / 10).push(digit_char((n % 10) as int))
    }
}

/// Digits of `n` written into `out` (most significant first).
fn push_decimal(out: &mut Vec<char>, n: u64)
    ensures
        final(out)@ == old(out)@ + decimal(n as nat),
    decreases n,
{
    if n < 10 {
        out.push(((n as u8) + 48u8) as char);
        proof {
            assert(decimal(n as nat) == seq![digit_char(n as int)]);
        }
    } else {
        push_decimal(out, n / 10);
        out.push((((n % 10) as u8) + 48u8) as char);
    }
}

/// Decimal rendering of `n`.
pub fn decimal_chars(n: u64) -> (r: Vec<char>)
    ensures
        r@ == decimal(n as nat),
{
    let mut r: Vec<char> = Vec::new();
    push_decimal(&mut r, n);
    assert(r@ == Seq::<char>::empty() + decimal(n as nat));
    r
}


// ---------------------------------------------------------------------
// Splitting into lines
// ---------------------------------------------------------------------

/// The views of a list of character vectors.
pub open spec fn views(v: Seq<Vec<char>>) -> Seq<Seq<char>> {
    v.map_values(|x: Vec<char>| x@)
}

/// The pieces of `s` between occurrences of `sep` (always at least one
/// piece; a trailing `sep` yields a final empty piece).
pub open spec fn split_on(s: Seq<char>, sep: char) -> Seq<Seq<char>>
    decreases s.len(),
{
    if s.len() == 0 {
        seq![Seq::empty()]
    } else {
        let prev = split_on(s.drop_last(), sep);
        if s.last() == sep {
            prev.push(Seq::empty())
        } else {
            prev.update(prev.len() - 1, prev.last().push(s.last()))
        }
    }
}

pub proof fn lemma_split_on_nonempty(s: Seq<char>, sep: char)
    ensures
        split_on(s, sep).len() > 0,
    decreases s.len(),
{
    if s.len() > 0 {
        lemma_split_on_nonempty(s.drop_last(), sep);
    }
}

pub proof fn lemma_views_push(v: Seq<Vec<char>>, x: Vec<char>)
    ensures
        views(v.push(x)) == views(v).push(x@),
{
    assert(views(v.push(x)) =~= views(v).push(x@));
}

/// `s` cut at every `sep` (see [`split_on`]).
pub fn split_chars(s: &Vec<char>, sep: char) -> (r: Vec<Vec<char>>)
    ensures
        views(r@) == split_on(s@, sep),
{
    let mut r: Vec<Vec<char>> = Vec::new();
    let mut cur: Vec<char> = Vec::new();
    let mut i: usize = 0;
    assert(views(r@).push(cur@) =~= split_on(s@.take(0), sep));
    while i < s.len()
        invariant
            i <= s@.len(),
            views(r@).push(cur@) == split_on(s@.take(i as int), sep),
        decreases s.len() - i,
    {
        let c = s[i];
        let ghost t = s@.take(i + 1);
        assert(t.drop_last() == s@.take(i as int));
        assert(t.last() == c);
        if c == sep {
            proof {
                lemma_views_push(r@, cur);
            }
            r.push(cur);
            cur = Vec::new();
        } else {
            let ghost prev = views(r@).push(cur@);
            cur.push(c);
            assert(prev.update(prev.len() - 1, prev.last().push(c)) =~= views(r@).push(cur@));
        }
        i += 1;
    }
    assert(s@.take(s@.len() as int) == s@);
    proof {
        lemma_views_push(r@, cur);
    }
    r.push(cur);
    r
}

// ---------------------------------------------------------------------
// Prefixes
// ---------------------------------------------------------------------

pub open spec fn starts_with(s: Seq<char>, prefix: Seq<char>) -> bool {
    prefix.len() <= s.len() && s.take(prefix.len() as int) == prefix
}

pub fn chars_start_with(s: &Vec<char>, prefix: &Vec<char>) -> (r: bool)
    ensures
        r == starts_with(s@, prefix@),
{
    if prefix.len() > s.len() {
        return false;
    }
    let mut i: usize = 0;
    while i < prefix.len()
        invariant
            prefix@.len() <= s@.len(),
            i <= prefix@.len(),
            forall|j: int| 0 <= j < i ==> s@[j] == prefix@[j],
        decreases prefix.len() - i,
    {
        if s[i] != prefix[i] {
            assert(s@.take(prefix@.len() as int)[i as int] != prefix@[i as int]);
            return false;
        }
        i += 1;
    }
    assert(s@.take(prefix@.len() as int) =~= prefix@);
    true
}

/// Characters `from..to` of `s`.
pub fn slice_chars(s: &Vec<char>, from: usize, to: usize) -> (r: Vec<char>)
    requires
        from <= to <= s@.len(),
    ensures
        r@ == s@.subrange(from as int, to as int),
{
    let mut r: Vec<char> = Vec::new();
    let mut i = from;
    while i < to
        invariant
            from <= i <= to <= s@.len(),
            r@ == s@.subrange(from as int, i as int),
        decreases to - i,
    {
        r.push(s[i]);
        i += 1;
        assert(r@ == s@.subrange(from as int, i as int));
    }
    r
}

/// `s` without leading whitespace (`str::trim_start`).
pub open spec fn trim_start(s: Seq<char>) -> Seq<char> {
    s.skip(lead_ws(s) as int)
}

pub fn trim_start_chars(s: &Vec<char>) -> (r: Vec<char>)
    ensures
        r@ == trim_start(s@),
{
    let n = s.len();
    let mut a: usize = 0;
    assert(s@.skip(0) == s@);
    while a < n && is_whitespace(s[a])
        invariant
            a <= n == s@.len(),
            lead_ws(s@) == a + lead_ws(s@.skip(a as int)),
        decreases n - a,
    {
        proof {
            lemma_lead_ws_skip(s@, a as int);
        }
        a += 1;
    }
    proof {
        if a < n {
            lemma_lead_ws_skip(s@, a as int);
        } else {
            assert(s@.skip(a as int).len() == 0);
        }
    }
    let r = slice_chars(s, a, n);
    assert(r@ =~= s@.skip(a as int));
    r
}

/// Signed decimal rendering (`i64`'s `Display`).
pub open spec fn signed_decimal(v: int) -> Seq<char> {
    if v < 0 {
        seq!['-'] + decimal((-v) as nat)
    } else {
        decimal(v as nat)
    }
}

pub fn signed_decimal_chars(v: i64) -> (r: Vec<char>)
    ensures
        r@ == signed_decimal(v as int),
{
    if v < 0 {
        let mag: u64 = if v == i64::MIN {
            9_223_372_036_854_775_808u64
        } else {
            (-v) as u64
        };
        let mut r: Vec<char> = Vec::new();
        r.push('-');
        push_decimal(&mut r, mag);
        assert(r@ =~= seq!['-'] + decimal((-v) as nat));
        r
    } else {
        decimal_chars(v as u64)
    }
}

} // verus!
