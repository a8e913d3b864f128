//! Full-text (FTS5) search query construction.

use vstd::prelude::*;

use crate::text::{
    all_ascii, ascii_lower, chars_of, extend_chars, is_alphanumeric, is_ascii_alnum, is_ascii_char,
    is_ascii_digit, is_ascii_lower, string_from, to_lowercase, unicode_alphanumeric,
    unicode_lowercase,
};

verus! {

/// The search terms of free-text input: the maximal runs of alphanumeric
/// characters, in order. Every other character separates terms.
pub open spec fn fts_terms(s: Seq<char>) -> Seq<Seq<char>>
    decreases s.len(),
{
    if s.len() == 0 {
        Seq::empty()
    } else {
        let prev = fts_terms(s.drop_last());
        let c = s.last();
        if !unicode_alphanumeric(c) {
            prev
        } else if s.len() >= 2 && unicode_alphanumeric(s[s.len() - 2]) {
            prev.update(prev.len() - 1, prev.last().push(c))
        } else {
            prev.push(seq![c])
        }
    }
}

/// Parts joined with single spaces.
pub open spec fn join_spaced(parts: Seq<Seq<char>>) -> Seq<char>
    decreases parts.len(),
{
    if parts.len() == 0 {
        Seq::empty()
    } else if parts.len() == 1 {
        parts[0]
    } else {
        join_spaced(parts.drop_last()).push(' ') + parts.last()
    }
}

/// One term as a prefix search: lowercased, followed by `*`.
pub open spec fn prefix_term(t: Seq<char>) -> Seq<char> {
    unicode_lowercase(t).push('*')
}

pub open spec fn prefix_terms(ts: Seq<Seq<char>>) -> Seq<Seq<char>> {
    ts.map_values(|t: Seq<char>| prefix_term(t))
}

/// The FTS5 MATCH expression for `input`: every term as a lowercase prefix
/// search, joined by spaces (implicit AND); `None` when there is no term.
pub open spec fn fts_query(input: Seq<char>) -> Option<Seq<char>> {
    let ts = fts_terms(input);
    if ts.len() == 0 {
        None
    } else {
        Some(join_spaced(prefix_terms(ts)))
    }
}

/// A character that may appear in a query built from ASCII input:
/// lowercase letters, digits, the prefix marker `*` and the separator.
pub open spec fn safe_query_char(c: char) -> bool {
    is_ascii_lower(c) || is_ascii_digit(c) || c == '*' || c == ' '
}

/// Every term of any input is non-empty and made only of alphanumeric
/// characters: quotes and FTS operators (`"`, `*`, `-`, `(`, `)`, `:`,
/// `^`) are never part of a term.
pub proof fn lemma_fts_terms_alphanumeric(s: Seq<char>)
    ensures
        forall|k: int|
            0 <= k < fts_terms(s).len() ==> {
                &&& (#[trigger] fts_terms(s)[k]).len() > 0
                &&& forall|j: int|
                    0 <= j < fts_terms(s)[k].len() ==> unicode_alphanumeric(
                        #[trigger] fts_terms(s)[k][j],
                    )
            },
        s.len() > 0 && unicode_alphanumeric(s.last()) ==> fts_terms(s).len() > 0,
    decreases s.len(),
{
    if s.len() > 0 {
        lemma_fts_terms_alphanumeric(s.drop_last());
        let prev = fts_terms(s.drop_last());
        if unicode_alphanumeric(s.last()) && s.len() >= 2 && unicode_alphanumeric(s[s.len() - 2]) {
            assert(s.drop_last().last() == s[s.len() - 2]);
            let t = fts_terms(s);
            assert forall|k: int| 0 <= k < t.len() implies {
                &&& (#[trigger] t[k]).len() > 0
                &&& forall|j: int| 0 <= j < t[k].len() ==> unicode_alphanumeric(#[trigger] t[k][j])
            } by {
                if k < prev.len() - 1 {
                    assert(t[k] == prev[k]);
                } else {
                    assert(t[k] == prev.last().push(s.last()));
                    assert forall|j: int| 0 <= j < t[k].len() implies unicode_alphanumeric(
                        #[trigger] t[k][j],
                    ) by {
                        if j < prev.last().len() {
                            assert(t[k][j] == prev[prev.len() - 1][j]);
                        }
                    }
                }
            }
        }
    }
}

proof fn lemma_join_push(p: Seq<Seq<char>>, x: Seq<char>)
    ensures
        join_spaced(p.push(x)) == if p.len() == 0 {
            x
        } else {
            join_spaced(p).push(' ') + x
        },
{
    assert(p.push(x).drop_last() == p);
    if p.len() == 0 {
        assert(p.push(x)[0] == x);
    }
}

proof fn lemma_prefix_terms_push(p: Seq<Seq<char>>, x: Seq<char>)
    ensures
        prefix_terms(p.push(x)) == prefix_terms(p).push(prefix_term(x)),
{
    assert(prefix_terms(p.push(x)) =~= prefix_terms(p).push(prefix_term(x)));
}

/// Build a safe FTS5 MATCH query from free-text user input.
///
/// Non-alphanumeric characters separate terms, so double quotes and FTS
/// operators never reach SQLite; every term becomes a lowercase prefix
/// search (`term*`) and terms are joined with a space (implicit AND).
/// `None` when the input has no usable term (empty, blank, punctuation).
pub fn build_fts_query(input: &str) -> (r: Option<String>)
    ensures
        r matches Some(q) ==> fts_query(input@) == Some(q@),
        r is None <==> fts_query(input@) is None,
        all_ascii(input@) ==> (r matches Some(q) ==> forall|i: int|
            0 <= i < q@.len() ==> safe_query_char(#[trigger] q@[i])),
{
    let chars = chars_of(input);
    let n = chars.len();
    let mut out: Vec<char> = Vec::new();
    let mut cur: Vec<char> = Vec::new();
    let mut done_count: usize = 0;
    let ghost mut done: Seq<Seq<char>> = Seq::empty();
    let mut i: usize = 0;
    while i < n
        invariant
            n == chars@.len(),
            chars@ == input@,
            i <= n,
            done_count == done.len(),
            done_count + (if cur@.len() > 0 { 1int } else { 0int }) <= i,
            out@ == join_spaced(prefix_terms(done)),
            cur@.len() > 0 ==> (i > 0 && unicode_alphanumeric(chars@[i - 1]) && fts_terms(
                chars@.take(i as int),
            ) == done.push(cur@)),
            cur@.len() == 0 ==> ((i == 0 || !unicode_alphanumeric(chars@[i - 1])) && fts_terms(
                chars@.take(i as int),
            ) == done),
            cur@.len() <= i,
            forall|j: int| 0 <= j < cur@.len() ==> unicode_alphanumeric(#[trigger] cur@[j]),
            all_ascii(input@) ==> forall|j: int|
                0 <= j < out@.len() ==> safe_query_char(#[trigger] out@[j]),
            all_ascii(input@) ==> forall|j: int|
                0 <= j < cur@.len() ==> is_ascii_alnum(#[trigger] cur@[j]),
        decreases n - i,
    {
        let c = chars[i];
        let ghost s1 = chars@.take(i + 1);
        proof {
            assert(s1.drop_last() == chars@.take(i as int));
            assert(s1.last() == c);
            if i > 0 {
                assert(s1[s1.len() - 2] == chars@[i - 1]);
            }
            if all_ascii(input@) {
                assert(is_ascii_char(chars@[i as int]));
            }
        }
        if is_alphanumeric(c) {
            proof {
                if cur@.len() > 0 {
                    let prev = done.push(cur@);
                    assert(prev.update(prev.len() - 1, prev.last().push(c)) =~= done.push(
                        cur@.push(c),
                    ));
                } else {
                    assert(cur@.push(c) =~= seq![c]);
                }
            }
            cur.push(c);
        } else if cur.len() > 0 {
            let lowered = to_lowercase(string_from(&cur).as_str());
            let mut term = chars_of(lowered.as_str());
            term.push('*');
            proof {
                lemma_join_push(prefix_terms(done), term@);
                lemma_prefix_terms_push(done, cur@);
            }
            if done_count > 0 {
                out.push(' ');
            }
            let ghost before = out@;
            extend_chars(&mut out, &term);
            proof {
                if all_ascii(input@) {
                    assert forall|j: int| 0 <= j < out@.len() implies safe_query_char(
                        #[trigger] out@[j],
                    ) by {
                        if j >= before.len() {
                            let k = j - before.len();
                            if k < cur@.len() {
                                assert(term@[k] == ascii_lower(cur@[k]));
                                assert(is_ascii_alnum(cur@[k]));
                            }
                        }
                    }
                }
                done = done.push(cur@);
            }
            done_count += 1;
            cur = Vec::new();
        }
        i += 1;
    }
    if cur.len() > 0 {
        let lowered = to_lowercase(string_from(&cur).as_str());
        let mut term = chars_of(lowered.as_str());
        term.push('*');
        proof {
            lemma_join_push(prefix_terms(done), term@);
            lemma_prefix_terms_push(done, cur@);
        }
        if done_count > 0 {
            out.push(' ');
        }
        let ghost before = out@;
        extend_chars(&mut out, &term);
        proof {
            if all_ascii(input@) {
                assert forall|j: int| 0 <= j < out@.len() implies safe_query_char(
                    #[trigger] out@[j],
                ) by {
                    if j >= before.len() {
                        let k = j - before.len();
                        if k < cur@.len() {
                            assert(term@[k] == ascii_lower(cur@[k]));
                            assert(is_ascii_alnum(cur@[k]));
                        }
                    }
                }
            }
            done = done.push(cur@);
        }
        done_count += 1;
    }
    assert(chars@.take(n as int) == chars@);
    if done_count == 0 {
        None
    } else {
        Some(string_from(&out))
    }
}

} // verus!
