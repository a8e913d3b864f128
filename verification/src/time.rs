//! Duration formatting.

use vstd::prelude::*;

use crate::text::{decimal, decimal_chars, digit_char, string_from};

verus! {

/// Two-digit, zero-padded rendering of `s` (< 100).
pub open spec fn two_digits(s: nat) -> Seq<char> {
    seq![digit_char((s / 10) as int), digit_char((s % 10) as int)]
}

/// `m:ss` for a millisecond count: whole minutes, then zero-padded
/// seconds; negative input counts as zero.
pub open spec fn duration_text(ms: int) -> Seq<char> {
    let total = (if ms < 0 { 0 } else { ms }) / 1000;
    decimal((total / 60) as nat).push(':') + two_digits((total % 60) as nat)
}

/// Format milliseconds as `m:ss` (e.g. 61_000 -> "1:01"). Negative input is
/// clamped to zero.
pub fn format_duration(ms: i64) -> (r: String)
    ensures
        r@ == duration_text(ms as int),
{
    let ms = if ms < 0 {
        0
    } else {
        ms
    };
    let total_secs: i64 = ms / 1000;
    let minutes: u64 = (total_secs / 60) as u64;
    let seconds: u64 = (total_secs % 60) as u64;
    let mut out = decimal_chars(minutes);
    out.push(':');
    out.push((((seconds / 10) as u8) + 48u8) as char);
    out.push((((seconds % 10) as u8) + 48u8) as char);
    let r = string_from(&out);
    assert(r@ =~= duration_text(ms as int));
    r
}

} // verus!
