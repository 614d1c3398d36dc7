//! What the status line and the log pane show: the log kept to its latest
//! lines, totals that may have saturated, and whole durations.

use vstd::prelude::*;

use crate::summary::{thousands, thousands_text};
use crate::text::{digit_char, digits, push_digits, push_str, string_from_chars};

verus! {

/// Log lines kept in the log pane.
pub const LOG_LIMIT: usize = 500;

/// The log after `message` is added: its latest lines, at most
/// [`LOG_LIMIT`] of them.
pub open spec fn logged(log: Seq<String>, message: String) -> Seq<String> {
    let all = log.push(message);
    if all.len() > LOG_LIMIT {
        all.skip(all.len() - LOG_LIMIT)
    } else {
        all
    }
}

/// Adds `message` to the log, dropping the oldest lines beyond
/// [`LOG_LIMIT`].
pub fn append_log(log: &mut Vec<String>, message: String)
    ensures
        final(log)@ == logged(old(log)@, message),
{
    log.push(message);
    if log.len() > LOG_LIMIT {
        let excess = log.len() - LOG_LIMIT;
        let kept = log.split_off(excess);
        *log = kept;
    }
}

/// A count as shown: with thousands separators, and as a lower bound when
/// it saturated.
pub open spec fn count_text(count: u64, saturated: bool) -> Seq<char> {
    if saturated {
        "more than "@ + thousands_text(count as nat)
    } else {
        thousands_text(count as nat)
    }
}

/// A count as shown: with thousands separators, and as a lower bound
/// ("more than ...") when it saturated.
pub fn candidates_text(count: u64, saturated: bool) -> (text: String)
    ensures
        text@ == count_text(count, saturated),
{
    if saturated {
        let mut out: Vec<char> = Vec::new();
        push_str(&mut out, "more than ");
        let number = thousands(count);
        push_str(&mut out, number.as_str());
        assert(out@ =~= count_text(count, saturated));
        string_from_chars(&out)
    } else {
        thousands(count)
    }
}

/// `v` (below 100) as two digits, zero-padded.
pub open spec fn two_digits(v: int) -> Seq<char> {
    seq![digit_char(v / 10), digit_char(v % 10)]
}

/// A whole number of seconds written compactly: `1h 02m 03s`, `4m 05s` or
/// `6s`.
pub open spec fn duration_text(total: nat) -> Seq<char> {
    let hours = total / 3600;
    let minutes = (total / 60) % 60;
    let seconds = total % 60;
    if hours > 0 {
        digits(hours) + "h "@ + two_digits(minutes as int) + "m "@ + two_digits(seconds as int)
            + "s"@
    } else if minutes > 0 {
        digits(minutes) + "m "@ + two_digits(seconds as int) + "s"@
    } else {
        digits(seconds) + "s"@
    }
}

fn push_two_digits(out: &mut Vec<char>, v: u64)
    requires
        v < 100,
    ensures
        final(out)@ == old(out)@ + two_digits(v as int),
{
    push_digits(out, v / 10);
    push_digits(out, v % 10);
    assert(digits((v / 10) as nat) == seq![digit_char((v / 10) as int)]);
    assert(digits((v % 10) as nat) == seq![digit_char((v % 10) as int)]);
    assert(final(out)@ =~= old(out)@ + two_digits(v as int));
}

/// A whole number of seconds written compactly: `1h 02m 03s`, `4m 05s` or
/// `6s`.
pub fn whole_duration(total: u64) -> (text: String)
    ensures
        text@ == duration_text(total as nat),
{
    let hours = total / 3600;
    let minutes = (total / 60) % 60;
    let seconds = total % 60;
    let mut out: Vec<char> = Vec::new();
    if hours > 0 {
        push_digits(&mut out, hours);
        push_str(&mut out, "h ");
        push_two_digits(&mut out, minutes);
        push_str(&mut out, "m ");
        push_two_digits(&mut out, seconds);
        push_str(&mut out, "s");
    } else if minutes > 0 {
        push_digits(&mut out, minutes);
        push_str(&mut out, "m ");
        push_two_digits(&mut out, seconds);
        push_str(&mut out, "s");
    } else {
        push_digits(&mut out, seconds);
        push_str(&mut out, "s");
    }
    assert(out@ =~= duration_text(total as nat));
    string_from_chars(&out)
}

} // verus!
