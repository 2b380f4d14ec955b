//! What the interface shows: durations, status labels and progress text.
use vstd::prelude::*;

use crate::stress::runner::{RunStatus, TestStatus};
use crate::text::{
    all_digits, chars_of, decimal, digits_value, lemma_decimal_reads_back, lemma_leading_zero,
    push_chars, push_decimal, string_of,
};

pub mod test_config_panel;

verus! {

/// `n` in decimal, padded with a leading zero to two digits (`{:02}`).
pub open spec fn pad2(n: nat) -> Seq<char> {
    if n < 10 {
        seq!['0'] + decimal(n)
    } else {
        decimal(n)
    }
}

/// Appends `n` as [`pad2`] does.
pub fn push_pad2(out: &mut String, n: u64)
    ensures
        final(out)@ == old(out)@ + pad2(n as nat),
{
    if n < 10 {
        crate::text::push_char(out, '0');
        push_decimal(out, n);
        assert(final(out)@ =~= old(out)@ + pad2(n as nat));
    } else {
        push_decimal(out, n);
    }
}

/// `HH:MM:SS` when there is at least an hour, else `MM:SS`.
pub open spec fn duration_text(total_secs: nat) -> Seq<char> {
    let hours = total_secs / 3600;
    let minutes = (total_secs % 3600) / 60;
    let seconds = total_secs % 60;
    if hours > 0 {
        pad2(hours) + seq![':'] + pad2(minutes) + seq![':'] + pad2(seconds)
    } else {
        pad2(minutes) + seq![':'] + pad2(seconds)
    }
}

/// Formats a duration of `total_secs` seconds in a human-readable way.
pub fn format_duration(total_secs: u64) -> (r: String)
    ensures
        r@ == duration_text(total_secs as nat),
{
    let hours = total_secs / 3600;
    let minutes = (total_secs % 3600) / 60;
    let seconds = total_secs % 60;
    let mut out = String::new();
    if hours > 0 {
        push_pad2(&mut out, hours);
        crate::text::push_char(&mut out, ':');
    }
    push_pad2(&mut out, minutes);
    crate::text::push_char(&mut out, ':');
    push_pad2(&mut out, seconds);
    assert(out@ =~= duration_text(total_secs as nat));
    out
}

proof fn lemma_pad2_reads_back(n: nat)
    ensures
        all_digits(pad2(n)),
        digits_value(pad2(n)) == n,
        pad2(n).len() >= 2,
        n < 100 ==> pad2(n).len() == 2,
{
    lemma_decimal_reads_back(n);
    if n < 10 {
        lemma_leading_zero(decimal(n));
        let p = pad2(n);
        assert forall|k: int| 0 <= k < p.len() implies crate::text::is_digit(#[trigger] p[k]) by {
            if k > 0 {
                assert(p[k] == decimal(n)[k - 1]);
            }
        }
    }
}

/// A duration shown as text reads back as the same number of seconds: from
/// an hour on it is hours, minutes and seconds separated by `':'`, below an
/// hour minutes and seconds; minutes and seconds are two digits each and
/// below 60, hours at least two digits.
pub proof fn law_duration_reads_back(s: nat)
    ensures
        s >= 3600 ==> exists|h: Seq<char>, m: Seq<char>, x: Seq<char>|
            #![trigger digits_value(h), digits_value(m), digits_value(x)]
            duration_text(s) == h + seq![':'] + m + seq![':'] + x && all_digits(h) && all_digits(m)
                && all_digits(x) && h.len() >= 2 && m.len() == 2 && x.len() == 2 && digits_value(m)
                < 60 && digits_value(x) < 60 && 3600 * digits_value(h) + 60 * digits_value(m)
                + digits_value(x) == s,
        s < 3600 ==> exists|m: Seq<char>, x: Seq<char>|
            #![trigger digits_value(m), digits_value(x)]
            duration_text(s) == m + seq![':'] + x && all_digits(m) && all_digits(x) && m.len() == 2
                && x.len() == 2 && digits_value(m) < 60 && digits_value(x) < 60 && 60 * digits_value(m)
                + digits_value(x) == s,
{
    let hours = s / 3600;
    let minutes = (s % 3600) / 60;
    let seconds = s % 60;
    lemma_pad2_reads_back(hours);
    lemma_pad2_reads_back(minutes);
    lemma_pad2_reads_back(seconds);
    assert(3600 * hours + 60 * minutes + seconds == s);
    if s >= 3600 {
        assert(hours > 0);
        let h = pad2(hours);
        let m = pad2(minutes);
        let x = pad2(seconds);
        assert(digits_value(h) == hours && digits_value(m) == minutes && digits_value(x) == seconds);
    } else {
        assert(hours == 0);
        let m = pad2(minutes);
        let x = pad2(seconds);
        assert(digits_value(m) == minutes && digits_value(x) == seconds);
    }
}

pub open spec fn status_label_text(s: RunStatus) -> Seq<char> {
    match s {
        RunStatus::Idle => "\u{23F9} Idle"@,
        RunStatus::Running { .. } => "\u{25B6} Running"@,
        RunStatus::Completed { .. } => "\u{2713} Completed"@,
        RunStatus::Stopped => "\u{23F8} Stopped"@,
        RunStatus::Failed { .. } => "\u{2717} Failed"@,
    }
}

/// The label of the status indicator in the top bar.
pub fn status_label(status: &TestStatus) -> (r: &'static str)
    ensures
        r@ == status_label_text(status@),
{
    match status {
        TestStatus::Idle => "\u{23F9} Idle",
        TestStatus::Running { .. } => "\u{25B6} Running",
        TestStatus::Completed { .. } => "\u{2713} Completed",
        TestStatus::Stopped => "\u{23F8} Stopped",
        TestStatus::Failed { .. } => "\u{2717} Failed",
    }
}

/// `Progress: <completed>/<total>`.
pub fn progress_text(completed: usize, total: usize) -> (r: String)
    ensures
        r@ == "Progress: "@ + decimal(completed as nat) + seq!['/'] + decimal(total as nat),
{
    let mut out = string_of(&chars_of("Progress: "));
    push_decimal(&mut out, completed as u64);
    crate::text::push_char(&mut out, '/');
    push_decimal(&mut out, total as u64);
    out
}

/// The elapsed time shown in the top bar while running: a stopwatch sign
/// and [`format_duration`].
pub fn elapsed_label(total_secs: u64) -> (r: String)
    ensures
        r@ == "\u{23F1} "@ + duration_text(total_secs as nat),
{
    let mut out = string_of(&chars_of("\u{23F1} "));
    let d = format_duration(total_secs);
    push_chars(&mut out, &chars_of(d.as_str()));
    out
}

/// The total time shown in the top bar once completed.
pub fn total_label(total_secs: u64) -> (r: String)
    ensures
        r@ == "\u{23F1} "@ + duration_text(total_secs as nat) + " (total)"@,
{
    let mut out = elapsed_label(total_secs);
    push_chars(&mut out, &chars_of(" (total)"));
    out
}

} // verus!
