//! Decisions and texts of the test configuration panel.
use vstd::prelude::*;

use crate::app::{ExecutionMode, TestCategory};
use crate::stress::runner::TestStatus;
use crate::text::{chars_of, decimal, push_char, push_chars, push_decimal, string_of};
use crate::ui::pad2;
use crate::ui::push_pad2;

verus! {

pub open spec fn icon_text(category: TestCategory) -> Seq<char> {
    match category {
        TestCategory::Cpu => "\u{1F525}"@,
        TestCategory::Memory => "\u{1F9E0}"@,
        TestCategory::Disk => "\u{1F4BE}"@,
        TestCategory::Io => "\u{26A1}"@,
        TestCategory::GpuBurn => "\u{1F3AE}"@,
        TestCategory::TwentyFourHour => "\u{1F310}"@,
    }
}

/// The icon shown next to a test category.
pub fn category_icon(category: TestCategory) -> (r: &'static str)
    ensures
        r@ == icon_text(category),
{
    match category {
        TestCategory::Cpu => "\u{1F525}",
        TestCategory::Memory => "\u{1F9E0}",
        TestCategory::Disk => "\u{1F4BE}",
        TestCategory::Io => "\u{26A1}",
        TestCategory::GpuBurn => "\u{1F3AE}",
        TestCategory::TwentyFourHour => "\u{1F310}",
    }
}

pub open spec fn mode_description_text(mode: ExecutionMode) -> Seq<char> {
    match mode {
        ExecutionMode::Sequential =>
            "Tests will run one after another. Easier to identify which test causes issues."@,
        ExecutionMode::Parallel => "All tests run simultaneously. Maximum stress on the system."@,
    }
}

/// The explanation shown under the execution mode choice.
pub fn mode_description(mode: ExecutionMode) -> (r: &'static str)
    ensures
        r@ == mode_description_text(mode),
{
    match mode {
        ExecutionMode::Sequential =>
            "Tests will run one after another. Easier to identify which test causes issues.",
        ExecutionMode::Parallel => "All tests run simultaneously. Maximum stress on the system.",
    }
}

/// Tests can start when none are running, at least one is selected and
/// stress-ng is present.
pub fn can_start(is_running: bool, any_selected: bool, stress_ng_available: bool) -> (r: bool)
    ensures
        r == (!is_running && any_selected && stress_ng_available),
{
    !is_running && any_selected && stress_ng_available
}

/// Reset is offered when nothing runs and the runner is not idle.
pub fn can_reset(status: &TestStatus) -> (r: bool)
    ensures
        r == (!(status@ is Running) && !(status@ is Idle)),
{
    match status {
        TestStatus::Running { .. } => false,
        TestStatus::Idle => false,
        _ => true,
    }
}

pub open spec fn spinner_text(k: nat) -> Seq<char> {
    if k == 0 {
        "\u{25D0}"@
    } else if k == 1 {
        "\u{25D3}"@
    } else if k == 2 {
        "\u{25D1}"@
    } else {
        "\u{25D2}"@
    }
}

/// The spinner frame shown `elapsed_ms` milliseconds into a run: a new
/// frame every 200 ms, four frames in turn.
pub fn spinner_frame(elapsed_ms: u64) -> (r: &'static str)
    ensures
        r@ == spinner_text(((elapsed_ms / 200) % 4) as nat),
{
    let k = (elapsed_ms / 200) % 4;
    if k == 0 {
        "\u{25D0}"
    } else if k == 1 {
        "\u{25D3}"
    } else if k == 2 {
        "\u{25D1}"
    } else {
        "\u{25D2}"
    }
}

/// `<completed>/<total> tests`, the text on the progress bar.
pub fn progress_bar_text(completed: usize, total: usize) -> (r: String)
    ensures
        r@ == decimal(completed as nat) + seq!['/'] + decimal(total as nat) + " tests"@,
{
    let mut out = String::new();
    push_decimal(&mut out, completed as u64);
    push_char(&mut out, '/');
    push_decimal(&mut out, total as u64);
    push_chars(&mut out, &chars_of(" tests"));
    assert(out@ =~= decimal(completed as nat) + seq!['/'] + decimal(total as nat) + " tests"@);
    out
}

/// `Elapsed: MM:SS`, minutes not wrapped at the hour.
pub fn elapsed_text(secs: u64) -> (r: String)
    ensures
        r@ == "Elapsed: "@ + pad2((secs / 60) as nat) + seq![':'] + pad2((secs % 60) as nat),
{
    let mut out = string_of(&chars_of("Elapsed: "));
    push_pad2(&mut out, secs / 60);
    push_char(&mut out, ':');
    push_pad2(&mut out, secs % 60);
    out
}

/// `<n> tests completed in MM:SS`.
pub fn completed_text(tests_run: usize, secs: u64) -> (r: String)
    ensures
        r@ == decimal(tests_run as nat) + " tests completed in "@ + pad2((secs / 60) as nat)
            + seq![':'] + pad2((secs % 60) as nat),
{
    let mut out = String::new();
    push_decimal(&mut out, tests_run as u64);
    push_chars(&mut out, &chars_of(" tests completed in "));
    push_pad2(&mut out, secs / 60);
    push_char(&mut out, ':');
    push_pad2(&mut out, secs % 60);
    assert(out@ =~= decimal(tests_run as nat) + " tests completed in "@ + pad2((secs / 60) as nat)
        + seq![':'] + pad2((secs % 60) as nat));
    out
}

/// `<icon> <name>`, the current test line in sequential mode.
pub fn current_test_text(category: TestCategory) -> (r: String)
    ensures
        r@ == icon_text(category) + seq![' '] + category.name_text(),
{
    let mut out = string_of(&chars_of(category_icon(category)));
    push_char(&mut out, ' ');
    push_chars(&mut out, &chars_of(category.name()));
    out
}

} // verus!
