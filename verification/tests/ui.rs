use shakedown::app::{ExecutionMode, TestCategory};
use shakedown::stress::runner::TestStatus;
use shakedown::ui::test_config_panel::{
    can_reset, can_start, category_icon, completed_text, current_test_text, elapsed_text,
    mode_description, progress_bar_text, spinner_frame,
};
use shakedown::ui::{elapsed_label, format_duration, progress_text, push_pad2, status_label, total_label};

#[test]
fn format_duration_examples() {
    assert_eq!(format_duration(0), "00:00");
    assert_eq!(format_duration(59), "00:59");
    assert_eq!(format_duration(61), "01:01");
    assert_eq!(format_duration(3599), "59:59");
    assert_eq!(format_duration(3600), "01:00:00");
    assert_eq!(format_duration(3661), "01:01:01");
    assert_eq!(format_duration(360_000), "100:00:00");
}

#[test]
fn pad2_examples() {
    let mut s = String::new();
    push_pad2(&mut s, 7);
    push_pad2(&mut s, 42);
    push_pad2(&mut s, 123);
    assert_eq!(s, "0742123");
}

#[test]
fn status_texts() {
    assert_eq!(status_label(&TestStatus::Idle), "\u{23F9} Idle");
    assert_eq!(status_label(&TestStatus::Stopped), "\u{23F8} Stopped");
    assert_eq!(status_label(&TestStatus::Failed { error: "x".to_string() }), "\u{2717} Failed");
    assert_eq!(status_label(&TestStatus::Completed { duration: 1, tests_run: 1 }), "\u{2713} Completed");
    let running = TestStatus::Running {
        current_test: None,
        tests_completed: 1,
        tests_total: 3,
        start_time: 0,
        mode: ExecutionMode::Parallel,
    };
    assert_eq!(status_label(&running), "\u{25B6} Running");
    assert_eq!(progress_text(1, 3), "Progress: 1/3");
    assert_eq!(elapsed_label(65), "\u{23F1} 01:05");
    assert_eq!(total_label(3600), "\u{23F1} 01:00:00 (total)");
    assert!(!can_reset(&running));
    assert!(!can_reset(&TestStatus::Idle));
    assert!(can_reset(&TestStatus::Stopped));
}

#[test]
fn panel_texts() {
    assert_eq!(category_icon(TestCategory::Cpu), "\u{1F525}");
    assert_eq!(category_icon(TestCategory::Io), "\u{26A1}");
    assert_eq!(
        mode_description(ExecutionMode::Parallel),
        "All tests run simultaneously. Maximum stress on the system."
    );
    assert!(can_start(false, true, true));
    assert!(!can_start(true, true, true));
    assert!(!can_start(false, false, true));
    assert!(!can_start(false, true, false));
    assert_eq!(spinner_frame(0), "\u{25D0}");
    assert_eq!(spinner_frame(250), "\u{25D3}");
    assert_eq!(spinner_frame(450), "\u{25D1}");
    assert_eq!(spinner_frame(799), "\u{25D2}");
    assert_eq!(spinner_frame(800), "\u{25D0}");
    assert_eq!(progress_bar_text(2, 5), "2/5 tests");
    assert_eq!(elapsed_text(3725), "Elapsed: 62:05");
    assert_eq!(completed_text(4, 125), "4 tests completed in 02:05");
    assert_eq!(current_test_text(TestCategory::Memory), "\u{1F9E0} Memory");
}
