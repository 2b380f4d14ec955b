use shakedown::app::{ExecutionMode, TestCategory};
use shakedown::stress::jobfiles::{
    count_lines, count_stressors, execution_mode_str, first_existing, join_path, JobfileInfo,
    JobfileManager,
};

#[test]
fn test_execution_mode_str() {
    assert_eq!(execution_mode_str(ExecutionMode::Sequential), "sequential");
    assert_eq!(execution_mode_str(ExecutionMode::Parallel), "parallel");
}

#[test]
fn test_set_execution_mode_replaces_existing() {
    let content = "# Comment\nrun sequential\ncpu 0\n";
    let modified = JobfileManager::set_execution_mode(content, ExecutionMode::Parallel);
    assert!(modified.contains("run parallel"));
    assert!(!modified.contains("run sequential"));
}

#[test]
fn test_set_execution_mode_adds_if_missing() {
    let content = "# Comment\ncpu 0\nmemory 0\n";
    let modified = JobfileManager::set_execution_mode(content, ExecutionMode::Sequential);
    assert!(modified.contains("run sequential"));
}

#[test]
fn set_execution_mode_exact_results() {
    assert_eq!(
        JobfileManager::set_execution_mode("# Comment\nrun sequential\ncpu 0\n", ExecutionMode::Parallel),
        "# Comment\nrun parallel\ncpu 0"
    );
    assert_eq!(
        JobfileManager::set_execution_mode("# Comment\ncpu 0\nmemory 0\n", ExecutionMode::Sequential),
        "# Comment\nrun sequential\ncpu 0\nmemory 0"
    );
    // Indented directives count too; every one is replaced.
    assert_eq!(
        JobfileManager::set_execution_mode("  run parallel\ncpu 0\nrun parallel", ExecutionMode::Sequential),
        "run sequential\ncpu 0\nrun sequential"
    );
}

#[test]
fn set_execution_mode_without_body_appends() {
    assert_eq!(
        JobfileManager::set_execution_mode("# only comments\n\n", ExecutionMode::Parallel),
        "# only comments\n\nrun parallel"
    );
    assert_eq!(JobfileManager::set_execution_mode("", ExecutionMode::Sequential), "run sequential");
}

#[test]
fn set_execution_mode_law_on_values() {
    // After setting, every run directive names the mode and there is one.
    let out = JobfileManager::set_execution_mode("run sequential\n# x\nrun sequential\nio 2", ExecutionMode::Parallel);
    let runs: Vec<&str> = out.lines().filter(|l| l.trim().starts_with("run ")).collect();
    assert!(!runs.is_empty());
    assert!(runs.iter().all(|l| *l == "run parallel"));
}

#[test]
fn count_stressors_counts_stressor_lines() {
    let content = "# comment\nrun sequential\ntimeout 60s\ncpu 0\nvm 2\nvm-bytes 80%\nmemrate 4\nverify\nhdd 50%\nio\n";
    // cpu 0, vm 2, memrate 4, hdd 50%
    assert_eq!(count_stressors(content), 4);
    assert_eq!(count_stressors(""), 0);
    assert_eq!(count_stressors("cpu x\n"), 0);
    assert_eq!(count_stressors("  cpu   8  \n"), 1);
}

#[test]
fn count_lines_like_str_lines() {
    assert_eq!(count_lines(""), 0);
    assert_eq!(count_lines("a\nb\n"), 2);
    assert_eq!(count_lines("a\r\nb"), 2);
    assert_eq!(count_lines("\n\n"), 2);
}

#[test]
fn join_path_like_path_join() {
    assert_eq!(join_path("/opt/jobs", "cpu.job"), "/opt/jobs/cpu.job");
    assert_eq!(join_path("/opt/jobs/", "cpu.job"), "/opt/jobs/cpu.job");
    assert_eq!(join_path("", "cpu.job"), "cpu.job");
    assert_eq!(join_path("/opt", "/abs/cpu.job"), "/abs/cpu.job");
}

#[test]
fn manager_paths() {
    let m = JobfileManager::with_dirs("/srv/jobfiles".to_string(), "/tmp/shakedown_jobs".to_string());
    assert_eq!(m.jobfiles_dir(), "/srv/jobfiles");
    assert_eq!(m.temp_dir(), "/tmp/shakedown_jobs");
    assert_eq!(m.get_jobfile_path(TestCategory::Cpu), "/srv/jobfiles/cpu.job");
    assert_eq!(m.get_jobfile_path(TestCategory::TwentyFourHour), "/srv/jobfiles/24-hour.job");
    assert_eq!(
        m.temp_jobfile_path(TestCategory::Memory, ExecutionMode::Parallel),
        "/tmp/shakedown_jobs/parallel_memory.job"
    );
}

#[test]
fn manager_on_missing_directory() {
    let m = JobfileManager::with_dirs("/nonexistent/shakedown/jobfiles".to_string(), "/nonexistent/t".to_string());
    assert!(!m.jobfile_exists(TestCategory::Cpu));
    let present: Vec<bool> = TestCategory::all().into_iter().map(|c| m.jobfile_exists(c)).collect();
    assert!(m.available_categories(&present).is_empty());
    let report = m.validate_jobfiles(&present);
    assert_eq!(report.len(), 6);
    assert!(report.iter().all(|(_, ok)| !ok));
    assert_eq!(report[0].0, TestCategory::Cpu);
    assert_eq!(report[5].0, TestCategory::TwentyFourHour);
}

#[test]
fn presence_helpers() {
    let m = JobfileManager::with_dirs("/j".to_string(), "/t".to_string());
    let present = vec![true, false, true, false, false, true];
    let available = m.available_categories(&present);
    assert_eq!(available, vec![TestCategory::Cpu, TestCategory::Disk, TestCategory::TwentyFourHour]);
    let report = m.validate_jobfiles(&present);
    assert_eq!(report[1], (TestCategory::Memory, false));
    assert_eq!(report[2], (TestCategory::Disk, true));
    // The available categories are those the validation reports present.
    let valid: Vec<TestCategory> = report.iter().filter(|(_, ok)| *ok).map(|(c, _)| *c).collect();
    assert_eq!(available, valid);
}

#[test]
fn jobfile_info_from_contents() {
    let info = JobfileInfo::from_contents(
        TestCategory::Cpu,
        "/j/cpu.job".to_string(),
        true,
        Some("# c\ncpu 0\ncpu-method all\n"),
    );
    assert_eq!(info.line_count, 3);
    assert_eq!(info.stressor_count, 1);
    assert!(info.exists);
    assert_eq!(info.path, "/j/cpu.job");
    let missing = JobfileInfo::from_contents(TestCategory::Io, "/j/io.job".to_string(), false, None);
    assert_eq!(missing.line_count, 0);
    assert_eq!(missing.stressor_count, 0);
    assert!(!missing.exists);
}

#[test]
fn stressors_never_outnumber_lines() {
    for content in ["cpu 1\nvm 2\n", "", "# x\ncpu 1", "io 1\nio 2\nio 3"] {
        assert!(count_stressors(content) <= count_lines(content));
    }
    assert_eq!(count_stressors("io 1\nio 2\nio 3"), 3);
}

#[test]
fn last_mode_wins() {
    for content in ["# c\nrun sequential\ncpu 0", "# c\ncpu 0\nmemory 0", "", "# only\n\n# comments"] {
        for m1 in [ExecutionMode::Sequential, ExecutionMode::Parallel] {
            for m2 in [ExecutionMode::Sequential, ExecutionMode::Parallel] {
                let once = JobfileManager::set_execution_mode(content, m2);
                let twice = JobfileManager::set_execution_mode(
                    &JobfileManager::set_execution_mode(content, m1),
                    m2,
                );
                assert_eq!(twice, once, "{:?} then {:?} on {:?}", m1, m2, content);
            }
        }
    }
}

#[test]
fn stressors_of_joined_text() {
    let a = "cpu 4\n# c\nvm 2\r";
    let b = "\nhdd 50%\nverify\n";
    let joined = format!("{}\n{}", a, b);
    assert_eq!(count_stressors(&joined), count_stressors(a) + count_stressors(b));
    assert_eq!(count_stressors(&joined), 3);
    let e = format!("{}\n{}", "", "");
    assert_eq!(count_stressors(&e), 0);
}

#[test]
fn mode_change_keeps_stressors() {
    for content in ["# c\nrun sequential\ncpu 0\nvm 1\n", "cpu 0\r\nio 2", "", "run parallel"] {
        for m in [ExecutionMode::Sequential, ExecutionMode::Parallel] {
            let modified = JobfileManager::set_execution_mode(content, m);
            assert_eq!(count_stressors(&modified), count_stressors(content));
        }
    }
}

#[test]
fn first_existing_candidate() {
    assert_eq!(first_existing(&vec![false, true, true]), Some(1));
    assert_eq!(first_existing(&vec![false, false]), None);
    assert_eq!(first_existing(&vec![]), None);
}
