use shakedown::app::{ExecutionMode, GpuBurnConfig, TestCategory};
use shakedown::stress::runner::{
    next_test_failure_message, push_signed_decimal, spawn_failure_message, ProcessState,
    RunnerError, StressRunner, TestStatus,
};

fn runner() -> StressRunner {
    StressRunner::new("/nonexistent/shakedown/bin")
}

#[test]
fn test_status_default() {
    let runner = StressRunner::new(".");
    assert!(matches!(runner.status(), TestStatus::Idle));
}

#[test]
fn test_no_tests_selected() {
    let mut runner = StressRunner::new(".");
    let stress_ng = runner.is_stress_ng_available();
    let gpu_burn = runner.is_gpu_burn_available();
    let result = runner.start(vec![], ExecutionMode::Sequential, 0, stress_ng, gpu_burn, &vec![]);
    assert!(result.is_err());
}

#[test]
fn test_sequential_does_not_double_start() {
    let mut runner = runner();
    // A test is already running.
    runner.mark_spawned(TestCategory::Cpu);
    // The same test heads the queue of a sequential run.
    let plan = runner.accept_start(vec![TestCategory::Cpu], ExecutionMode::Sequential, 0);
    assert!(plan.is_empty());
    let before = runner.running_tests().len();
    assert_eq!(runner.start_next_sequential_test(), None);
    let after = runner.running_tests().len();
    assert_eq!(before, after);
}

#[test]
fn new_runner_paths_and_defaults() {
    let r = StressRunner::new("/opt/shakedown");
    assert_eq!(r.stress_ng_path(), "/opt/shakedown/stress-ng");
    assert_eq!(r.gpu_burn_path(), "/opt/shakedown/gpu_burn");
    assert_eq!(r.jobfiles_path(), "/opt/shakedown/jobfiles");
    let c = r.gpu_burn_config();
    assert_eq!(c.memory_percent, 90);
    assert!(!c.use_doubles && !c.use_tensor_cores);
    assert_eq!(c.duration_hours, 1);
    assert!(!r.is_running());
    assert!(r.running_tests().is_empty());
    assert_eq!(r.elapsed_time(5), None);
}

#[test]
fn start_errors() {
    let mut r = runner();
    assert!(matches!(
        r.start(vec![], ExecutionMode::Parallel, 0, true, true, &vec![]),
        Err(RunnerError::NoTestsSelected)
    ));
    // The programs are asked about at their own paths.
    assert!(!r.is_stress_ng_available());
    assert!(!r.is_gpu_burn_available());
    match r.start(vec![TestCategory::Cpu], ExecutionMode::Sequential, 0, false, false, &vec![false]) {
        Err(RunnerError::StressNgNotFound(p)) => assert_eq!(p, "/nonexistent/shakedown/bin/stress-ng"),
        _ => panic!("expected StressNgNotFound"),
    }
    assert!(matches!(r.status(), TestStatus::Idle));
}

#[test]
fn jobfile_paths() {
    let r = StressRunner::new("/opt/s");
    assert_eq!(r.jobfile_path(TestCategory::Cpu), "/opt/s/jobfiles/cpu.job");
    assert_eq!(r.jobfile_path(TestCategory::TwentyFourHour), "/opt/s/jobfiles/24-hour.job");
    let root = StressRunner::new("/");
    assert_eq!(root.stress_ng_path(), "/stress-ng");
    assert_eq!(root.jobfile_path(TestCategory::Io), "/jobfiles/io.job");
}

#[test]
fn parallel_plan_skips_running_and_duplicates() {
    let mut r = runner();
    r.mark_spawned(TestCategory::Memory);
    let plan = r.accept_start(
        vec![TestCategory::Cpu, TestCategory::Memory, TestCategory::Cpu, TestCategory::Io],
        ExecutionMode::Parallel,
        100,
    );
    assert_eq!(plan, vec![TestCategory::Cpu, TestCategory::Io]);
}

#[test]
fn sequential_run_to_completion() {
    let mut r = runner();
    let plan = r.accept_start(vec![TestCategory::Cpu, TestCategory::Disk], ExecutionMode::Sequential, 1000);
    assert_eq!(plan, vec![TestCategory::Cpu]);
    r.mark_spawned(TestCategory::Cpu);
    r.update_running_status(1000);
    match r.status() {
        TestStatus::Running { current_test, tests_completed, tests_total, start_time, mode } => {
            assert_eq!(*current_test, Some(TestCategory::Cpu));
            assert_eq!(*tests_completed, 0);
            assert_eq!(*tests_total, 2);
            assert_eq!(*start_time, 1000);
            assert_eq!(*mode, ExecutionMode::Sequential);
        }
        _ => panic!("expected running"),
    }
    // First poll: still running.
    let step = r.collect_exits(&vec![ProcessState::Running]);
    assert!(step.failure.is_none());
    assert_eq!(step.next, None);
    assert!(!r.finish_update(step.failure, 2000));
    // Second poll: CPU done; Disk is next.
    let step = r.collect_exits(&vec![ProcessState::Exited { code: Some(0) }]);
    assert!(step.failure.is_none());
    assert_eq!(step.next, Some(TestCategory::Disk));
    assert!(r.running_tests().is_empty());
    r.mark_spawned(TestCategory::Disk);
    assert!(!r.finish_update(None, 3000));
    match r.status() {
        TestStatus::Running { current_test, tests_completed, .. } => {
            assert_eq!(*current_test, Some(TestCategory::Disk));
            assert_eq!(*tests_completed, 1);
        }
        _ => panic!("expected running"),
    }
    // Third poll: Disk done; the run completes.
    let step = r.collect_exits(&vec![ProcessState::Exited { code: Some(0) }]);
    assert_eq!(step.next, None);
    assert!(!r.finish_update(step.failure, 61_000));
    match r.status() {
        TestStatus::Completed { duration, tests_run } => {
            assert_eq!(*duration, 60_000);
            assert_eq!(*tests_run, 2);
        }
        _ => panic!("expected completed"),
    }
    assert_eq!(r.elapsed_time(61_500), Some(60_500));
}

#[test]
fn failure_stops_the_run() {
    let mut r = runner();
    let plan = r.accept_start(vec![TestCategory::Cpu, TestCategory::Io], ExecutionMode::Parallel, 0);
    for t in plan {
        r.mark_spawned(t);
    }
    r.update_running_status(0);
    let step = r.collect_exits(&vec![
        ProcessState::Exited { code: Some(0) },
        ProcessState::Exited { code: Some(2) },
    ]);
    assert_eq!(step.failure.as_deref(), Some("I/O test failed with exit code 2"));
    assert_eq!(step.next, None);
    assert!(r.finish_update(step.failure, 10));
    match r.status() {
        TestStatus::Failed { error } => assert_eq!(error, "I/O test failed with exit code 2"),
        _ => panic!("expected failed"),
    }
    assert!(r.running_tests().is_empty());
}

#[test]
fn failure_messages() {
    let mut r = runner();
    r.accept_start(vec![TestCategory::GpuBurn, TestCategory::Memory], ExecutionMode::Parallel, 0);
    r.mark_spawned(TestCategory::GpuBurn);
    r.mark_spawned(TestCategory::Memory);
    r.update_running_status(0);
    let step = r.collect_exits(&vec![
        ProcessState::Exited { code: None },
        ProcessState::CheckFailed("boom".to_string()),
    ]);
    // The last failure found is reported.
    assert_eq!(step.failure.as_deref(), Some("Error checking Memory status: boom"));
    let mut r2 = runner();
    r2.accept_start(vec![TestCategory::GpuBurn], ExecutionMode::Parallel, 0);
    r2.mark_spawned(TestCategory::GpuBurn);
    r2.update_running_status(0);
    let step = r2.collect_exits(&vec![ProcessState::Exited { code: None }]);
    assert_eq!(step.failure.as_deref(), Some("GPU Burn test failed with exit code -1"));
    assert_eq!(spawn_failure_message(TestCategory::GpuBurn, "no such file"), "Failed to spawn gpu_burn: no such file");
    assert_eq!(spawn_failure_message(TestCategory::Cpu, "denied"), "Failed to spawn stress-ng: denied");
    assert_eq!(next_test_failure_message("x"), "Failed to start next test: x");
    let mut s = String::from("code ");
    push_signed_decimal(&mut s, -42);
    assert_eq!(s, "code -42");
    let mut s = String::new();
    push_signed_decimal(&mut s, i32::MIN);
    assert_eq!(s, "-2147483648");
}

#[test]
fn idle_runner_ignores_polls() {
    let mut r = runner();
    r.mark_spawned(TestCategory::Cpu);
    let step = r.collect_exits(&vec![ProcessState::Exited { code: Some(0) }]);
    assert!(step.failure.is_none() && step.next.is_none());
    assert_eq!(r.running_tests(), vec![TestCategory::Cpu]);
    assert!(!r.finish_update(Some("x".to_string()), 5));
    assert!(matches!(r.status(), TestStatus::Idle));
}

#[test]
fn stop_and_reset() {
    let mut r = runner();
    r.accept_start(vec![TestCategory::Cpu], ExecutionMode::Sequential, 7);
    r.mark_spawned(TestCategory::Cpu);
    r.update_running_status(7);
    r.stop();
    assert!(matches!(r.status(), TestStatus::Stopped));
    assert!(r.running_tests().is_empty());
    assert_eq!(r.start_next_sequential_test(), None);
    r.reset();
    assert!(matches!(r.status(), TestStatus::Idle));
    assert_eq!(r.elapsed_time(100), None);
}

#[test]
fn launch_commands() {
    let mut r = StressRunner::new("/opt/s");
    let c = r.launch_command(TestCategory::Cpu);
    assert_eq!(c.program, "/opt/s/stress-ng");
    assert_eq!(
        c.args,
        vec!["--job", "/opt/s/jobfiles/cpu.job", "--yaml", "results.yaml", "--log-file", "stress-ng.log"]
    );
    let c = r.launch_command(TestCategory::GpuBurn);
    assert_eq!(c.program, "/opt/s/gpu_burn");
    assert_eq!(c.args, vec!["-m", "90%", "3600"]);
    r.set_gpu_burn_config(GpuBurnConfig {
        memory_percent: 50,
        use_doubles: true,
        use_tensor_cores: true,
        duration_hours: 24,
    });
    let c = r.launch_command(TestCategory::GpuBurn);
    assert_eq!(c.args, vec!["-m", "50%", "-d", "-tc", "86400"]);
}

#[test]
fn start_decides_from_the_answers() {
    let mut r = StressRunner::new("/opt/s");
    let tests = vec![TestCategory::GpuBurn, TestCategory::Memory, TestCategory::Disk];
    assert!(matches!(
        r.start(vec![], ExecutionMode::Sequential, 0, true, true, &vec![]),
        Err(RunnerError::NoTestsSelected)
    ));
    match r.start(tests.clone(), ExecutionMode::Sequential, 0, false, false, &vec![true, false, false]) {
        Err(RunnerError::StressNgNotFound(p)) => assert_eq!(p, "/opt/s/stress-ng"),
        other => panic!("unexpected {:?}", other),
    }
    match r.start(tests.clone(), ExecutionMode::Sequential, 0, true, false, &vec![true, true, true]) {
        Err(RunnerError::GpuBurnNotFound(p)) => assert_eq!(p, "/opt/s/gpu_burn"),
        other => panic!("unexpected {:?}", other),
    }
    // The first missing jobfile is named; GPU burn needs none.
    match r.start(tests.clone(), ExecutionMode::Sequential, 0, true, true, &vec![false, true, false]) {
        Err(RunnerError::JobfileNotFound(p)) => assert_eq!(p, "/opt/s/jobfiles/disk.job"),
        other => panic!("unexpected {:?}", other),
    }
    assert!(matches!(r.status(), TestStatus::Idle));
    let plan = r
        .start(tests.clone(), ExecutionMode::Parallel, 5, true, true, &vec![false, true, true])
        .expect("start");
    assert_eq!(plan, tests);
    r.update_running_status(5);
    match r.status() {
        TestStatus::Running { current_test, tests_total, mode, .. } => {
            assert_eq!(*current_test, None);
            assert_eq!(*tests_total, 3);
            assert_eq!(*mode, ExecutionMode::Parallel);
        }
        _ => panic!("expected running"),
    }
}

#[test]
fn started_run_is_running() {
    let mut r = runner();
    r.mark_spawned(TestCategory::Disk);
    let plan = r
        .start(vec![TestCategory::Cpu, TestCategory::Disk], ExecutionMode::Parallel, 9, true, true, &vec![true, true])
        .expect("start");
    assert_eq!(plan, vec![TestCategory::Cpu]);
    for t in plan {
        r.mark_spawned(t);
    }
    r.update_running_status(9);
    match r.status() {
        TestStatus::Running { current_test, tests_completed, tests_total, start_time, mode } => {
            assert_eq!((*current_test, *tests_completed, *tests_total, *start_time, *mode),
                (None, 0, 2, 9, ExecutionMode::Parallel));
        }
        _ => panic!("expected running"),
    }
    assert_eq!(r.running_tests(), vec![TestCategory::Disk, TestCategory::Cpu]);
}
