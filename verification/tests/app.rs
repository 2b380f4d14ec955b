use shakedown::app::{
    tricorder_candidates, ExecutionMode, GpuBurnConfig, TestCategory, TestConfig, CATEGORY_COUNT,
};

#[test]
fn categories_in_display_order() {
    let all = TestCategory::all();
    assert_eq!(all.len(), CATEGORY_COUNT);
    assert_eq!(
        all,
        vec![
            TestCategory::Cpu,
            TestCategory::Memory,
            TestCategory::Disk,
            TestCategory::Io,
            TestCategory::GpuBurn,
            TestCategory::TwentyFourHour
        ]
    );
    for (i, c) in all.iter().enumerate() {
        assert_eq!(c.index(), i);
        assert_eq!(TestCategory::from_index(i), *c);
    }
}

#[test]
fn category_texts() {
    assert_eq!(TestCategory::Cpu.name(), "CPU");
    assert_eq!(TestCategory::Io.name(), "I/O");
    assert_eq!(TestCategory::GpuBurn.name(), "GPU Burn");
    assert_eq!(TestCategory::TwentyFourHour.name(), "24 Hour");
    assert_eq!(TestCategory::Memory.description(), "Test RAM integrity and memory subsystem");
    assert_eq!(TestCategory::TwentyFourHour.description(), "Stress test system for 24 hours");
    assert_eq!(TestCategory::Cpu.jobfile_name(), "cpu.job");
    assert_eq!(TestCategory::GpuBurn.jobfile_name(), "gpu_burn.job");
    assert_eq!(TestCategory::TwentyFourHour.jobfile_name(), "24-hour.job");
    assert_eq!(ExecutionMode::Sequential.name(), "Sequential");
    assert_eq!(ExecutionMode::Parallel.name(), "Parallel");
}

#[test]
fn defaults() {
    assert_eq!(ExecutionMode::default(), ExecutionMode::Sequential);
    let g = GpuBurnConfig::default();
    assert_eq!((g.memory_percent, g.use_doubles, g.use_tensor_cores, g.duration_hours), (90, false, false, 1));
    let c = TestConfig::default();
    assert!(!c.any_selected());
    assert!(c.selected_tests().is_empty());
    assert_eq!(c.execution_mode, ExecutionMode::Sequential);
}

#[test]
fn selection() {
    let mut c = TestConfig::default();
    c.set_selected(TestCategory::Disk, true);
    c.set_selected(TestCategory::Cpu, true);
    assert!(c.any_selected());
    assert!(c.is_selected(TestCategory::Disk));
    assert!(!c.is_selected(TestCategory::Io));
    // Each selected category once, in display order, whatever order they were chosen in.
    assert_eq!(c.selected_tests(), vec![TestCategory::Cpu, TestCategory::Disk]);
    c.set_selected(TestCategory::Cpu, false);
    assert_eq!(c.selected_tests(), vec![TestCategory::Disk]);
    c.set_all(true);
    assert_eq!(c.selected_tests(), TestCategory::all());
    c.set_all(false);
    assert!(!c.any_selected());
}

#[test]
fn tricorder_locations() {
    assert_eq!(
        tricorder_candidates("alice\n"),
        vec!["./tricorder".to_string(), "/home/alice/shakedown/tricorder".to_string()]
    );
    assert_eq!(tricorder_candidates("bob \t\r\n")[1], "/home/bob/shakedown/tricorder");
    assert_eq!(tricorder_candidates("")[1], "/home//shakedown/tricorder");
}
