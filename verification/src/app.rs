//! Test categories, execution modes and the test configuration.
use vstd::prelude::*;

use crate::text::{chars_of, owned, push_chars, slice_range};

verus! {

/// Test categories available for stress testing.
#[derive(Clone, Copy, Debug, PartialEq, Eq, Hash, Structural)]
pub enum TestCategory {
    Cpu,
    Memory,
    Disk,
    Io,
    GpuBurn,
    TwentyFourHour,
}

/// The number of test categories.
pub const CATEGORY_COUNT: usize = 6;

impl TestCategory {
    /// Position of the category in [`TestCategory::all`].
    pub open spec fn idx(self) -> int {
        match self {
            TestCategory::Cpu => 0,
            TestCategory::Memory => 1,
            TestCategory::Disk => 2,
            TestCategory::Io => 3,
            TestCategory::GpuBurn => 4,
            TestCategory::TwentyFourHour => 5,
        }
    }

    /// Every category, in the order the interface lists them.
    pub open spec fn all_seq() -> Seq<TestCategory> {
        seq![
            TestCategory::Cpu,
            TestCategory::Memory,
            TestCategory::Disk,
            TestCategory::Io,
            TestCategory::GpuBurn,
            TestCategory::TwentyFourHour,
        ]
    }

    pub proof fn lemma_all_seq_indexing()
        ensures
            Self::all_seq().len() == CATEGORY_COUNT,
            forall|k: int| 0 <= k < 6 ==> (#[trigger] Self::all_seq()[k]).idx() == k,
            forall|c: TestCategory| Self::all_seq()[#[trigger] c.idx()] == c,
            forall|c: TestCategory| 0 <= #[trigger] c.idx() < 6,
    {
        assert forall|c: TestCategory| Self::all_seq()[#[trigger] c.idx()] == c by {
            match c {
                TestCategory::Cpu => {},
                TestCategory::Memory => {},
                TestCategory::Disk => {},
                TestCategory::Io => {},
                TestCategory::GpuBurn => {},
                TestCategory::TwentyFourHour => {},
            }
        }
    }

    pub fn index(&self) -> (r: usize)
        ensures
            r as int == self.idx(),
            r < CATEGORY_COUNT,
    {
        match self {
            TestCategory::Cpu => 0,
            TestCategory::Memory => 1,
            TestCategory::Disk => 2,
            TestCategory::Io => 3,
            TestCategory::GpuBurn => 4,
            TestCategory::TwentyFourHour => 5,
        }
    }

    /// The category at position `i` of [`TestCategory::all`].
    pub fn from_index(i: usize) -> (r: TestCategory)
        requires
            i < CATEGORY_COUNT,
        ensures
            r == Self::all_seq()[i as int],
    {
        if i == 0 {
            TestCategory::Cpu
        } else if i == 1 {
            TestCategory::Memory
        } else if i == 2 {
            TestCategory::Disk
        } else if i == 3 {
            TestCategory::Io
        } else if i == 4 {
            TestCategory::GpuBurn
        } else {
            TestCategory::TwentyFourHour
        }
    }

    /// Every category, in display order.
    pub fn all() -> (r: Vec<TestCategory>)
        ensures
            r@ == Self::all_seq(),
    {
        let r = vec![
            TestCategory::Cpu,
            TestCategory::Memory,
            TestCategory::Disk,
            TestCategory::Io,
            TestCategory::GpuBurn,
            TestCategory::TwentyFourHour,
        ];
        assert(r@ =~= Self::all_seq());
        r
    }

    pub open spec fn name_text(self) -> Seq<char> {
        match self {
            TestCategory::Cpu => "CPU"@,
            TestCategory::Memory => "Memory"@,
            TestCategory::Disk => "Disk"@,
            TestCategory::Io => "I/O"@,
            TestCategory::GpuBurn => "GPU Burn"@,
            TestCategory::TwentyFourHour => "24 Hour"@,
        }
    }

    /// The display name of the category.
    pub fn name(&self) -> (r: &'static str)
        ensures
            r@ == self.name_text(),
    {
        match self {
            TestCategory::Cpu => "CPU",
            TestCategory::Memory => "Memory",
            TestCategory::Disk => "Disk",
            TestCategory::Io => "I/O",
            TestCategory::GpuBurn => "GPU Burn",
            TestCategory::TwentyFourHour => "24 Hour",
        }
    }

    pub open spec fn description_text(self) -> Seq<char> {
        match self {
            TestCategory::Cpu => "Stress CPU cores with computation-heavy workloads"@,
            TestCategory::Memory => "Test RAM integrity and memory subsystem"@,
            TestCategory::Disk => "Stress storage devices with read/write operations"@,
            TestCategory::Io => "Stress I/O subsystem with async/sync operations"@,
            TestCategory::GpuBurn => "Stress test GPU with compute-intensive workloads"@,
            TestCategory::TwentyFourHour => "Stress test system for 24 hours"@,
        }
    }

    /// A one-line description of what the category stresses.
    pub fn description(&self) -> (r: &'static str)
        ensures
            r@ == self.description_text(),
    {
        match self {
            TestCategory::Cpu => "Stress CPU cores with computation-heavy workloads",
            TestCategory::Memory => "Test RAM integrity and memory subsystem",
            TestCategory::Disk => "Stress storage devices with read/write operations",
            TestCategory::Io => "Stress I/O subsystem with async/sync operations",
            TestCategory::GpuBurn => "Stress test GPU with compute-intensive workloads",
            TestCategory::TwentyFourHour => "Stress test system for 24 hours",
        }
    }

    pub open spec fn jobfile_text(self) -> Seq<char> {
        match self {
            TestCategory::Cpu => "cpu.job"@,
            TestCategory::Memory => "memory.job"@,
            TestCategory::Disk => "disk.job"@,
            TestCategory::Io => "io.job"@,
            TestCategory::GpuBurn => "gpu_burn.job"@,
            TestCategory::TwentyFourHour => "24-hour.job"@,
        }
    }

    /// The file name of the category's stress-ng jobfile (the GPU burn test
    /// runs `gpu_burn` and has no jobfile of its own).
    pub fn jobfile_name(&self) -> (r: &'static str)
        ensures
            r@ == self.jobfile_text(),
    {
        match self {
            TestCategory::Cpu => "cpu.job",
            TestCategory::Memory => "memory.job",
            TestCategory::Disk => "disk.job",
            TestCategory::Io => "io.job",
            TestCategory::GpuBurn => "gpu_burn.job",
            TestCategory::TwentyFourHour => "24-hour.job",
        }
    }
}

/// Execution mode for running tests.
#[derive(Clone, Copy, Debug, PartialEq, Eq, Structural)]
pub enum ExecutionMode {
    Sequential,
    Parallel,
}

impl ExecutionMode {
    pub open spec fn name_text(self) -> Seq<char> {
        match self {
            ExecutionMode::Sequential => "Sequential"@,
            ExecutionMode::Parallel => "Parallel"@,
        }
    }

    /// The display name of the mode.
    pub fn name(&self) -> (r: &'static str)
        ensures
            r@ == self.name_text(),
    {
        match self {
            ExecutionMode::Sequential => "Sequential",
            ExecutionMode::Parallel => "Parallel",
        }
    }
}

impl Default for ExecutionMode {
    fn default() -> (r: Self)
        ensures
            r == ExecutionMode::Sequential,
    {
        ExecutionMode::Sequential
    }
}

/// GPU burn configuration.
#[derive(Clone, Copy, Debug)]
pub struct GpuBurnConfig {
    pub memory_percent: u8,
    pub use_doubles: bool,
    pub use_tensor_cores: bool,
    pub duration_hours: u8,
}

impl Default for GpuBurnConfig {
    fn default() -> (r: Self)
        ensures
            r.memory_percent == 90,
            !r.use_doubles,
            !r.use_tensor_cores,
            r.duration_hours == 1,
    {
        GpuBurnConfig {
            memory_percent: 90,
            use_doubles: false,
            use_tensor_cores: false,
            duration_hours: 1,
        }
    }
}

/// Test configuration state: which categories are selected (indexed by
/// [`TestCategory::index`]), the execution mode and the GPU burn settings.
#[derive(Clone, Copy, Debug)]
pub struct TestConfig {
    pub selected: [bool; 6],
    pub execution_mode: ExecutionMode,
    pub gpu_burn: GpuBurnConfig,
}

impl Default for TestConfig {
    fn default() -> (r: Self)
        ensures
            forall|k: int| 0 <= k < 6 ==> !r.selected@[k],
            r.execution_mode == ExecutionMode::Sequential,
            r.gpu_burn.memory_percent == 90,
            !r.gpu_burn.use_doubles,
            !r.gpu_burn.use_tensor_cores,
            r.gpu_burn.duration_hours == 1,
    {
        TestConfig {
            selected: [false, false, false, false, false, false],
            execution_mode: ExecutionMode::Sequential,
            gpu_burn: GpuBurnConfig::default(),
        }
    }
}

impl TestConfig {
    pub open spec fn is_on(self, c: TestCategory) -> bool {
        self.selected@[c.idx()]
    }

    /// The selected categories, in display order.
    pub open spec fn selected_seq(self) -> Seq<TestCategory> {
        TestCategory::all_seq().filter(|c: TestCategory| self.is_on(c))
    }

    /// The selected categories, each once, in the order of
    /// [`TestCategory::all`].
    pub fn selected_tests(&self) -> (r: Vec<TestCategory>)
        ensures
            r@ == self.selected_seq(),
    {
        let all = TestCategory::all();
        let mut r: Vec<TestCategory> = Vec::new();
        for i in 0..CATEGORY_COUNT
            invariant
                all@ == TestCategory::all_seq(),
                r@ == TestCategory::all_seq().take(i as int).filter(
                    |c: TestCategory| self.is_on(c),
                ),
        {
            proof {
                TestCategory::lemma_all_seq_indexing();
            }
            let c = all[i];
            assert(TestCategory::all_seq().take(i + 1).drop_last() =~= TestCategory::all_seq().take(
                i as int,
            ));
            assert(TestCategory::all_seq().take(i + 1).last() == c);
            reveal_with_fuel(Seq::<_>::filter, 1);
            if self.selected[c.index()] {
                r.push(c);
            }
        }
        assert(TestCategory::all_seq().take(6) =~= TestCategory::all_seq());
        r
    }

    /// Whether any category is selected.
    pub fn any_selected(&self) -> (r: bool)
        ensures
            r == (exists|k: int| 0 <= k < 6 && self.selected@[k]),
    {
        for i in 0..CATEGORY_COUNT
            invariant
                forall|k: int| 0 <= k < i ==> !self.selected@[k],
        {
            if self.selected[i] {
                return true;
            }
        }
        false
    }

    /// Whether `category` is selected.
    pub fn is_selected(&self, category: TestCategory) -> (r: bool)
        ensures
            r == self.is_on(category),
    {
        self.selected[category.index()]
    }

    /// Selects or deselects one category; nothing else changes.
    pub fn set_selected(&mut self, category: TestCategory, on: bool)
        ensures
            final(self).selected@ == old(self).selected@.update(category.idx(), on),
            final(self).execution_mode == old(self).execution_mode,
            final(self).gpu_burn == old(self).gpu_burn,
    {
        let i = category.index();
        self.selected[i] = on;
    }

    /// Selects or deselects every category; nothing else changes.
    pub fn set_all(&mut self, on: bool)
        ensures
            forall|k: int| 0 <= k < 6 ==> final(self).selected@[k] == on,
            final(self).execution_mode == old(self).execution_mode,
            final(self).gpu_burn == old(self).gpu_burn,
    {
        for i in 0..CATEGORY_COUNT
            invariant
                forall|k: int| 0 <= k < i ==> self.selected@[k] == on,
                self.execution_mode == old(self).execution_mode,
                self.gpu_burn == old(self).gpu_burn,
        {
            self.selected[i] = on;
        }
    }
}

/// The tests that start are exactly the selected categories: a category is
/// among [`TestConfig::selected_tests`] if and only if it is selected, and
/// none appears twice.
pub proof fn law_selected_tests_are_the_selection(config: TestConfig, c: TestCategory)
    ensures
        config.selected_seq().contains(c) <==> config.is_on(c),
        config.selected_seq().no_duplicates(),
{
    TestCategory::lemma_all_seq_indexing();
    let pred = |x: TestCategory| config.is_on(x);
    let all = TestCategory::all_seq();
    broadcast use vstd::seq_lib::group_filter_ensures;

    if config.is_on(c) {
        assert(all[c.idx()] == c);
        assert(all.filter(pred).contains(all[c.idx()]));
    }
    if config.selected_seq().contains(c) {
        let k = choose|k: int| 0 <= k < all.filter(pred).len() && all.filter(pred)[k] == c;
        assert(pred(all.filter(pred)[k]));
    }
    lemma_filter_no_duplicates(all, pred);
    assert(all.no_duplicates()) by {
        assert forall|i: int, j: int| 0 <= i < all.len() && 0 <= j < all.len() && i != j implies all[i]
            != all[j] by {
            assert(all[i].idx() == i);
            assert(all[j].idx() == j);
        }
    }
}

proof fn lemma_filter_no_duplicates(s: Seq<TestCategory>, pred: spec_fn(TestCategory) -> bool)
    requires
        s.no_duplicates(),
    ensures
        s.filter(pred).no_duplicates(),
    decreases s.len(),
{
    reveal_with_fuel(Seq::<_>::filter, 1);
    if s.len() > 0 {
        let init = s.drop_last();
        assert(init.no_duplicates());
        lemma_filter_no_duplicates(init, pred);
        if pred(s.last()) {
            assert(!init.contains(s.last()));
            if init.filter(pred).contains(s.last()) {
                init.lemma_filter_contains_rev(pred, s.last());
            }
        }
    }
}

/// Something is selected exactly when there are tests to start.
pub proof fn law_any_selected_iff_tests(config: TestConfig)
    ensures
        (exists|k: int| 0 <= k < 6 && config.selected@[k]) <==> config.selected_seq().len() > 0,
{
    TestCategory::lemma_all_seq_indexing();
    let all = TestCategory::all_seq();
    let pred = |x: TestCategory| config.is_on(x);
    broadcast use vstd::seq_lib::group_filter_ensures;

    if exists|k: int| 0 <= k < 6 && config.selected@[k] {
        let k = choose|k: int| 0 <= k < 6 && config.selected@[k];
        assert(all[k].idx() == k);
        assert(pred(all[k]));
        assert(all.filter(pred).contains(all[k]));
    }
    if config.selected_seq().len() > 0 {
        let c = all.filter(pred)[0];
        assert(pred(all.filter(pred)[0]));
        assert(0 <= c.idx() < 6 && config.selected@[c.idx()]);
    }
}

/// ASCII whitespace as `u8::is_ascii_whitespace` knows it.
pub open spec fn is_ascii_ws(c: char) -> bool {
    c == ' ' || c == '\t' || c == '\n' || c == '\x0C' || c == '\r'
}

/// `s` without its trailing ASCII whitespace (`trim_ascii_end`).
pub open spec fn trim_ascii_end(s: Seq<char>) -> Seq<char>
    decreases s.len(),
{
    if s.len() > 0 && is_ascii_ws(s.last()) {
        trim_ascii_end(s.drop_last())
    } else {
        s
    }
}

/// Where tricorder is looked for, in order: next to us, then in the
/// `shakedown` directory of the user that `whoami` printed.
pub open spec fn tricorder_paths(whoami: Seq<char>) -> Seq<Seq<char>> {
    seq!["./tricorder"@, "/home/"@ + trim_ascii_end(whoami) + "/shakedown/tricorder"@]
}

/// The places to launch tricorder from, given what `whoami` printed.
pub fn tricorder_candidates(whoami: &str) -> (r: Vec<String>)
    ensures
        r@.len() == 2,
        r@[0]@ == tricorder_paths(whoami@)[0],
        r@[1]@ == tricorder_paths(whoami@)[1],
{
    let v = chars_of(whoami);
    let mut n = v.len();
    assert(v@.take(n as int) =~= v@);
    while n > 0 && (v[n - 1] == ' ' || v[n - 1] == '\t' || v[n - 1] == '\n' || v[n - 1] == '\x0C'
        || v[n - 1] == '\r')
        invariant
            n <= v@.len(),
            v@ == whoami@,
            trim_ascii_end(v@.take(n as int)) == trim_ascii_end(whoami@),
        decreases n,
    {
        assert(v@.take(n as int).drop_last() =~= v@.take(n - 1));
        n -= 1;
    }
    let user = slice_range(&v, 0, n);
    assert(user@ =~= v@.take(n as int));
    let mut home = owned("/home/");
    push_chars(&mut home, &user);
    push_chars(&mut home, &chars_of("/shakedown/tricorder"));
    let r = vec![owned("./tricorder"), home];
    r
}

} // verus!
