//! Bookkeeping of a stress-test run: which tests are queued and running, how
//! many have completed, and the status shown to the user. Starting, polling
//! and killing processes happens outside; this module decides what to start
//! next and what the outcome of each poll is.
use vstd::prelude::*;

use crate::app::{ExecutionMode, GpuBurnConfig, TestCategory};
use crate::stress::jobfiles::{join_path, path_exists, path_join};
use crate::text::{
    chars_of, decimal, digits_value, is_digit, lemma_decimal_reads_back, owned, push_char,
    push_chars, push_decimal,
};

verus! {

// ---------------------------------------------------------------------------
// Status
// ---------------------------------------------------------------------------

/// Status of the stress test runner. Times are milliseconds on the clock
/// that the caller passes in.
#[derive(Clone, Debug)]
pub enum TestStatus {
    /// No tests running.
    Idle,
    /// Tests are currently running.
    Running {
        current_test: Option<TestCategory>,
        tests_completed: usize,
        tests_total: usize,
        start_time: u64,
        mode: ExecutionMode,
    },
    /// Tests completed successfully.
    Completed { duration: u64, tests_run: usize },
    /// Tests were stopped by the user.
    Stopped,
    /// Tests failed with an error.
    Failed { error: String },
}

/// The mathematical form of a [`TestStatus`]: the error text as characters.
pub enum RunStatus {
    Idle,
    Running {
        current_test: Option<TestCategory>,
        tests_completed: usize,
        tests_total: usize,
        start_time: u64,
        mode: ExecutionMode,
    },
    Completed { duration: u64, tests_run: usize },
    Stopped,
    Failed { error: Seq<char> },
}

impl View for TestStatus {
    type V = RunStatus;

    open spec fn view(&self) -> RunStatus {
        match self {
            TestStatus::Idle => RunStatus::Idle,
            TestStatus::Running { current_test, tests_completed, tests_total, start_time, mode } =>
                RunStatus::Running {
                current_test: *current_test,
                tests_completed: *tests_completed,
                tests_total: *tests_total,
                start_time: *start_time,
                mode: *mode,
            },
            TestStatus::Completed { duration, tests_run } => RunStatus::Completed {
                duration: *duration,
                tests_run: *tests_run,
            },
            TestStatus::Stopped => RunStatus::Stopped,
            TestStatus::Failed { error } => RunStatus::Failed { error: error@ },
        }
    }
}

/// What polling one process found.
#[derive(Clone, Debug)]
pub enum ProcessState {
    /// The process has not exited yet.
    Running,
    /// The process exited; `code` is its exit code, absent when a signal
    /// ended it. Exit code 0 is success.
    Exited { code: Option<i32> },
    /// Polling the process failed with this message.
    CheckFailed(String),
}

/// Why a run could not start.
#[derive(Clone, Debug)]
pub enum RunnerError {
    NoTestsSelected,
    StressNgNotFound(String),
    GpuBurnNotFound(String),
    JobfileNotFound(String),
}

/// The program to start for a test and its arguments.
#[derive(Clone, Debug)]
pub struct LaunchCommand {
    pub program: String,
    pub args: Vec<String>,
}

/// What a poll of the running processes leads to: the failure it found, if
/// any, and the test to start next in sequential mode, if any.
#[derive(Clone, Debug)]
pub struct UpdateStep {
    pub failure: Option<String>,
    pub next: Option<TestCategory>,
}

// ---------------------------------------------------------------------------
// The model and its transitions
// ---------------------------------------------------------------------------

/// The state of a runner, as the contracts speak of it.
pub struct RunnerModel {
    pub status: RunStatus,
    /// Tests whose process is running, each once, in the order started.
    pub running: Seq<TestCategory>,
    /// Tests still to run in sequential mode, the current one first.
    pub queue: Seq<TestCategory>,
    pub total: usize,
    pub completed: usize,
    pub start_time: Option<u64>,
    pub mode: ExecutionMode,
    pub gpu_burn: GpuBurnConfig,
    pub stress_ng_path: Seq<char>,
    pub jobfiles_path: Seq<char>,
    pub gpu_burn_path: Seq<char>,
}

/// A fresh runner whose programs live in `exe_dir`.
pub open spec fn model_new(exe_dir: Seq<char>) -> RunnerModel {
    RunnerModel {
        status: RunStatus::Idle,
        running: seq![],
        queue: seq![],
        total: 0,
        completed: 0,
        start_time: None,
        mode: ExecutionMode::Sequential,
        gpu_burn: GpuBurnConfig {
            memory_percent: 90,
            use_doubles: false,
            use_tensor_cores: false,
            duration_hours: 1,
        },
        stress_ng_path: path_join(exe_dir, "stress-ng"@),
        jobfiles_path: path_join(exe_dir, "jobfiles"@),
        gpu_burn_path: path_join(exe_dir, "gpu_burn"@),
    }
}

/// The tests of `tests` to start in parallel: each once, in order, leaving
/// out those already running.
pub open spec fn fresh_tests(running: Seq<TestCategory>, tests: Seq<TestCategory>) -> Seq<
    TestCategory,
>
    decreases tests.len(),
{
    if tests.len() == 0 {
        seq![]
    } else {
        let p = fresh_tests(running, tests.drop_last());
        if running.contains(tests.last()) || p.contains(tests.last()) {
            p
        } else {
            p.push(tests.last())
        }
    }
}

/// The tests to start when a run begins: in sequential mode the first one
/// unless it is already running, in parallel mode [`fresh_tests`].
pub open spec fn start_plan(running: Seq<TestCategory>, tests: Seq<TestCategory>, mode: ExecutionMode) -> Seq<
    TestCategory,
> {
    match mode {
        ExecutionMode::Sequential => if tests.len() > 0 && !running.contains(tests[0]) {
            seq![tests[0]]
        } else {
            seq![]
        },
        ExecutionMode::Parallel => fresh_tests(running, tests),
    }
}

/// The state once a run of `tests` in `mode` is accepted at time `now`.
pub open spec fn model_accept(m: RunnerModel, tests: Seq<TestCategory>, mode: ExecutionMode, now: u64) -> RunnerModel {
    RunnerModel {
        total: tests.len() as usize,
        completed: 0,
        start_time: Some(now),
        mode,
        queue: match mode {
            ExecutionMode::Sequential => tests,
            ExecutionMode::Parallel => seq![],
        },
        ..m
    }
}

/// The state once the process of `c` has been started.
pub open spec fn model_spawned(m: RunnerModel, c: TestCategory) -> RunnerModel {
    RunnerModel {
        running: if m.running.contains(c) {
            m.running
        } else {
            m.running.push(c)
        },
        ..m
    }
}

/// The running status for the current counters.
pub open spec fn running_status(m: RunnerModel, now: u64) -> RunStatus {
    RunStatus::Running {
        current_test: if m.mode == ExecutionMode::Sequential && m.queue.len() > 0 {
            Some(m.queue[0])
        } else {
            None
        },
        tests_completed: m.completed,
        tests_total: m.total,
        start_time: match m.start_time {
            Some(t) => t,
            None => now,
        },
        mode: m.mode,
    }
}

pub open spec fn model_running(m: RunnerModel, now: u64) -> RunnerModel {
    RunnerModel { status: running_status(m, now), ..m }
}

pub open spec fn exited_ok(s: ProcessState) -> bool {
    s matches ProcessState::Exited { code: Some(0i32) }
}

/// An integer in decimal, with a leading `'-'` when negative.
pub open spec fn signed_decimal(i: int) -> Seq<char> {
    if i < 0 {
        seq!['-'] + decimal((-i) as nat)
    } else {
        decimal(i as nat)
    }
}

/// The failure that polling `c` in state `s` reports, if any.
pub open spec fn failure_text(c: TestCategory, s: ProcessState) -> Option<Seq<char>> {
    match s {
        ProcessState::Running => None,
        ProcessState::Exited { code } => if code == Some(0i32) {
            None
        } else {
            Some(
                c.name_text() + " test failed with exit code "@ + signed_decimal(
                    match code {
                        Some(k) => k as int,
                        None => -1,
                    },
                ),
            )
        },
        ProcessState::CheckFailed(e) => Some("Error checking "@ + c.name_text() + " status: "@ + e@),
    }
}

/// The last failure found among the polls (`states[i]` is the state of
/// `running[i]`).
pub open spec fn last_failure(running: Seq<TestCategory>, states: Seq<ProcessState>) -> Option<
    Seq<char>,
>
    decreases states.len(),
{
    if states.len() == 0 || running.len() == 0 {
        None
    } else {
        match failure_text(running.last(), states.last()) {
            Some(t) => Some(t),
            None => last_failure(running.drop_last(), states.drop_last()),
        }
    }
}

/// The tests whose process exited successfully.
pub open spec fn finished(running: Seq<TestCategory>, states: Seq<ProcessState>) -> Seq<TestCategory>
    decreases states.len(),
{
    if states.len() == 0 || running.len() == 0 {
        seq![]
    } else {
        finished(running.drop_last(), states.drop_last()) + if exited_ok(states.last()) {
            seq![running.last()]
        } else {
            seq![]
        }
    }
}

/// The tests whose process has not exited successfully.
pub open spec fn unfinished(running: Seq<TestCategory>, states: Seq<ProcessState>) -> Seq<TestCategory>
    decreases states.len(),
{
    if states.len() == 0 || running.len() == 0 {
        seq![]
    } else {
        unfinished(running.drop_last(), states.drop_last()) + if exited_ok(states.last()) {
            seq![]
        } else {
            seq![running.last()]
        }
    }
}

/// The state after the polls in `states` have been taken in (`states[i]`
/// belongs to `running[i]`): finished tests leave the running set and, in
/// sequential mode, the queue; the completed count grows by their number.
/// Nothing changes unless a run is in progress.
pub open spec fn model_collect(m: RunnerModel, states: Seq<ProcessState>) -> RunnerModel {
    if !(m.status is Running) {
        m
    } else {
        let done = finished(m.running, states);
        RunnerModel {
            running: unfinished(m.running, states),
            completed: (m.completed + done.len()) as usize,
            queue: if m.mode == ExecutionMode::Sequential {
                m.queue.filter(|c: TestCategory| !done.contains(c))
            } else {
                m.queue
            },
            ..m
        }
    }
}

/// The next test to start after a poll: in sequential mode, when the poll
/// found no failure, the head of the queue unless it is already running.
pub open spec fn next_after(m: RunnerModel, failure: Option<Seq<char>>) -> Option<TestCategory> {
    if m.status is Running && m.mode == ExecutionMode::Sequential && failure is None
        && m.queue.len() > 0 && !m.running.contains(m.queue[0]) {
        Some(m.queue[0])
    } else {
        None
    }
}

/// Milliseconds from `start` to `now`, zero when `now` is earlier or there
/// is no start.
pub open spec fn elapsed(start: Option<u64>, now: u64) -> u64 {
    match start {
        Some(t) => if now >= t {
            (now - t) as u64
        } else {
            0
        },
        None => 0,
    }
}

/// The state once nothing runs any more and the queue is empty.
pub open spec fn model_stopped(m: RunnerModel) -> RunnerModel {
    RunnerModel { running: seq![], queue: seq![], status: RunStatus::Stopped, ..m }
}

/// The outcome of a poll: a failure stops everything and is reported;
/// otherwise the run completes once the completed count reaches the total,
/// or goes on running. Nothing changes unless a run is in progress.
pub open spec fn model_finish(m: RunnerModel, failure: Option<Seq<char>>, now: u64) -> RunnerModel {
    if !(m.status is Running) {
        m
    } else {
        match failure {
            Some(e) => RunnerModel { status: RunStatus::Failed { error: e }, ..model_stopped(m) },
            None => if m.completed >= m.total {
                RunnerModel {
                    status: RunStatus::Completed {
                        duration: elapsed(m.start_time, now),
                        tests_run: m.total,
                    },
                    ..m
                }
            } else {
                model_running(m, now)
            },
        }
    }
}

/// The state after a reset: idle, with no run recorded.
pub open spec fn model_reset(m: RunnerModel) -> RunnerModel {
    RunnerModel {
        status: RunStatus::Idle,
        total: 0,
        completed: 0,
        start_time: None,
        ..model_stopped(m)
    }
}

/// The arguments `gpu_burn` gets: memory share, optional doubles and tensor
/// cores, and the duration in seconds.
pub open spec fn gpu_burn_args(c: GpuBurnConfig) -> Seq<Seq<char>> {
    seq!["-m"@, decimal(c.memory_percent as nat) + seq!['%']] + (if c.use_doubles {
        seq!["-d"@]
    } else {
        seq![]
    }) + (if c.use_tensor_cores {
        seq!["-tc"@]
    } else {
        seq![]
    }) + seq![decimal(c.duration_hours as nat * 3600)]
}

/// The arguments stress-ng gets for a jobfile.
pub open spec fn stress_ng_args(jobfile: Seq<char>) -> Seq<Seq<char>> {
    seq!["--job"@, jobfile, "--yaml"@, "results.yaml"@, "--log-file"@, "stress-ng.log"@]
}

pub open spec fn string_views(v: Seq<String>) -> Seq<Seq<char>> {
    v.map_values(|s: String| s@)
}

/// The first test, in order, that needs a jobfile (any but GPU burn) and
/// whose jobfile is missing (`present[k]` belongs to `tests[k]`).
pub open spec fn first_missing_jobfile(tests: Seq<TestCategory>, present: Seq<bool>) -> Option<int>
    decreases tests.len(),
{
    if tests.len() == 0 || present.len() == 0 {
        None
    } else {
        match first_missing_jobfile(tests.drop_last(), present.drop_last()) {
            Some(k) => Some(k),
            None => if tests.last() != TestCategory::GpuBurn && !present.last() {
                Some(tests.len() - 1)
            } else {
                None
            },
        }
    }
}

/// Once a prefix has a missing jobfile, every longer prefix reports the same.
proof fn lemma_first_missing_prefix(tests: Seq<TestCategory>, present: Seq<bool>, i: int)
    requires
        tests.len() == present.len(),
        0 <= i <= tests.len(),
    ensures
        forall|j: int|
            0 <= j <= i ==> (#[trigger] first_missing_jobfile(tests.take(j), present.take(j)) matches Some(
                k,
            ) ==> first_missing_jobfile(tests.take(i), present.take(i)) == Some(k)),
        i > 0 && first_missing_jobfile(tests.take(i - 1), present.take(i - 1)) is None ==> (
        first_missing_jobfile(tests.take(i), present.take(i)) is Some <==> (tests[i - 1]
            != TestCategory::GpuBurn && !present[i - 1])),
    decreases i,
{
    if i > 0 {
        lemma_first_missing_prefix(tests, present, i - 1);
        assert(tests.take(i).drop_last() =~= tests.take(i - 1));
        assert(present.take(i).drop_last() =~= present.take(i - 1));
        assert(tests.take(i).last() == tests[i - 1]);
        assert(present.take(i).last() == present[i - 1]);
    }
}

// ---------------------------------------------------------------------------
// The runner
// ---------------------------------------------------------------------------

/// Manages a stress-ng test run.
pub struct StressRunner {
    status: TestStatus,
    running: Vec<TestCategory>,
    test_queue: Vec<TestCategory>,
    total_tests: usize,
    completed_tests: usize,
    start_time: Option<u64>,
    execution_mode: ExecutionMode,
    stress_ng_path: String,
    jobfiles_path: String,
    gpu_burn_path: String,
    gpu_burn_config: GpuBurnConfig,
}

impl View for StressRunner {
    type V = RunnerModel;

    closed spec fn view(&self) -> RunnerModel {
        RunnerModel {
            status: self.status@,
            running: self.running@,
            queue: self.test_queue@,
            total: self.total_tests,
            completed: self.completed_tests,
            start_time: self.start_time,
            mode: self.execution_mode,
            gpu_burn: self.gpu_burn_config,
            stress_ng_path: self.stress_ng_path@,
            jobfiles_path: self.jobfiles_path@,
            gpu_burn_path: self.gpu_burn_path@,
        }
    }
}

/// A well-formed model runs each test at most once.
pub open spec fn model_wf(m: RunnerModel) -> bool {
    m.running.no_duplicates()
}

fn text(s: &str) -> (r: String)
    ensures
        r@ == s@,
{
    owned(s)
}

impl StressRunner {
    /// A runner for the programs next to the executable in `exe_dir`:
    /// `stress-ng`, `gpu_burn` and the `jobfiles` directory.
    pub fn new(exe_dir: &str) -> (r: StressRunner)
        ensures
            r@ == model_new(exe_dir@),
            model_wf(r@),
    {
        let r = StressRunner {
            status: TestStatus::Idle,
            running: Vec::new(),
            test_queue: Vec::new(),
            total_tests: 0,
            completed_tests: 0,
            start_time: None,
            execution_mode: ExecutionMode::Sequential,
            stress_ng_path: join_path(exe_dir, "stress-ng"),
            jobfiles_path: join_path(exe_dir, "jobfiles"),
            gpu_burn_path: join_path(exe_dir, "gpu_burn"),
            gpu_burn_config: GpuBurnConfig::default(),
        };
        assert(r.running@ =~= Seq::<TestCategory>::empty());
        assert(r.test_queue@ =~= Seq::<TestCategory>::empty());
        r
    }

    /// The current status.
    pub fn status(&self) -> (r: &TestStatus)
        ensures
            r@ == self@.status,
    {
        &self.status
    }

    /// Whether a run is in progress.
    pub fn is_running(&self) -> (r: bool)
        ensures
            r == (self@.status is Running),
    {
        match self.status {
            TestStatus::Running { .. } => true,
            _ => false,
        }
    }

    pub fn stress_ng_path(&self) -> (r: &str)
        ensures
            r@ == self@.stress_ng_path,
    {
        self.stress_ng_path.as_str()
    }

    pub fn gpu_burn_path(&self) -> (r: &str)
        ensures
            r@ == self@.gpu_burn_path,
    {
        self.gpu_burn_path.as_str()
    }

    pub fn jobfiles_path(&self) -> (r: &str)
        ensures
            r@ == self@.jobfiles_path,
    {
        self.jobfiles_path.as_str()
    }

    /// Whether the stress-ng program exists (asked of the file system).
    pub fn is_stress_ng_available(&self) -> bool {
        path_exists(self.stress_ng_path.as_str())
    }

    /// Whether the gpu_burn program exists (asked of the file system).
    pub fn is_gpu_burn_available(&self) -> bool {
        path_exists(self.gpu_burn_path.as_str())
    }

    /// The GPU burn configuration used for the next GPU burn test.
    pub fn gpu_burn_config(&self) -> (r: GpuBurnConfig)
        ensures
            r == self@.gpu_burn,
    {
        self.gpu_burn_config
    }

    /// Replaces the GPU burn configuration; nothing else changes.
    pub fn set_gpu_burn_config(&mut self, config: GpuBurnConfig)
        requires
            model_wf(old(self)@),
        ensures
            final(self)@ == (RunnerModel { gpu_burn: config, ..old(self)@ }),
            model_wf(final(self)@),
    {
        self.gpu_burn_config = config;
    }

    /// The path of the jobfile that `test` runs with:
    /// `<jobfiles dir>/<jobfile name>`. Whether it exists is one of the
    /// answers [`StressRunner::start`] takes.
    pub fn jobfile_path(&self, test: TestCategory) -> (r: String)
        ensures
            r@ == path_join(self@.jobfiles_path, test.jobfile_text()),
    {
        join_path(self.jobfiles_path.as_str(), test.jobfile_name())
    }

    /// Starts a run of `tests` in `mode` at time `now`, given what the file
    /// system says: whether stress-ng ([`StressRunner::stress_ng_path`]) and
    /// gpu_burn ([`StressRunner::gpu_burn_path`]) exist and, for each test,
    /// whether its jobfile ([`StressRunner::jobfile_path`]) exists
    /// (`jobfile_present[k]` for `tests[k]`; GPU burn tests need none).
    /// Refuses an empty list, then a missing stress-ng, then a missing
    /// gpu_burn, then the first missing jobfile, changing nothing; otherwise
    /// records the run and returns the tests whose processes are to be
    /// started (see [`law_started_run_is_running`] for what follows).
    pub fn start(
        &mut self,
        tests: Vec<TestCategory>,
        mode: ExecutionMode,
        now: u64,
        stress_ng_present: bool,
        gpu_burn_present: bool,
        jobfile_present: &Vec<bool>,
    ) -> (r: Result<Vec<TestCategory>, RunnerError>)
        requires
            model_wf(old(self)@),
            jobfile_present@.len() == tests@.len(),
        ensures
            model_wf(final(self)@),
            r is Err ==> final(self)@ == old(self)@,
            (r matches Err(RunnerError::NoTestsSelected)) <==> tests@.len() == 0,
            (r matches Err(RunnerError::StressNgNotFound(p))) <==> (tests@.len() > 0
                && !stress_ng_present),
            r matches Err(RunnerError::StressNgNotFound(p)) ==> p@ == old(self)@.stress_ng_path,
            (r matches Err(RunnerError::GpuBurnNotFound(p))) <==> (tests@.len() > 0
                && stress_ng_present && !gpu_burn_present),
            r matches Err(RunnerError::GpuBurnNotFound(p)) ==> p@ == old(self)@.gpu_burn_path,
            (r matches Err(RunnerError::JobfileNotFound(p))) <==> (tests@.len() > 0
                && stress_ng_present && gpu_burn_present && first_missing_jobfile(
                tests@,
                jobfile_present@,
            ) is Some),
            r matches Err(RunnerError::JobfileNotFound(p)) ==> p@ == path_join(
                old(self)@.jobfiles_path,
                tests@[first_missing_jobfile(tests@, jobfile_present@)->0].jobfile_text(),
            ),
            r is Ok <==> (tests@.len() > 0 && stress_ng_present && gpu_burn_present
                && first_missing_jobfile(tests@, jobfile_present@) is None),
            r matches Ok(plan) ==> final(self)@ == model_accept(old(self)@, tests@, mode, now) && plan@
                == start_plan(old(self)@.running, tests@, mode),
    {
        if tests.len() == 0 {
            return Err(RunnerError::NoTestsSelected);
        }
        if !stress_ng_present {
            return Err(RunnerError::StressNgNotFound(text(self.stress_ng_path.as_str())));
        }
        if !gpu_burn_present {
            return Err(RunnerError::GpuBurnNotFound(text(self.gpu_burn_path.as_str())));
        }
        let n = tests.len();
        for k in 0..n
            invariant
                n == tests@.len(),
                n == jobfile_present@.len(),
                n > 0,
                stress_ng_present && gpu_burn_present,
                self@ == old(self)@,
                model_wf(old(self)@),
                first_missing_jobfile(tests@.take(k as int), jobfile_present@.take(k as int)) is None,
        {
            proof {
                let tk = tests@.take(k + 1);
                let pk = jobfile_present@.take(k + 1);
                assert(tk.drop_last() =~= tests@.take(k as int));
                assert(pk.drop_last() =~= jobfile_present@.take(k as int));
                lemma_first_missing_prefix(tests@, jobfile_present@, k + 1);
            }
            let t = tests[k];
            if t != TestCategory::GpuBurn && !jobfile_present[k] {
                proof {
                    lemma_first_missing_prefix(tests@, jobfile_present@, n as int);
                    assert(tests@.take(n as int) =~= tests@);
                    assert(jobfile_present@.take(n as int) =~= jobfile_present@);
                }
                let jobfile = join_path(self.jobfiles_path.as_str(), t.jobfile_name());
                return Err(RunnerError::JobfileNotFound(jobfile));
            }
        }
        assert(tests@.take(n as int) =~= tests@);
        assert(jobfile_present@.take(n as int) =~= jobfile_present@);
        Ok(self.accept_start(tests, mode, now))
    }

    /// Records an accepted run of `tests` in `mode` at time `now` and returns
    /// the tests to start (see [`start_plan`]). The status stays as it is
    /// until [`StressRunner::update_running_status`].
    pub fn accept_start(&mut self, tests: Vec<TestCategory>, mode: ExecutionMode, now: u64) -> (r: Vec<TestCategory>)
        requires
            model_wf(old(self)@),
        ensures
            final(self)@ == model_accept(old(self)@, tests@, mode, now),
            r@ == start_plan(old(self)@.running, tests@, mode),
            model_wf(final(self)@),
    {
        let plan = match mode {
            ExecutionMode::Sequential => {
                let mut p: Vec<TestCategory> = Vec::new();
                if tests.len() > 0 && !contains_category(&self.running, tests[0]) {
                    p.push(tests[0]);
                }
                assert(p@ =~= start_plan(self.running@, tests@, mode));
                p
            },
            ExecutionMode::Parallel => fresh_exec(&self.running, &tests),
        };
        self.total_tests = tests.len();
        self.completed_tests = 0;
        self.start_time = Some(now);
        self.execution_mode = mode;
        match mode {
            ExecutionMode::Sequential => {
                self.test_queue = tests;
            },
            ExecutionMode::Parallel => {
                self.test_queue = Vec::new();
            },
        }
        proof {
            if mode == ExecutionMode::Parallel {
                assert(self.test_queue@ =~= Seq::<TestCategory>::empty());
            }
        }
        plan
    }

    /// In sequential mode, the test to start next: the head of the queue
    /// unless it is already running.
    pub fn start_next_sequential_test(&self) -> (r: Option<TestCategory>)
        ensures
            r == (if self@.queue.len() > 0 && !self@.running.contains(self@.queue[0]) {
                Some(self@.queue[0])
            } else {
                None::<TestCategory>
            }),
    {
        if self.test_queue.len() > 0 && !contains_category(&self.running, self.test_queue[0]) {
            Some(self.test_queue[0])
        } else {
            None
        }
    }

    /// The program and arguments that start `category`: `gpu_burn` with the
    /// GPU burn configuration, or stress-ng with the category's jobfile.
    pub fn launch_command(&self, category: TestCategory) -> (r: LaunchCommand)
        ensures
            category == TestCategory::GpuBurn ==> r.program@ == self@.gpu_burn_path && string_views(
                r.args@,
            ) == gpu_burn_args(self@.gpu_burn),
            category != TestCategory::GpuBurn ==> r.program@ == self@.stress_ng_path
                && string_views(r.args@) == stress_ng_args(
                path_join(self@.jobfiles_path, category.jobfile_text()),
            ),
    {
        if category == TestCategory::GpuBurn {
            let c = self.gpu_burn_config;
            let mut args: Vec<String> = Vec::new();
            args.push(text("-m"));
            let mut pct = String::new();
            push_decimal(&mut pct, c.memory_percent as u64);
            push_char(&mut pct, '%');
            assert(pct@ =~= decimal(c.memory_percent as nat) + seq!['%']);
            args.push(pct);
            let ghost base = seq!["-m"@, decimal(c.memory_percent as nat) + seq!['%']];
            assert(string_views(args@) =~= base);
            let ghost with_d = base + (if c.use_doubles {
                seq!["-d"@]
            } else {
                Seq::<Seq<char>>::empty()
            });
            if c.use_doubles {
                args.push(text("-d"));
            }
            assert(string_views(args@) =~= with_d);
            let ghost with_tc = with_d + (if c.use_tensor_cores {
                seq!["-tc"@]
            } else {
                Seq::<Seq<char>>::empty()
            });
            if c.use_tensor_cores {
                args.push(text("-tc"));
            }
            assert(string_views(args@) =~= with_tc);
            let seconds: u64 = (c.duration_hours as u64) * 3600;
            let mut secs = String::new();
            push_decimal(&mut secs, seconds);
            assert(secs@ =~= decimal(c.duration_hours as nat * 3600));
            args.push(secs);
            proof {
                assert(string_views(args@) =~= with_tc.push(decimal(c.duration_hours as nat * 3600)));
                assert(string_views(args@) =~= gpu_burn_args(c));
            }
            LaunchCommand { program: text(self.gpu_burn_path.as_str()), args }
        } else {
            let jobfile = join_path(self.jobfiles_path.as_str(), category.jobfile_name());
            let args = vec![
                text("--job"),
                jobfile,
                text("--yaml"),
                text("results.yaml"),
                text("--log-file"),
                text("stress-ng.log"),
            ];
            proof {
                assert(string_views(args@) =~= stress_ng_args(
                    path_join(self.jobfiles_path@, category.jobfile_text()),
                ));
            }
            LaunchCommand { program: text(self.stress_ng_path.as_str()), args }
        }
    }

    /// Records that the process of `category` has been started.
    pub fn mark_spawned(&mut self, category: TestCategory)
        requires
            model_wf(old(self)@),
        ensures
            final(self)@ == model_spawned(old(self)@, category),
            model_wf(final(self)@),
    {
        if !contains_category(&self.running, category) {
            let ghost before = self.running@;
            self.running.push(category);
            proof {
                assert forall|i: int, j: int|
                    0 <= i < self.running@.len() && 0 <= j < self.running@.len() && i != j implies self.running@[i]
                    != self.running@[j] by {
                    if i == before.len() as int {
                        assert(before[j] == self.running@[j]);
                    } else if j == before.len() as int {
                        assert(before[i] == self.running@[i]);
                    }
                }
            }
        }
    }

    /// Sets the status to running with the current counters.
    pub fn update_running_status(&mut self, now: u64)
        requires
            model_wf(old(self)@),
        ensures
            final(self)@ == model_running(old(self)@, now),
            model_wf(final(self)@),
    {
        let current_test = if self.execution_mode == ExecutionMode::Sequential
            && self.test_queue.len() > 0 {
            Some(self.test_queue[0])
        } else {
            None
        };
        let start_time = match self.start_time {
            Some(t) => t,
            None => now,
        };
        self.status = TestStatus::Running {
            current_test,
            tests_completed: self.completed_tests,
            tests_total: self.total_tests,
            start_time,
            mode: self.execution_mode,
        };
    }

    /// The tests whose process is running, in the order they were started.
    pub fn running_tests(&self) -> (r: Vec<TestCategory>)
        ensures
            r@ == self@.running,
    {
        self.running.clone()
    }

    /// Milliseconds since the run started, if one was recorded.
    pub fn elapsed_time(&self, now: u64) -> (r: Option<u64>)
        ensures
            r == (match self@.start_time {
                Some(t) => Some(elapsed(Some(t), now)),
                None => None::<u64>,
            }),
    {
        match self.start_time {
            Some(t) => Some(if now >= t {
                now - t
            } else {
                0
            }),
            None => None,
        }
    }

    /// Records that every process has been stopped.
    pub fn stop(&mut self)
        requires
            model_wf(old(self)@),
        ensures
            final(self)@ == model_stopped(old(self)@),
            model_wf(final(self)@),
    {
        self.running = Vec::new();
        self.test_queue = Vec::new();
        self.status = TestStatus::Stopped;
        assert(self.running@ =~= Seq::<TestCategory>::empty());
        assert(self.test_queue@ =~= Seq::<TestCategory>::empty());
    }

    /// Returns the runner to idle with no run recorded.
    pub fn reset(&mut self)
        requires
            model_wf(old(self)@),
        ensures
            final(self)@ == model_reset(old(self)@),
            model_wf(final(self)@),
    {
        self.stop();
        self.status = TestStatus::Idle;
        self.test_queue = Vec::new();
        self.total_tests = 0;
        self.completed_tests = 0;
        self.start_time = None;
        assert(self.test_queue@ =~= Seq::<TestCategory>::empty());
    }

    /// Takes in one poll of the running processes; `states[i]` is what
    /// polling `running_tests()[i]` found. Returns the failure found (the
    /// last one when several processes failed) and the test to start next.
    /// Nothing changes unless a run is in progress.
    pub fn collect_exits(&mut self, states: &Vec<ProcessState>) -> (r: UpdateStep)
        requires
            model_wf(old(self)@),
            states@.len() == old(self)@.running.len(),
            old(self)@.completed + old(self)@.running.len() <= usize::MAX,
        ensures
            final(self)@ == model_collect(old(self)@, states@),
            model_wf(final(self)@),
            old(self)@.status is Running ==> (match r.failure {
                Some(e) => last_failure(old(self)@.running, states@) == Some(e@),
                None => last_failure(old(self)@.running, states@) is None,
            }),
            !(old(self)@.status is Running) ==> r.failure is None,
            r.next == next_after(
                final(self)@,
                match r.failure {
                    Some(e) => Some(e@),
                    None => None::<Seq<char>>,
                },
            ),
    {
        if !self.is_running() {
            return UpdateStep { failure: None, next: None };
        }
        let ghost old_model = self@;
        let n = self.running.len();
        let mut done: Vec<TestCategory> = Vec::new();
        let mut remaining: Vec<TestCategory> = Vec::new();
        let mut failure: Option<String> = None;
        for i in 0..n
            invariant
                n == self.running@.len(),
                n == states@.len(),
                self@ == old_model,
                model_wf(old_model),
                done@ == finished(self.running@.take(i as int), states@.take(i as int)),
                remaining@ == unfinished(self.running@.take(i as int), states@.take(i as int)),
                done@.len() + remaining@.len() == i,
                match failure {
                    Some(e) => last_failure(self.running@.take(i as int), states@.take(i as int))
                        == Some(e@),
                    None => last_failure(self.running@.take(i as int), states@.take(i as int)) is None,
                },
        {
            let c = self.running[i];
            proof {
                let rt = self.running@.take(i + 1);
                let st = states@.take(i + 1);
                assert(rt.drop_last() =~= self.running@.take(i as int));
                assert(st.drop_last() =~= states@.take(i as int));
                assert(rt.last() == c);
                assert(st.last() == states@[i as int]);
            }
            match &states[i] {
                ProcessState::Running => {
                    remaining.push(c);
                },
                ProcessState::Exited { code } => {
                    match code {
                        Some(0) => {
                            done.push(c);
                        },
                        _ => {
                            remaining.push(c);
                            let k: i32 = match code {
                                Some(k) => *k,
                                None => -1,
                            };
                            let mut msg = text(c.name());
                            push_chars(&mut msg, &chars_of(" test failed with exit code "));
                            push_signed_decimal(&mut msg, k);
                            failure = Some(msg);
                        },
                    }
                },
                ProcessState::CheckFailed(e) => {
                    remaining.push(c);
                    let mut msg = text("Error checking ");
                    push_chars(&mut msg, &chars_of(c.name()));
                    push_chars(&mut msg, &chars_of(" status: "));
                    push_chars(&mut msg, &chars_of(e.as_str()));
                    failure = Some(msg);
                },
            }
        }
        proof {
            assert(self.running@.take(n as int) =~= self.running@);
            assert(states@.take(n as int) =~= states@);
            lemma_split_no_duplicates(self.running@, states@);
        }
        let done_count = done.len();
        self.running = remaining;
        self.completed_tests = self.completed_tests + done_count;
        if self.execution_mode == ExecutionMode::Sequential {
            self.test_queue = retain_unfinished(&self.test_queue, &done);
        }
        let next = if failure.is_none() && self.execution_mode == ExecutionMode::Sequential {
            self.start_next_sequential_test()
        } else {
            None
        };
        UpdateStep { failure, next }
    }

    /// Concludes a poll: with a failure, everything stops and the status
    /// reports it (the caller kills the processes); otherwise the run
    /// completes once the completed count reaches the total, or goes on.
    /// Returns whether the processes are to be killed. Nothing changes
    /// unless a run is in progress.
    pub fn finish_update(&mut self, failure: Option<String>, now: u64) -> (r: bool)
        requires
            model_wf(old(self)@),
        ensures
            final(self)@ == model_finish(
                old(self)@,
                match failure {
                    Some(e) => Some(e@),
                    None => None::<Seq<char>>,
                },
                now,
            ),
            r == (old(self)@.status is Running && failure is Some),
            model_wf(final(self)@),
    {
        if !self.is_running() {
            return false;
        }
        match failure {
            Some(error) => {
                self.stop();
                self.status = TestStatus::Failed { error };
                true
            },
            None => {
                if self.completed_tests >= self.total_tests {
                    let duration = match self.start_time {
                        Some(t) => if now >= t {
                            now - t
                        } else {
                            0
                        },
                        None => 0,
                    };
                    self.status = TestStatus::Completed { duration, tests_run: self.total_tests };
                } else {
                    self.update_running_status(now);
                }
                false
            },
        }
    }
}

/// Appends `i` in decimal, with a leading `'-'` when negative.
pub fn push_signed_decimal(out: &mut String, i: i32)
    ensures
        final(out)@ == old(out)@ + signed_decimal(i as int),
{
    if i < 0 {
        push_char(out, '-');
        let m: u64 = (-(i as i64)) as u64;
        push_decimal(out, m);
        assert(final(out)@ =~= old(out)@ + signed_decimal(i as int));
    } else {
        push_decimal(out, i as u64);
    }
}

/// The message for a failure to start a test's process.
pub fn spawn_failure_message(category: TestCategory, error: &str) -> (r: String)
    ensures
        r@ == (if category == TestCategory::GpuBurn {
            "Failed to spawn gpu_burn: "@
        } else {
            "Failed to spawn stress-ng: "@
        }) + error@,
{
    let mut msg = if category == TestCategory::GpuBurn {
        text("Failed to spawn gpu_burn: ")
    } else {
        text("Failed to spawn stress-ng: ")
    };
    push_chars(&mut msg, &chars_of(error));
    msg
}

/// The failure reported when the next sequential test cannot start.
pub fn next_test_failure_message(error: &str) -> (r: String)
    ensures
        r@ == "Failed to start next test: "@ + error@,
{
    let mut msg = text("Failed to start next test: ");
    push_chars(&mut msg, &chars_of(error));
    msg
}

fn contains_category(v: &Vec<TestCategory>, c: TestCategory) -> (r: bool)
    ensures
        r == v@.contains(c),
{
    let n = v.len();
    for i in 0..n
        invariant
            n == v@.len(),
            forall|k: int| 0 <= k < i ==> v@[k] != c,
    {
        if v[i] == c {
            return true;
        }
    }
    false
}

fn fresh_exec(running: &Vec<TestCategory>, tests: &Vec<TestCategory>) -> (r: Vec<TestCategory>)
    ensures
        r@ == fresh_tests(running@, tests@),
{
    let n = tests.len();
    let mut r: Vec<TestCategory> = Vec::new();
    for i in 0..n
        invariant
            n == tests@.len(),
            r@ == fresh_tests(running@, tests@.take(i as int)),
    {
        let t = tests[i];
        proof {
            let tk = tests@.take(i + 1);
            assert(tk.drop_last() =~= tests@.take(i as int));
            assert(tk.last() == t);
        }
        if !contains_category(running, t) && !contains_category(&r, t) {
            r.push(t);
        }
    }
    assert(tests@.take(n as int) =~= tests@);
    r
}

/// The queue without the tests in `done`.
fn retain_unfinished(queue: &Vec<TestCategory>, done: &Vec<TestCategory>) -> (r: Vec<TestCategory>)
    ensures
        r@ == queue@.filter(|c: TestCategory| !done@.contains(c)),
{
    let n = queue.len();
    let mut r: Vec<TestCategory> = Vec::new();
    for i in 0..n
        invariant
            n == queue@.len(),
            r@ == queue@.take(i as int).filter(|c: TestCategory| !done@.contains(c)),
    {
        let c = queue[i];
        assert(queue@.take(i + 1).drop_last() =~= queue@.take(i as int));
        assert(queue@.take(i + 1).last() == c);
        reveal_with_fuel(Seq::<_>::filter, 1);
        if !contains_category(done, c) {
            r.push(c);
        }
    }
    assert(queue@.take(n as int) =~= queue@);
    r
}

/// The unfinished part of a duplicate-free running set is duplicate-free.
proof fn lemma_split_no_duplicates(running: Seq<TestCategory>, states: Seq<ProcessState>)
    requires
        running.no_duplicates(),
        running.len() == states.len(),
    ensures
        unfinished(running, states).no_duplicates(),
        forall|c: TestCategory| #[trigger] unfinished(running, states).contains(c) ==> running.contains(c),
        forall|c: TestCategory| #[trigger] finished(running, states).contains(c) ==> running.contains(c),
    decreases running.len(),
{
    if running.len() > 0 {
        let r0 = running.drop_last();
        let s0 = states.drop_last();
        assert(r0.no_duplicates());
        lemma_split_no_duplicates(r0, s0);
        let u0 = unfinished(r0, s0);
        let f0 = finished(r0, s0);
        assert forall|c: TestCategory| #[trigger] unfinished(running, states).contains(c) implies running.contains(c) by {
            if u0.contains(c) {
                let k = choose|k: int| 0 <= k < r0.len() && r0[k] == c;
                assert(running[k] == c);
            } else {
                assert(c == running.last());
                assert(running[running.len() - 1] == c);
            }
        }
        assert forall|c: TestCategory| #[trigger] finished(running, states).contains(c) implies running.contains(c) by {
            if f0.contains(c) {
                let k = choose|k: int| 0 <= k < r0.len() && r0[k] == c;
                assert(running[k] == c);
            } else {
                assert(running[running.len() - 1] == c);
            }
        }
        if !exited_ok(states.last()) {
            assert(!r0.contains(running.last())) by {
                if r0.contains(running.last()) {
                    let k = choose|k: int| 0 <= k < r0.len() && r0[k] == running.last();
                    assert(running[k] == running[running.len() - 1]);
                }
            }
            assert(!u0.contains(running.last()));
            let u = unfinished(running, states);
            assert(u =~= u0.push(running.last()));
            assert forall|i: int, j: int| 0 <= i < u.len() && 0 <= j < u.len() && i != j implies u[i] != u[j] by {
                if i == u.len() - 1 && j < u.len() - 1 {
                    assert(u0[j] == u[j]);
                    assert(u0.contains(u[j]));
                } else if j == u.len() - 1 && i < u.len() - 1 {
                    assert(u0[i] == u[i]);
                    assert(u0.contains(u[i]));
                } else if i < u.len() - 1 && j < u.len() - 1 {
                    assert(u0[i] == u[i]);
                    assert(u0[j] == u[j]);
                }
            }
        } else {
            assert(unfinished(running, states) =~= u0);
        }
    }
}


// ---------------------------------------------------------------------------
// Laws
// ---------------------------------------------------------------------------

/// What [`fresh_tests`] picks: exactly the selected tests that are not
/// running, each once.
proof fn lemma_fresh_tests(running: Seq<TestCategory>, tests: Seq<TestCategory>)
    ensures
        fresh_tests(running, tests).no_duplicates(),
        forall|c: TestCategory| #[trigger]
            fresh_tests(running, tests).contains(c) <==> (tests.contains(c) && !running.contains(c)),
    decreases tests.len(),
{
    if tests.len() > 0 {
        let t0 = tests.drop_last();
        let last = tests.last();
        lemma_fresh_tests(running, t0);
        let p = fresh_tests(running, t0);
        assert forall|c: TestCategory| tests.contains(c) <==> (#[trigger] t0.contains(c) || c == last) by {
            if tests.contains(c) {
                let k = choose|k: int| 0 <= k < tests.len() && tests[k] == c;
                if k < tests.len() - 1 {
                    assert(t0[k] == c);
                }
            }
            if t0.contains(c) {
                let k = choose|k: int| 0 <= k < t0.len() && t0[k] == c;
                assert(tests[k] == c);
            }
            if c == last {
                assert(tests[tests.len() - 1] == c);
            }
        }
        if !(running.contains(last) || p.contains(last)) {
            let q = p.push(last);
            assert forall|c: TestCategory| #[trigger] q.contains(c) <==> (p.contains(c) || c == last) by {
                if q.contains(c) {
                    let k = choose|k: int| 0 <= k < q.len() && q[k] == c;
                    if k < p.len() {
                        assert(p[k] == c);
                    }
                }
                if p.contains(c) {
                    let k = choose|k: int| 0 <= k < p.len() && p[k] == c;
                    assert(q[k] == c);
                }
                if c == last {
                    assert(q[q.len() - 1] == c);
                }
            }
            assert forall|i: int, j: int| 0 <= i < q.len() && 0 <= j < q.len() && i != j implies q[i]
                != q[j] by {
                if i == q.len() - 1 && j < p.len() {
                    assert(p[j] == q[j]);
                    assert(p.contains(q[j]));
                } else if j == q.len() - 1 && i < p.len() {
                    assert(p[i] == q[i]);
                    assert(p.contains(q[i]));
                } else if i < p.len() && j < p.len() {
                    assert(p[i] == q[i]);
                    assert(p[j] == q[j]);
                }
            }
        }
    }
}

/// Starting a run never starts a test that is already running, starts only
/// selected tests, and starts none of them twice; in sequential mode it
/// starts at most one.
pub proof fn law_start_never_double_starts(
    running: Seq<TestCategory>,
    tests: Seq<TestCategory>,
    mode: ExecutionMode,
)
    ensures
        start_plan(running, tests, mode).no_duplicates(),
        forall|c: TestCategory| #[trigger]
            start_plan(running, tests, mode).contains(c) ==> tests.contains(c) && !running.contains(c),
        mode == ExecutionMode::Sequential ==> start_plan(running, tests, mode).len() <= 1,
{
    lemma_fresh_tests(running, tests);
    if mode == ExecutionMode::Sequential && tests.len() > 0 && !running.contains(tests[0]) {
        let plan = start_plan(running, tests, mode);
        assert forall|c: TestCategory| #[trigger] plan.contains(c) implies tests.contains(c)
            && !running.contains(c) by {
            let k = choose|k: int| 0 <= k < plan.len() && plan[k] == c;
            assert(k == 0);
            assert(tests[0] == c);
        }
    }
}

/// In parallel mode every selected test that is not running yet is started;
/// in sequential mode the first selected test is, unless it is running.
pub proof fn law_start_starts_what_is_selected(running: Seq<TestCategory>, tests: Seq<TestCategory>)
    ensures
        forall|c: TestCategory|
            tests.contains(c) && !running.contains(c) ==> #[trigger] start_plan(
                running,
                tests,
                ExecutionMode::Parallel,
            ).contains(c),
        tests.len() > 0 && !running.contains(tests[0]) ==> start_plan(
            running,
            tests,
            ExecutionMode::Sequential,
        ) == seq![tests[0]],
{
    lemma_fresh_tests(running, tests);
}

/// The test that a poll in sequential mode asks to start next is never one
/// that is already running.
pub proof fn law_next_test_not_running(m: RunnerModel, failure: Option<Seq<char>>)
    ensures
        next_after(m, failure) matches Some(c) ==> !m.running.contains(c) && m.queue.contains(c),
{
    if let Some(c) = next_after(m, failure) {
        assert(m.queue[0] == c);
    }
}

/// A poll accounts for every running test: each either finished, and is
/// counted as completed, or stays running; finished tests leave the
/// sequential queue.
pub proof fn law_poll_accounts_for_every_test(m: RunnerModel, states: Seq<ProcessState>)
    requires
        model_wf(m),
        m.status is Running,
        states.len() == m.running.len(),
        m.completed + m.running.len() <= usize::MAX,
    ensures
        model_collect(m, states).completed == m.completed + finished(m.running, states).len(),
        finished(m.running, states).len() + model_collect(m, states).running.len() == m.running.len(),
        forall|c: TestCategory| #[trigger]
            m.running.contains(c) <==> (finished(m.running, states).contains(c) || model_collect(
                m,
                states,
            ).running.contains(c)),
        m.mode == ExecutionMode::Sequential ==> forall|c: TestCategory| #[trigger]
            finished(m.running, states).contains(c) ==> !model_collect(m, states).queue.contains(c),
        model_wf(model_collect(m, states)),
{
    lemma_split_no_duplicates(m.running, states);
    lemma_split_covers(m.running, states);
    let done = finished(m.running, states);
    if m.mode == ExecutionMode::Sequential {
        let q = m.queue.filter(|c: TestCategory| !done.contains(c));
        assert forall|c: TestCategory| #[trigger] done.contains(c) implies !q.contains(c) by {
            if q.contains(c) {
                let k = choose|k: int| 0 <= k < q.len() && q[k] == c;
                assert(!done.contains(q[k]));
            }
        }
    }
}

/// Every running test is among the finished or the unfinished ones, and the
/// two together are as many as the running tests.
proof fn lemma_split_covers(running: Seq<TestCategory>, states: Seq<ProcessState>)
    requires
        running.len() == states.len(),
    ensures
        finished(running, states).len() + unfinished(running, states).len() == running.len(),
        forall|c: TestCategory| #[trigger]
            running.contains(c) ==> finished(running, states).contains(c) || unfinished(
                running,
                states,
            ).contains(c),
    decreases running.len(),
{
    if running.len() > 0 {
        let r0 = running.drop_last();
        let s0 = states.drop_last();
        lemma_split_covers(r0, s0);
        let f = finished(running, states);
        let u = unfinished(running, states);
        let f0 = finished(r0, s0);
        let u0 = unfinished(r0, s0);
        assert forall|c: TestCategory| #[trigger] running.contains(c) implies f.contains(c)
            || u.contains(c) by {
            let k = choose|k: int| 0 <= k < running.len() && running[k] == c;
            if k < running.len() - 1 {
                assert(r0[k] == c);
                assert(r0.contains(c));
                if f0.contains(c) {
                    let j = choose|j: int| 0 <= j < f0.len() && f0[j] == c;
                    assert(f[j] == c);
                } else {
                    let j = choose|j: int| 0 <= j < u0.len() && u0[j] == c;
                    assert(u[j] == c);
                }
            } else if exited_ok(states.last()) {
                assert(f[f.len() - 1] == c);
            } else {
                assert(u[u.len() - 1] == c);
            }
        }
    }
}

/// A runner with no run in progress ignores polls and their outcome.
pub proof fn law_idle_runner_ignores_polls(
    m: RunnerModel,
    states: Seq<ProcessState>,
    failure: Option<Seq<char>>,
    now: u64,
)
    requires
        !(m.status is Running),
    ensures
        model_collect(m, states) == m,
        model_finish(m, failure, now) == m,
        next_after(m, failure) is None,
{
}

/// A failure found by a poll stops every test, empties the queue and is
/// what the status reports.
pub proof fn law_failure_stops_run(m: RunnerModel, error: Seq<char>, now: u64)
    requires
        m.status is Running,
    ensures
        model_finish(m, Some(error), now).status == (RunStatus::Failed { error }),
        model_finish(m, Some(error), now).running.len() == 0,
        model_finish(m, Some(error), now).queue.len() == 0,
{
}

/// Without a failure, a run completes exactly when the completed count has
/// reached the total, reporting the total and the time since the start;
/// until then it keeps running with the current counters.
pub proof fn law_run_completes_when_all_done(m: RunnerModel, now: u64)
    requires
        m.status is Running,
    ensures
        m.completed >= m.total ==> model_finish(m, None, now).status == (RunStatus::Completed {
            duration: elapsed(m.start_time, now),
            tests_run: m.total,
        }),
        m.completed < m.total ==> model_finish(m, None, now).status == running_status(m, now),
        model_finish(m, None, now).running == m.running,
{
}

/// Stopping leaves nothing running or queued; resetting leaves an idle
/// runner with no run recorded, and resetting twice is resetting once.
pub proof fn law_stop_and_reset(m: RunnerModel)
    ensures
        model_stopped(m).status == RunStatus::Stopped,
        model_stopped(m).running.len() == 0,
        model_stopped(m).queue.len() == 0,
        model_reset(m).status == RunStatus::Idle,
        model_reset(m).running.len() == 0,
        model_reset(m).total == 0 && model_reset(m).completed == 0,
        model_reset(m).start_time is None,
        model_reset(model_reset(m)) == model_reset(m),
        model_wf(model_reset(m)),
{
}

/// The state once the processes of `plan` have been started, in order.
pub open spec fn model_spawned_all(m: RunnerModel, plan: Seq<TestCategory>) -> RunnerModel
    decreases plan.len(),
{
    if plan.len() == 0 {
        m
    } else {
        model_spawned(model_spawned_all(m, plan.drop_last()), plan.last())
    }
}

/// A run accepted at `now` whose planned processes have all been started,
/// with the status brought up to date.
pub open spec fn model_started(m: RunnerModel, tests: Seq<TestCategory>, mode: ExecutionMode, now: u64) -> RunnerModel {
    model_running(
        model_spawned_all(model_accept(m, tests, mode, now), start_plan(m.running, tests, mode)),
        now,
    )
}

proof fn lemma_spawned_all(m: RunnerModel, plan: Seq<TestCategory>)
    requires
        plan.no_duplicates(),
        forall|c: TestCategory| #[trigger] plan.contains(c) ==> !m.running.contains(c),
    ensures
        model_spawned_all(m, plan) == (RunnerModel { running: m.running + plan, ..m }),
    decreases plan.len(),
{
    if plan.len() == 0 {
        assert(m.running + plan =~= m.running);
    } else {
        let init = plan.drop_last();
        let last = plan.last();
        assert forall|c: TestCategory| #[trigger] init.contains(c) implies !m.running.contains(c) by {
            let k = choose|k: int| 0 <= k < init.len() && init[k] == c;
            assert(plan[k] == c);
            assert(plan.contains(c));
        }
        lemma_spawned_all(m, init);
        assert(plan.contains(last)) by {
            assert(plan[plan.len() - 1] == last);
        }
        assert(!init.contains(last)) by {
            if init.contains(last) {
                let k = choose|k: int| 0 <= k < init.len() && init[k] == last;
                assert(plan[k] == plan[plan.len() - 1]);
            }
        }
        assert(!(m.running + init).contains(last)) by {
            if (m.running + init).contains(last) {
                let k = choose|k: int| 0 <= k < (m.running + init).len() && (m.running + init)[k] == last;
                if k < m.running.len() {
                    assert(m.running[k] == last);
                } else {
                    assert(init[k - m.running.len()] == last);
                }
            }
        }
        assert((m.running + init).push(last) =~= m.running + plan);
    }
}

/// A start that is accepted and whose planned processes have all been
/// started leaves the runner running: no test completed yet, the total being
/// the number of tests, the clock started at `now`; a sequential run has its
/// first test current and all its tests queued, a parallel run has no
/// current test and nothing queued; the running tests are those that ran
/// before, followed by the ones just started, each once.
pub proof fn law_started_run_is_running(
    m: RunnerModel,
    tests: Seq<TestCategory>,
    mode: ExecutionMode,
    now: u64,
)
    requires
        model_wf(m),
        tests.len() > 0,
        tests.len() <= usize::MAX,
    ensures
        model_started(m, tests, mode, now).status == (RunStatus::Running {
            current_test: if mode == ExecutionMode::Sequential {
                Some(tests[0])
            } else {
                None
            },
            tests_completed: 0,
            tests_total: tests.len() as usize,
            start_time: now,
            mode,
        }),
        model_started(m, tests, mode, now).total == tests.len(),
        model_started(m, tests, mode, now).completed == 0,
        model_started(m, tests, mode, now).start_time == Some(now),
        model_started(m, tests, mode, now).queue == (if mode == ExecutionMode::Sequential {
            tests
        } else {
            Seq::<TestCategory>::empty()
        }),
        model_started(m, tests, mode, now).running == m.running + start_plan(m.running, tests, mode),
        model_wf(model_started(m, tests, mode, now)),
{
    let plan = start_plan(m.running, tests, mode);
    law_start_never_double_starts(m.running, tests, mode);
    let a = model_accept(m, tests, mode, now);
    lemma_spawned_all(a, plan);
    let r = m.running + plan;
    assert(r.no_duplicates()) by {
        assert forall|i: int, j: int| 0 <= i < r.len() && 0 <= j < r.len() && i != j implies r[i]
            != r[j] by {
            if i < m.running.len() && j >= m.running.len() {
                assert(plan.contains(plan[j - m.running.len()]));
                assert(m.running.contains(r[i]));
            } else if j < m.running.len() && i >= m.running.len() {
                assert(plan.contains(plan[i - m.running.len()]));
                assert(m.running.contains(r[j]));
            } else if i >= m.running.len() && j >= m.running.len() {
                assert(r[i] == plan[i - m.running.len()] && r[j] == plan[j - m.running.len()]);
            }
        }
    }
}

/// gpu_burn is asked for doubles (`-d`) exactly when the configuration
/// says so, and for tensor cores (`-tc`) likewise; it gets `-m` followed by
/// the memory share in percent, and last the duration in seconds.
pub proof fn law_gpu_burn_arguments(c: GpuBurnConfig)
    ensures
        gpu_burn_args(c).contains("-d"@) <==> c.use_doubles,
        gpu_burn_args(c).contains("-tc"@) <==> c.use_tensor_cores,
        gpu_burn_args(c)[0] == "-m"@,
        gpu_burn_args(c)[1].last() == '%',
        digits_value(gpu_burn_args(c)[1].drop_last()) == c.memory_percent,
        digits_value(gpu_burn_args(c).last()) == c.duration_hours * 3600,
{
    reveal_strlit("-d");
    reveal_strlit("-tc");
    reveal_strlit("-m");
    let a = gpu_burn_args(c);
    let pct = decimal(c.memory_percent as nat) + seq!['%'];
    let secs = decimal(c.duration_hours as nat * 3600);
    lemma_decimal_reads_back(c.memory_percent as nat);
    lemma_decimal_reads_back(c.duration_hours as nat * 3600);
    assert(pct.drop_last() =~= decimal(c.memory_percent as nat));
    assert(is_digit(pct[0]) && is_digit(secs[0]));
    let d = "-d"@;
    let tc = "-tc"@;
    let dflag: Seq<Seq<char>> = if c.use_doubles { seq![d] } else { seq![] };
    let tflag: Seq<Seq<char>> = if c.use_tensor_cores { seq![tc] } else { seq![] };
    assert(a == seq!["-m"@, pct] + dflag + tflag + seq![secs]);
    assert(a.last() == secs);
    // Every argument other than the flags starts with a digit or is "-m".
    assert forall|k: int| 0 <= k < a.len() && a[k] == d implies c.use_doubles by {
        if k == 0 {
            assert(a[0][1] != d[1]);
        } else if k == 1 {
            assert(a[1][0] == pct[0]);
        } else if k == a.len() - 1 {
            assert(a[k][0] == secs[0]);
        } else if !c.use_doubles {
            assert(a[k] == tc);
            assert(tc.len() != d.len());
        }
    }
    assert forall|k: int| 0 <= k < a.len() && a[k] == tc implies c.use_tensor_cores by {
        if k == 0 {
            assert(a[0].len() != tc.len());
        } else if k == 1 {
            assert(a[1][0] == pct[0]);
        } else if k == a.len() - 1 {
            assert(a[k][0] == secs[0]);
        } else if !c.use_tensor_cores {
            assert(a[k] == d);
            assert(tc.len() != d.len());
        }
    }
    if c.use_doubles {
        assert(a[2] == d);
    }
    if c.use_tensor_cores {
        if c.use_doubles {
            assert(a[3] == tc);
        } else {
            assert(a[2] == tc);
        }
    }
}

/// The running status carries the time the run started, not the time it is
/// brought up to date, so the elapsed time shown does not restart: a poll
/// that finds no failure and leaves the run unfinished keeps the recorded
/// start time in the status, with the counters as they then are.
pub proof fn law_status_keeps_start_time(
    m: RunnerModel,
    states: Seq<ProcessState>,
    now: u64,
    t: u64,
)
    requires
        m.start_time == Some(t),
    ensures
        (model_running(m, now).status matches RunStatus::Running { start_time, .. } && start_time
            == t),
        m.status is Running && model_collect(m, states).completed < m.total ==> (model_finish(
            model_collect(m, states),
            None,
            now,
        ).status matches RunStatus::Running { start_time, tests_completed, tests_total, .. }
            && start_time == t && tests_completed == model_collect(m, states).completed
            && tests_total == m.total),
        m.status is Running && model_collect(m, states).completed >= m.total ==> (model_finish(
            model_collect(m, states),
            None,
            now,
        ).status matches RunStatus::Completed { duration, tests_run } && (now >= t ==> duration
            == now - t) && tests_run == m.total),
{
}

} // verus!
