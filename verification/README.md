# shakedown

A Linux hardware stress-testing tool: a GUI that selects stress-ng jobs (CPU,
memory, disk, I/O, a 24-hour run) and a GPU burn, runs them one after another
or all at once, and watches fan readings while they run.

The decisions are in a library verified with Verus (`src/`); the program
around it (`app/`) does the I/O: the egui interface, starting and killing
processes, reading `/sys` and running `sensors -j`.

- `src/app.rs` – test categories, execution modes, the test configuration and
  the tricorder locations.
- `src/stress/jobfiles.rs` – jobfile paths, setting the `run` directive,
  counting stressors.
- `src/stress/runner.rs` – the runner's state machine: what a start launches,
  how a poll of the processes is taken in, when a run completes or fails; and
  its laws.
- `src/monitor/iofan.rs` – reading the `sensors -j` JSON and interpreting its
  tree into fans (merging, PWM folding, ordering), and the hwmon file-name
  rules.
- `src/ui/` – the texts and enabling rules of the interface.
- `src/text.rs` – character-level text functions with their specifications.
