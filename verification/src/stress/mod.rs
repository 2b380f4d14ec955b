//! Jobfile handling and stress-test run bookkeeping.
pub mod jobfiles;
pub mod runner;

pub use jobfiles::{JobfileInfo, JobfileManager};
pub use runner::{StressRunner, TestStatus};
