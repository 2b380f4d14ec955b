//! Configuration, jobfile handling, run bookkeeping and sensor interpretation
//! for a hardware stress-testing tool.
pub mod app;
pub mod monitor;
pub mod stress;
pub mod text;
pub mod ui;
