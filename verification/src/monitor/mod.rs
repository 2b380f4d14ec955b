//! Fan and sensor readings.
pub mod iofan;
