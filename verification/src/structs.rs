//! The records that the stages hand to each other, and the run's constants.

pub mod ordering;
pub mod run_config;
pub mod solutions;
