pub mod outcome;
pub mod stats;
pub mod plan;
pub mod schedule;
