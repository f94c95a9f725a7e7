//! Condenses log output: repeated lines are clustered and shown once, with a count.

pub mod cluster;
pub mod collect;
pub mod laws;
pub mod log_cmd;
pub mod normalize;
pub mod rank;
pub mod report;
pub mod sketch;
pub mod text;

