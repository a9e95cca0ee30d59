//! Verified core of `chaff`, a safe reclaimer of regenerable developer
//! artifacts (build output, dependency folders and tool caches).

pub mod text;
pub mod rules;
pub mod util;
pub mod order;
pub mod model;
pub mod cli;
pub mod clean;
pub mod config;
pub mod report;
pub mod tui;
pub mod scan;
pub mod caches;
