//! benchdiff: statistical benchmark regression detection, verified core.
pub mod baseline;
pub mod cli;
pub mod compare;
pub mod config;
pub mod error;
pub mod ieee;
pub mod parsers;
pub mod report;
pub mod sample;
pub mod stats;
pub mod text;
