//! Compares the arrival times of transactions reported by two sources.

pub mod clock;
pub mod collect;
pub mod config;
pub mod entries;
pub mod event;
pub mod names;
pub mod numeral;
pub mod observations;
pub mod progress;
pub mod receive;
pub mod report;
pub mod sort;
pub mod stats;
pub mod table;
pub mod text;
