//! PIM (processing-in-memory) simulation: hardware config, static
//! calibration-based bank mapping, per-record timing simulation, cycle
//! conversion, the naive-vs-remap-vs-ideal balance report, and the physical
//! layout comparison.
pub mod config;
pub mod layout;
pub mod mapping;
pub mod simulate;
pub mod sweep;
pub mod cycle;
pub mod report;
