//! Thinning of dated backups under a tiered retention policy: each tier keeps
//! one backup per chunk of time, walking backwards from the moment of the run.

pub mod chunk;
pub mod config;
pub mod retention;
pub mod scan;
