//! Verified core of `runsteps`, a config-driven task runner: configuration
//! validation, placeholder resolution, dependency handling, graph rendering,
//! history bookkeeping and run planning.

pub mod text;
pub mod strmap;
pub mod resolver;
pub mod config;
pub mod picker;
pub mod graph;
pub mod history;
pub mod runner;
pub mod executor;
pub mod display;
pub mod schema;
