//! A library for one day's plan: a date, categorized tasks, and a
//! planned/actual schedule, parsed from a constrained markdown dialect
//! and serialized back to the same dialect.

pub mod blocks;
pub mod cli;
pub mod date;
pub mod error;
pub mod files;
pub mod node;
pub mod plan;
pub mod schedule;
pub mod sections;
pub mod tasks;
pub mod text;
pub mod time;
