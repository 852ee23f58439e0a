//! Git worktrees with a ready local environment: the decisions behind `git wt`.

pub mod clone;
pub mod commands;
pub mod construct;
pub mod create;
pub mod encoding;
pub mod errors;
pub mod git;
pub mod json;
pub mod laws;
pub mod listing;
pub mod naming;
pub mod native;
pub mod order;
pub mod paths;
pub mod pathset;
pub mod planner;
pub mod populator;
pub mod runner;
pub mod sequences;
pub mod session;
pub mod text;
pub mod worktrees;

pub use crate::commands::{execute, Cli, Commands};
pub use crate::create::NewOptions;
pub use crate::errors::UsageError;
