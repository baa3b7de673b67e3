//! The decisions of a daemonless cgroup v2 runner.

pub mod cgroup;
pub mod command;
pub mod control;
pub mod create;
pub mod dmem;
pub mod ensure;
pub mod fault;
pub mod kill;
pub mod limits;
pub mod list;
pub mod message;
pub mod nest;
pub mod number;
pub mod order;
pub mod path;
pub mod place;
pub mod privilege;
pub mod remove;
pub mod run;
pub mod search;
pub mod signal;
pub mod size;
pub mod sort;
pub mod spawn;
pub mod subtree;
pub mod text;
pub mod tree;
pub mod walk;
