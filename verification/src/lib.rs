//! conflux: the logic of a file-sync daemon.

pub mod backend;
pub mod bytesize;
pub mod config;
pub mod conflict;
pub mod control;
pub mod daemon;
pub mod decide;
pub mod dirs;
pub mod engine;
pub mod error;
pub mod git;
pub mod group;
pub mod hash;
pub mod index;
pub mod ipc;
pub mod matcher;
pub mod model;
pub mod paths;
pub mod plan;
pub mod relpath;
pub mod report;
pub mod run;
pub mod session;
pub mod settle;
pub mod span;
pub mod ssh;
pub mod table;
pub mod text;
pub mod timefmt;
pub mod webdav;

pub use relpath::RelPath;
pub use config::Config;
pub use error::Error;
pub use paths::{Paths, RunMode};
