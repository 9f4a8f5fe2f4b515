//! Small utilities: a resumable cursor over line-delimited JSON files,
//! naming for atomically replaced state files, and shell-safe text helpers.
pub mod ipc;
pub mod shell;
pub mod state;
