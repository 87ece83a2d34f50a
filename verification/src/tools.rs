//! The server's tools: those that run the `rapina` command line tool, and the
//! one that introspects a project.
pub mod cli;
pub mod explain;
