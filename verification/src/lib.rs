//! A verified core for an MCP server that drives the Rapina command line tool
//! and introspects Rapina projects.
//!
//! The library decides what is run and what is reported; reading the file
//! system, spawning processes and speaking the protocol is left to its caller.
pub mod cargo;
pub mod order;
pub mod outcome;
pub mod params;
pub mod sources;
pub mod text;
pub mod tools;
pub mod tree;

use vstd::prelude::*;

verus! {

/// The MCP server for the Rapina web framework.
#[derive(Debug, Clone, Copy)]
pub struct RapinaMcp {}

impl RapinaMcp {
    /// Creates the server.
    pub fn new() -> RapinaMcp {
        RapinaMcp {}
    }

    /// The instructions the server announces to its clients.
    pub fn server_instructions(&self) -> (r: String)
        ensures
            r@ == "MCP server for the Rapina web framework. Provides tools to scaffold projects, inspect routes, run diagnostics, generate code, and introspect Rapina applications."@,
    {
        String::from_str(
            "MCP server for the Rapina web framework. Provides tools to scaffold projects, inspect routes, run diagnostics, generate code, and introspect Rapina applications.",
        )
    }
}

} // verus!
