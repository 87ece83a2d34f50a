//! The parameters of the server's tools, as plain values.
use vstd::prelude::*;

verus! {

/// Parameters of the `rapina_new` tool.
#[derive(Debug)]
pub struct NewProjectParams {
    /// Name of the new Rapina project.
    pub name: String,
    /// Directory where the project will be created (defaults to the current directory).
    pub path: Option<String>,
}

/// Parameters of the `rapina_add` tool.
#[derive(Debug)]
pub struct AddResourceParams {
    /// Type of resource to add (e.g. handler, model, migration).
    pub resource_type: String,
    /// Name of the resource.
    pub name: String,
    /// Path to the Rapina project root.
    pub project_path: Option<String>,
}

/// Parameters of the tools that act on a project and take nothing else.
#[derive(Debug)]
pub struct ProjectPathParams {
    /// Path to the Rapina project root.
    pub project_path: Option<String>,
}

/// Parameters of the `rapina_migrate` tool.
#[derive(Debug)]
pub struct MigrateParams {
    /// Migration subcommand (e.g. run, rollback, status).
    pub action: String,
    /// Path to the Rapina project root.
    pub project_path: Option<String>,
}

/// Parameters of the `rapina_explain` tool.
#[derive(Debug)]
pub struct ExplainParams {
    /// Path to the Rapina project root.
    pub project_path: String,
}

} // verus!
