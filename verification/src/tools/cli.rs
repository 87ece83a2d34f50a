//! The tools that run the `rapina` command line tool: which command each one
//! runs, and in which directory.
use crate::order::string_views;
use crate::params::{AddResourceParams, MigrateParams, NewProjectParams, ProjectPathParams};
use crate::RapinaMcp;
use vstd::prelude::*;

verus! {

/// A run of the `rapina` command line tool: its arguments, and the working
/// directory to start it in (the server's own when there is none).
#[derive(Debug)]
pub struct CliInvocation {
    pub program: String,
    pub args: Vec<String>,
    pub current_dir: Option<String>,
}

/// `inv` runs `rapina` with `args` in `dir`.
pub open spec fn runs_rapina(inv: CliInvocation, args: Seq<Seq<char>>, dir: Option<String>) -> bool {
    &&& inv.program@ == "rapina"@
    &&& string_views(inv.args@) == args
    &&& inv.current_dir == dir
}

/// A run of `rapina` with `args` in `dir`.
fn rapina_invocation(args: Vec<String>, dir: Option<String>) -> (r: CliInvocation)
    ensures
        runs_rapina(r, string_views(args@), dir),
{
    CliInvocation { program: String::from_str("rapina"), args, current_dir: dir }
}

/// `rapina <subcommand>` in `dir`.
fn subcommand(word: &str, dir: Option<String>) -> (r: CliInvocation)
    ensures
        runs_rapina(r, seq![word@], dir),
{
    let args = vec![String::from_str(word)];
    assert(string_views(args@) =~= seq![word@]);
    rapina_invocation(args, dir)
}

impl RapinaMcp {
    /// Creates a new Rapina project: `rapina new <name>`, in `path` when given.
    pub fn rapina_new(&self, params: NewProjectParams) -> (r: CliInvocation)
        ensures
            runs_rapina(r, seq!["new"@, params.name@], params.path),
    {
        let ghost name = params.name;
        let args = vec![String::from_str("new"), params.name];
        assert(string_views(args@) =~= seq!["new"@, name@]);
        rapina_invocation(args, params.path)
    }

    /// Adds a resource to a project: `rapina add <resource_type> <name>`.
    pub fn rapina_add(&self, params: AddResourceParams) -> (r: CliInvocation)
        ensures
            runs_rapina(
                r,
                seq!["add"@, params.resource_type@, params.name@],
                params.project_path,
            ),
    {
        let ghost kind = params.resource_type;
        let ghost name = params.name;
        let args = vec![String::from_str("add"), params.resource_type, params.name];
        assert(string_views(args@) =~= seq!["add"@, kind@, name@]);
        rapina_invocation(args, params.project_path)
    }

    /// Lists a project's routes: `rapina routes`.
    pub fn rapina_routes(&self, params: ProjectPathParams) -> (r: CliInvocation)
        ensures
            runs_rapina(r, seq!["routes"@], params.project_path),
    {
        subcommand("routes", params.project_path)
    }

    /// Diagnoses a project: `rapina doctor`.
    pub fn rapina_doctor(&self, params: ProjectPathParams) -> (r: CliInvocation)
        ensures
            runs_rapina(r, seq!["doctor"@], params.project_path),
    {
        subcommand("doctor", params.project_path)
    }

    /// Generates a project's OpenAPI specification: `rapina openapi`.
    pub fn rapina_openapi(&self, params: ProjectPathParams) -> (r: CliInvocation)
        ensures
            runs_rapina(r, seq!["openapi"@], params.project_path),
    {
        subcommand("openapi", params.project_path)
    }

    /// Runs a project's code generation: `rapina codegen`.
    pub fn rapina_codegen(&self, params: ProjectPathParams) -> (r: CliInvocation)
        ensures
            runs_rapina(r, seq!["codegen"@], params.project_path),
    {
        subcommand("codegen", params.project_path)
    }

    /// Runs a project's database migrations: `rapina migrate <action>`.
    pub fn rapina_migrate(&self, params: MigrateParams) -> (r: CliInvocation)
        ensures
            runs_rapina(r, seq!["migrate"@, params.action@], params.project_path),
    {
        let ghost action = params.action;
        let args = vec![String::from_str("migrate"), params.action];
        assert(string_views(args@) =~= seq!["migrate"@, action@]);
        rapina_invocation(args, params.project_path)
    }

    /// Runs a project's tests: `rapina test`.
    pub fn rapina_test(&self, params: ProjectPathParams) -> (r: CliInvocation)
        ensures
            runs_rapina(r, seq!["test"@], params.project_path),
    {
        subcommand("test", params.project_path)
    }
}

} // verus!
