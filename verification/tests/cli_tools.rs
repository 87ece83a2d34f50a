use rapina_mcp::outcome::{command_report, command_result, CommandOutcome, ToolErrorKind};
use rapina_mcp::params::{AddResourceParams, MigrateParams, NewProjectParams, ProjectPathParams};
use rapina_mcp::tools::cli::CliInvocation;
use rapina_mcp::RapinaMcp;

fn words(inv: &CliInvocation) -> Vec<&str> {
    inv.args.iter().map(|s| s.as_str()).collect()
}

#[test]
fn new_project_runs_rapina_new_in_given_directory() {
    let server = RapinaMcp::new();
    let inv = server.rapina_new(NewProjectParams { name: "blog".to_string(), path: Some("/work".to_string()) });
    assert_eq!(inv.program, "rapina");
    assert_eq!(words(&inv), vec!["new", "blog"]);
    assert_eq!(inv.current_dir.as_deref(), Some("/work"));
}

#[test]
fn new_project_without_path_runs_in_current_directory() {
    let inv = RapinaMcp::new().rapina_new(NewProjectParams { name: "shop".to_string(), path: None });
    assert_eq!(words(&inv), vec!["new", "shop"]);
    assert!(inv.current_dir.is_none());
}

#[test]
fn add_resource_passes_type_then_name() {
    let inv = RapinaMcp::new().rapina_add(AddResourceParams {
        resource_type: "handler".to_string(),
        name: "users".to_string(),
        project_path: Some("/p".to_string()),
    });
    assert_eq!(inv.program, "rapina");
    assert_eq!(words(&inv), vec!["add", "handler", "users"]);
    assert_eq!(inv.current_dir.as_deref(), Some("/p"));
}

#[test]
fn project_tools_run_their_subcommand() {
    let s = RapinaMcp::new();
    let dir = || ProjectPathParams { project_path: Some("/proj".to_string()) };
    let cases = vec![
        (s.rapina_routes(dir()), "routes"),
        (s.rapina_doctor(dir()), "doctor"),
        (s.rapina_openapi(dir()), "openapi"),
        (s.rapina_codegen(dir()), "codegen"),
        (s.rapina_test(dir()), "test"),
    ];
    for (inv, word) in cases {
        assert_eq!(inv.program, "rapina");
        assert_eq!(words(&inv), vec![word]);
        assert_eq!(inv.current_dir.as_deref(), Some("/proj"));
    }
    let inv = s.rapina_routes(ProjectPathParams { project_path: None });
    assert!(inv.current_dir.is_none());
}

#[test]
fn migrate_passes_action() {
    let inv = RapinaMcp::new().rapina_migrate(MigrateParams { action: "rollback".to_string(), project_path: None });
    assert_eq!(words(&inv), vec!["migrate", "rollback"]);
    assert!(inv.current_dir.is_none());
}

#[test]
fn successful_run_reports_stdout_only_when_stderr_is_empty() {
    let r = command_report(true, "routes listed\n", "");
    assert_eq!(r.text, "routes listed\n");
    assert!(!r.is_error);
}

#[test]
fn successful_run_appends_stderr_after_separator() {
    let r = command_report(true, "ok\n", "warning: slow");
    assert_eq!(r.text, "ok\n\n--- stderr ---\nwarning: slow");
    assert!(!r.is_error);
}

#[test]
fn failed_run_reports_stdout_then_stderr() {
    let r = command_report(false, "partial", "boom");
    assert_eq!(r.text, "partial\nboom");
    assert!(r.is_error);
    let r = command_report(false, "", "boom");
    assert_eq!(r.text, "boom");
    assert!(r.is_error);
}

#[test]
fn finished_process_output_is_decoded() {
    let r = command_result(CommandOutcome::Exited {
        success: true,
        stdout: b"done".to_vec(),
        stderr: b"note".to_vec(),
    })
    .unwrap();
    assert_eq!(r.text, "done\n--- stderr ---\nnote");
    assert!(!r.is_error);
}

#[test]
fn invalid_utf8_output_is_replaced() {
    let r = command_result(CommandOutcome::Exited { success: false, stdout: vec![0x66, 0xff], stderr: vec![] }).unwrap();
    assert_eq!(r.text, "f\u{FFFD}\n");
    assert!(r.is_error);
}

#[test]
fn process_that_cannot_start_is_an_internal_error() {
    let e = command_result(CommandOutcome::SpawnFailed { reason: "No such file or directory (os error 2)".to_string() })
        .unwrap_err();
    assert_eq!(e.kind, ToolErrorKind::InternalError);
    assert_eq!(e.message, "Failed to execute rapina CLI: No such file or directory (os error 2)");
}

#[test]
fn server_announces_its_instructions() {
    assert_eq!(
        RapinaMcp::new().server_instructions(),
        "MCP server for the Rapina web framework. Provides tools to scaffold projects, inspect routes, run diagnostics, generate code, and introspect Rapina applications."
    );
}
