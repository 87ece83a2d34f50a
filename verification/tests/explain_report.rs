use rapina_mcp::outcome::ToolErrorKind;
use rapina_mcp::params::ExplainParams;
use rapina_mcp::sources::SourceFile;
use rapina_mcp::tools::explain::{config_file_candidates, CargoManifest, ProjectListing};
use rapina_mcp::tree::FsEntry;
use rapina_mcp::RapinaMcp;

fn file(name: &str) -> FsEntry {
    FsEntry { name: name.to_string(), key: name.as_bytes().to_vec(), is_dir: false, children: vec![] }
}

fn dir(name: &str, children: Vec<FsEntry>) -> FsEntry {
    FsEntry { name: name.to_string(), key: name.as_bytes().to_vec(), is_dir: true, children }
}

fn strings(v: &[&str]) -> Vec<String> {
    v.iter().map(|s| s.to_string()).collect()
}

fn empty_listing() -> ProjectListing {
    ProjectListing {
        root_exists: true,
        cargo_toml: CargoManifest::Missing,
        src: None,
        middleware: None,
        migrations: None,
        config_files: vec![],
        sources: vec![],
        env_file: None,
    }
}

const NO_ROUTES: &str = "## Routes\n\nNo routes detected.\n\n";
const NO_AUTH: &str = "## Auth Configuration\n\n- **auth middleware:** not found\n- **public routes:** 0\n- **JWT_SECRET:** not set in .env\n\n";

#[test]
fn missing_root_is_invalid_params() {
    let mut listing = empty_listing();
    listing.root_exists = false;
    let e = RapinaMcp::new()
        .rapina_explain(&ExplainParams { project_path: "/nowhere".to_string() }, &listing)
        .unwrap_err();
    assert_eq!(e.kind, ToolErrorKind::InvalidParams);
    assert_eq!(e.message, "Project path does not exist: /nowhere");
}

#[test]
fn bare_root_report() {
    let r = RapinaMcp::new()
        .rapina_explain(&ExplainParams { project_path: "/p".to_string() }, &empty_listing())
        .unwrap();
    assert!(!r.is_error);
    assert_eq!(
        r.text,
        [
            "# Rapina Project: /p\n\n**Warning:** No Cargo.toml found. Is this a Rapina project?\n\n## Modules Detected\n\nNo feature modules detected.\n\n",
            NO_ROUTES,
            NO_AUTH,
            "## Configuration Files\n\n\n",
        ]
        .concat()
    );
}

#[test]
fn full_report() {
    let listing = ProjectListing {
        root_exists: true,
        cargo_toml: CargoManifest::Text("[package]\nname = \"demo\"\n[dependencies]\nrapina = \"0.5\"\n".to_string()),
        src: Some(vec![
            file("main.rs"),
            dir("middleware", vec![file("auth.rs")]),
            dir("users", vec![file("handlers.rs")]),
        ]),
        middleware: Some(strings(&["auth.rs", "mod.rs", "cors.rs.rs", "README"])),
        migrations: Some(strings(&["002_b.sql", "001_a.sql"])),
        config_files: strings(&[".env", "Rapina.toml"]),
        sources: vec![
            SourceFile {
                path: "src/users/handlers.rs".to_string(),
                text: "#[get(\"/users\")]\nasync fn list() {}\n\n  #[public]\n  #[post(\"/users\")]\nasync fn create() {}\n".to_string(),
            },
            SourceFile {
                path: "src/main.rs".to_string(),
                text: "fn main() {\n    Rapina::new().with_auth(AuthConfig::from_env()).listen();\n}\n".to_string(),
            },
        ],
        env_file: Some("PORT=3000\nJWT_SECRET=abc\n".to_string()),
    };
    let r = RapinaMcp::new().rapina_explain(&ExplainParams { project_path: "/p".to_string() }, &listing).unwrap();
    assert!(!r.is_error);
    assert_eq!(
        r.text,
        [
            "# Rapina Project: /p\n\n",
            "## Cargo.toml\n\n- **name:** demo\n- **rapina deps:** rapina\n- **total dependencies:** 1\n\n",
            "## Project Structure\n\n- main.rs\n- **middleware/**\n  - auth.rs\n- **users/**\n  - handlers.rs\n\n",
            "## Modules Detected\n\n- **users**\n\n",
            "## Routes\n\n- GET /users (src/users/handlers.rs)\n- POST /users (src/users/handlers.rs)\n\n",
            "## Middleware\n\n- auth\n- cors\n\n",
            "## Auth Configuration\n\n- **auth middleware:** enabled\n- **public routes:** 1\n- **JWT_SECRET:** set in .env\n\n",
            "## Migrations\n\n- 001_a.sql\n- 002_b.sql\n\n",
            "## Configuration Files\n\n- Rapina.toml\n- .env\n\n",
        ]
        .concat()
    );
}

#[test]
fn unreadable_manifest_and_empty_directories() {
    let listing = ProjectListing {
        root_exists: true,
        cargo_toml: CargoManifest::Unreadable,
        src: Some(vec![]),
        middleware: Some(vec![]),
        migrations: Some(vec![]),
        config_files: vec![],
        sources: vec![],
        env_file: Some("JWT_SECRET_FILE=x\n".to_string()),
    };
    let r = RapinaMcp::new().rapina_explain(&ExplainParams { project_path: "x".to_string() }, &listing).unwrap();
    assert_eq!(
        r.text,
        [
            "# Rapina Project: x\n\n## Project Structure\n\n\n## Modules Detected\n\nNo feature modules detected.\n\n",
            NO_ROUTES,
            "## Middleware\n\n\n",
            NO_AUTH,
            "## Migrations\n\n\n## Configuration Files\n\n\n",
        ]
        .concat()
    );
}

#[test]
fn unparsable_manifest_gives_empty_summary() {
    let mut listing = empty_listing();
    listing.cargo_toml = CargoManifest::Text("not = = toml".to_string());
    let r = RapinaMcp::new().rapina_explain(&ExplainParams { project_path: "q".to_string() }, &listing).unwrap();
    assert!(r.text.starts_with("# Rapina Project: q\n\n## Cargo.toml\n\n\n## Modules Detected"));
}

#[test]
fn config_candidates_in_report_order() {
    assert_eq!(config_file_candidates(), vec!["rapina.toml", "Rapina.toml", ".env", ".env.example", "config.toml"]);
}
