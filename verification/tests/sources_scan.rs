use rapina_mcp::sources::{is_source_file, scan_sources, scan_text, SourceFile};

#[test]
fn route_attributes_are_listed_with_their_file() {
    let text = "use rapina::prelude::*;\n\n#[get(\"/\")]\nasync fn index() {}\n\t#[delete(\"/items/:id\")]\n#[put(\"/a\")]#[patch(\"/b\")]\n";
    let scan = scan_text(text, "src/main.rs");
    assert_eq!(scan.routes, "- GET / (src/main.rs)\n- DELETE /items/:id (src/main.rs)\n- PUT /a (src/main.rs)\n");
    assert_eq!(scan.public, 0);
    assert!(!scan.auth);
}

#[test]
fn unterminated_or_commented_attributes_are_not_routes() {
    let scan = scan_text("#[get(\"/open\n// #[get(\"/x\")]\nlet s = \"#[post(\\\"/y\\\")]\";\n#[getter(\"/z\")]", "f.rs");
    assert_eq!(scan.routes, "");
}

#[test]
fn public_markers_and_auth_calls_are_counted() {
    let scan = scan_text("#[public]\n#[get(\"/health\")]\n  #[public]\n#[post(\"/login\")]\nlet app = app.with_auth(cfg);", "src/a.rs");
    assert_eq!(scan.public, 2);
    assert!(scan.auth);
    assert_eq!(scan.routes, "- GET /health (src/a.rs)\n- POST /login (src/a.rs)\n");
}

#[test]
fn jwt_secret_lines() {
    assert!(scan_text("A=1\n  JWT_SECRET=s3cret\n", "").jwt);
    assert!(!scan_text("# JWT_SECRET=x\nJWT_SECRETS=y", "").jwt);
    assert!(scan_text("JWT_SECRET=", "").jwt);
}

#[test]
fn sources_are_scanned_in_path_order() {
    let files = vec![
        SourceFile { path: "src/z.rs".to_string(), text: "#[get(\"/z\")]\n#[public]".to_string() },
        SourceFile { path: "src/a.rs".to_string(), text: "#[post(\"/a\")]\n".to_string() },
    ];
    let scan = scan_sources(&files);
    assert_eq!(scan.routes, "- POST /a (src/a.rs)\n- GET /z (src/z.rs)\n");
    assert_eq!(scan.public, 1);
    assert!(!scan.auth);
}

#[test]
fn only_rust_files_are_sources() {
    assert!(is_source_file("handlers.rs"));
    assert!(!is_source_file("notes.md"));
}
