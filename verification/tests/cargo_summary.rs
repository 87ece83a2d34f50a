use rapina_mcp::cargo::{cargo_summary, extract_cargo_summary, TomlDocument, TomlEntry, TomlSection};

#[test]
fn summary_of_a_rapina_manifest() {
    let toml = r#"
[package]
name = "demo"
version = "0.1.0"
edition = "2021"

[dependencies]
serde = "1"
rapina = "0.5"
rapina-macros = { version = "0.5" }
"#;
    assert_eq!(
        extract_cargo_summary(toml),
        "- **name:** demo\n- **version:** 0.1.0\n- **edition:** 2021\n- **rapina deps:** rapina, rapina-macros\n- **total dependencies:** 3\n"
    );
}

#[test]
fn non_string_fields_are_left_out() {
    let toml = "[package]\nname = \"w\"\nversion.workspace = true\n";
    assert_eq!(extract_cargo_summary(toml), "- **name:** w\n");
}

#[test]
fn dependencies_without_rapina_only_count() {
    let toml = "[dependencies]\ntokio = \"1\"\n";
    assert_eq!(extract_cargo_summary(toml), "- **total dependencies:** 1\n");
    let toml = "[dependencies]\n";
    assert_eq!(extract_cargo_summary(toml), "- **total dependencies:** 0\n");
}

#[test]
fn text_that_is_not_toml_gives_an_empty_summary() {
    assert_eq!(extract_cargo_summary("[package\nname ="), "");
    assert_eq!(extract_cargo_summary(""), "");
}

#[test]
fn package_that_is_not_a_table_is_ignored() {
    assert_eq!(extract_cargo_summary("package = \"x\"\n"), "");
}

fn entry(key: &str, text: Option<&str>) -> TomlEntry {
    TomlEntry { key: key.to_string(), text: text.map(|t| t.to_string()) }
}

#[test]
fn summary_of_a_document_value() {
    let doc = TomlDocument {
        sections: vec![
            TomlSection {
                key: "dependencies".to_string(),
                table: Some((0..12).map(|i| entry(&format!("dep{}", i), Some("1"))).chain(std::iter::once(entry("rapina-cli", None))).collect()),
            },
            TomlSection {
                key: "package".to_string(),
                table: Some(vec![entry("edition", Some("2024")), entry("version", None), entry("name", Some("x"))]),
            },
        ],
    };
    assert_eq!(
        cargo_summary(&doc),
        "- **name:** x\n- **edition:** 2024\n- **rapina deps:** rapina-cli\n- **total dependencies:** 13\n"
    );
}

#[test]
fn extra_non_rapina_dependency_only_raises_the_count() {
    let base = "[package]\nname = \"d\"\n[dependencies]\nrapina = \"1\"\nserde = \"1\"\n";
    let more = "[package]\nname = \"d\"\n[dependencies]\nrapina = \"1\"\nanyhow = \"1\"\nserde = \"1\"\n";
    let a = extract_cargo_summary(base);
    let b = extract_cargo_summary(more);
    assert_eq!(b, a.replace("- **total dependencies:** 2\n", "- **total dependencies:** 3\n"));
}
