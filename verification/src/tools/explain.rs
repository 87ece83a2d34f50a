//! The `rapina_explain` tool: a Markdown summary of a project's layout,
//! built from what was found on disk.
use crate::cargo::{
    cargo_summary_of, cargo_summary_text, dependencies_at, extract_cargo_summary,
    lemma_summary_shows_dependencies, lemma_summary_shows_package_fields, package_field_is,
    parsed_toml,
};
use crate::order::string_views;
use crate::outcome::{ToolError, ToolErrorKind, ToolOutput};
use crate::params::ExplainParams;
use crate::text::{
    contains_seq, decimal, ends_with, has_suffix, items, starts_with, lemma_contains_extend, lemma_contains_self,
    lemma_items_hold, str_eq,
    trim_end_matches, trim_suffix_all,
};
use crate::tree::{
    lemma_sorted_names,
    detect_modules, lemma_listing_shows_entries, lemma_modules_are_feature_dirs, module_names, sorted_names, sorted_strings, tree_listing, walk_source_tree,
    indentation, FsEntry,
};
use crate::sources::{
    auth_section, lemma_auth_section_reports, lemma_route_listed, push_auth_section,
    push_routes_section, routes_section, scan_sources, split_lines, trim_start, SourceFile,
};
use crate::RapinaMcp;
use vstd::prelude::*;

verus! {

/// What was found of a project's `Cargo.toml`.
#[derive(Debug)]
pub enum CargoManifest {
    /// There is no such file.
    Missing,
    /// The file exists but could not be read as text.
    Unreadable,
    /// The file's text.
    Text(String),
}

/// What was found on disk under a project root.
#[derive(Debug)]
pub struct ProjectListing {
    /// Whether the root exists at all.
    pub root_exists: bool,
    /// The root's `Cargo.toml`.
    pub cargo_toml: CargoManifest,
    /// The entries of `src/`, recursively; `None` when it does not exist
    /// (empty when it exists but cannot be listed).
    pub src: Option<Vec<FsEntry>>,
    /// The entry names of `src/middleware/` in the order they were read;
    /// `None` when it does not exist.
    pub middleware: Option<Vec<String>>,
    /// The entry names of `migrations/`; `None` when it does not exist.
    pub migrations: Option<Vec<String>>,
    /// Those of the configuration file candidates that exist in the root.
    pub config_files: Vec<String>,
    /// The Rust source files under `src/` (those `is_source_file` accepts),
    /// with their paths from the root and their text.
    pub sources: Vec<SourceFile>,
    /// The text of the root's `.env`, when it exists and can be read.
    pub env_file: Option<String>,
}

/// The configuration files looked for in a project root, in report order.
pub open spec fn config_candidates() -> Seq<Seq<char>> {
    seq!["rapina.toml"@, "Rapina.toml"@, ".env"@, ".env.example"@, "config.toml"@]
}

/// The `Cargo.toml` section: its summary, a warning when it is missing, or
/// nothing when it could not be read.
pub open spec fn cargo_section(cargo: CargoManifest) -> Seq<char> {
    match cargo {
        CargoManifest::Missing => "**Warning:** No Cargo.toml found. Is this a Rapina project?\n\n"@,
        CargoManifest::Unreadable => Seq::empty(),
        CargoManifest::Text(t) => "## Cargo.toml\n\n"@ + cargo_summary_of(t@) + "\n"@,
    }
}

/// The project structure section, when `src/` exists.
pub open spec fn structure_section(src: Option<Vec<FsEntry>>) -> Seq<char> {
    match src {
        Some(c) => "## Project Structure\n\n"@ + tree_listing(c@, indentation(0)) + "\n"@,
        None => Seq::empty(),
    }
}

/// The entries of `src/` (none when it does not exist).
pub open spec fn src_entries(src: Option<Vec<FsEntry>>) -> Seq<FsEntry> {
    match src {
        Some(c) => c@,
        None => Seq::empty(),
    }
}

/// Each name as a bold list item.
pub open spec fn bold_items(names: Seq<Seq<char>>) -> Seq<char> {
    items(names, "- **"@, "**\n"@)
}

/// Each name as a plain list item.
pub open spec fn plain_items(names: Seq<Seq<char>>) -> Seq<char> {
    items(names, "- "@, "\n"@)
}

/// The modules section: the feature modules of `src/`, or a note that there
/// are none.
pub open spec fn modules_section(src: Option<Vec<FsEntry>>) -> Seq<char> {
    let modules = module_names(src_entries(src));
    "## Modules Detected\n\n"@ + if modules.len() == 0 {
        "No feature modules detected.\n\n"@
    } else {
        bold_items(modules) + "\n"@
    }
}

/// A middleware file name is listed when it is a Rust file other than `mod.rs`.
pub open spec fn is_middleware_file(name: Seq<char>) -> bool {
    ends_with(name, ".rs"@) && name != "mod.rs"@
}

/// The middleware items: each listed file, without its `.rs` endings.
pub open spec fn middleware_items(names: Seq<Seq<char>>) -> Seq<char>
    decreases names.len(),
{
    if names.len() == 0 {
        Seq::empty()
    } else {
        middleware_items(names.drop_last()) + if is_middleware_file(names.last()) {
            "- "@ + trim_suffix_all(names.last(), ".rs"@) + "\n"@
        } else {
            Seq::empty()
        }
    }
}

/// The middleware section, when `src/middleware` exists.
pub open spec fn middleware_section(middleware: Option<Vec<String>>) -> Seq<char> {
    match middleware {
        Some(names) => "## Middleware\n\n"@ + middleware_items(string_views(names@)) + "\n"@,
        None => Seq::empty(),
    }
}

/// The migrations section, when `migrations/` exists: its entries sorted.
pub open spec fn migrations_section(migrations: Option<Vec<String>>) -> Seq<char> {
    match migrations {
        Some(names) => "## Migrations\n\n"@ + plain_items(sorted_names(string_views(names@)))
            + "\n"@,
        None => Seq::empty(),
    }
}

/// The candidates among `candidates` that are in `present`, as list items.
pub open spec fn config_items(candidates: Seq<Seq<char>>, present: Seq<Seq<char>>) -> Seq<char>
    decreases candidates.len(),
{
    if candidates.len() == 0 {
        Seq::empty()
    } else {
        config_items(candidates.drop_last(), present) + if present.contains(candidates.last()) {
            "- "@ + candidates.last() + "\n"@
        } else {
            Seq::empty()
        }
    }
}

/// The full report for the project at `path`.
pub open spec fn explain_report(path: Seq<char>, p: ProjectListing) -> Seq<char> {
    "# Rapina Project: "@ + path + "\n\n"@ + cargo_section(p.cargo_toml) + structure_section(p.src)
        + modules_section(p.src) + routes_section(p.sources@) + middleware_section(p.middleware)
        + auth_section(p.sources@, p.env_file) + migrations_section(p.migrations)
        + "## Configuration Files\n\n"@ + config_items(
        config_candidates(),
        string_views(p.config_files@),
    ) + "\n"@
}

/// The error message for a project root that does not exist.
pub open spec fn missing_root_message(path: Seq<char>) -> Seq<char> {
    "Project path does not exist: "@ + path
}


/// Appends each of `names` as a bold list item.
fn push_bold_items(out: &mut String, names: &Vec<String>)
    ensures
        final(out)@ == old(out)@ + bold_items(string_views(names@)),
{
    let ghost start = out@;
    let ghost nv = string_views(names@);
    let n = names.len();
    assert(start + bold_items(nv.take(0)) =~= start);
    for i in 0..n
        invariant
            n == names.len(),
            nv == string_views(names@),
            out@ == start + bold_items(nv.take(i as int)),
    {
        assert(nv.take(i + 1).drop_last() =~= nv.take(i as int));
        assert(nv.take(i + 1).last() == names@[i as int]@);
        let ghost prev = out@;
        out.append("- **");
        out.append(names[i].as_str());
        out.append("**\n");
        assert(out@ =~= start + (bold_items(nv.take(i as int)) + "- **"@ + names@[i as int]@
            + "**\n"@));
    }
    assert(nv.take(n as int) =~= nv);
}

/// Appends each of `names` as a plain list item.
fn push_plain_items(out: &mut String, names: &Vec<String>)
    ensures
        final(out)@ == old(out)@ + plain_items(string_views(names@)),
{
    let ghost start = out@;
    let ghost nv = string_views(names@);
    let n = names.len();
    assert(start + plain_items(nv.take(0)) =~= start);
    for i in 0..n
        invariant
            n == names.len(),
            nv == string_views(names@),
            out@ == start + plain_items(nv.take(i as int)),
    {
        assert(nv.take(i + 1).drop_last() =~= nv.take(i as int));
        assert(nv.take(i + 1).last() == names@[i as int]@);
        out.append("- ");
        out.append(names[i].as_str());
        out.append("\n");
        assert(out@ =~= start + (plain_items(nv.take(i as int)) + "- "@ + names@[i as int]@
            + "\n"@));
    }
    assert(nv.take(n as int) =~= nv);
}

/// Appends the middleware items for the entry names `names`.
fn push_middleware_items(out: &mut String, names: &Vec<String>)
    ensures
        final(out)@ == old(out)@ + middleware_items(string_views(names@)),
{
    let ghost start = out@;
    let ghost nv = string_views(names@);
    let n = names.len();
    assert(start + middleware_items(nv.take(0)) =~= start);
    for i in 0..n
        invariant
            n == names.len(),
            nv == string_views(names@),
            out@ == start + middleware_items(nv.take(i as int)),
    {
        assert(nv.take(i + 1).drop_last() =~= nv.take(i as int));
        assert(nv.take(i + 1).last() == names@[i as int]@);
        let name = names[i].as_str();
        let ghost prev = out@;
        if has_suffix(name, ".rs") && !str_eq(name, "mod.rs") {
            out.append("- ");
            let stem = trim_end_matches(name, ".rs");
            out.append(stem.as_str());
            out.append("\n");
            assert(out@ =~= start + (middleware_items(nv.take(i as int)) + ("- "@
                + trim_suffix_all(name@, ".rs"@) + "\n"@)));
        } else {
            assert(out@ =~= start + (middleware_items(nv.take(i as int)) + Seq::<char>::empty()));
        }
    }
    assert(nv.take(n as int) =~= nv);
}

/// The configuration files looked for in a project root, in report order.
pub fn config_file_candidates() -> (r: Vec<String>)
    ensures
        string_views(r@) == config_candidates(),
{
    let r = vec![
        String::from_str("rapina.toml"),
        String::from_str("Rapina.toml"),
        String::from_str(".env"),
        String::from_str(".env.example"),
        String::from_str("config.toml"),
    ];
    assert(string_views(r@) =~= config_candidates());
    r
}

/// Whether `name` is among `names`.
fn has_name(names: &Vec<String>, name: &str) -> (r: bool)
    ensures
        r == string_views(names@).contains(name@),
{
    let n = names.len();
    for i in 0..n
        invariant
            n == names.len(),
            forall|j: int| 0 <= j < i ==> names@[j]@ != name@,
    {
        if str_eq(names[i].as_str(), name) {
            assert(string_views(names@)[i as int] == name@);
            return true;
        }
    }
    proof {
        if string_views(names@).contains(name@) {
            let j = choose|j: int| 0 <= j < n && string_views(names@)[j] == name@;
            assert(names@[j]@ == name@);
        }
    }
    false
}

/// Appends an item for each configuration file candidate that is present.
fn push_config_items(out: &mut String, present: &Vec<String>)
    ensures
        final(out)@ == old(out)@ + config_items(config_candidates(), string_views(present@)),
{
    let ghost start = out@;
    let ghost pv = string_views(present@);
    let candidates = config_file_candidates();
    let ghost cv = string_views(candidates@);
    let n = candidates.len();
    assert(start + config_items(cv.take(0), pv) =~= start);
    for i in 0..n
        invariant
            n == candidates.len(),
            cv == string_views(candidates@),
            cv == config_candidates(),
            pv == string_views(present@),
            out@ == start + config_items(cv.take(i as int), pv),
    {
        assert(cv.take(i + 1).drop_last() =~= cv.take(i as int));
        assert(cv.take(i + 1).last() == candidates@[i as int]@);
        let name = candidates[i].as_str();
        if has_name(present, name) {
            out.append("- ");
            out.append(name);
            out.append("\n");
            assert(out@ =~= start + (config_items(cv.take(i as int), pv) + ("- "@ + name@
                + "\n"@)));
        } else {
            assert(out@ =~= start + (config_items(cv.take(i as int), pv) + Seq::<char>::empty()));
        }
    }
    assert(cv.take(n as int) =~= cv);
}

/// Appends the `Cargo.toml` section.
fn push_cargo_section(out: &mut String, cargo: &CargoManifest)
    ensures
        final(out)@ == old(out)@ + cargo_section(*cargo),
{
    match cargo {
        CargoManifest::Text(content) => {
            out.append("## Cargo.toml\n\n");
            let summary = extract_cargo_summary(content.as_str());
            out.append(summary.as_str());
            out.append("\n");
        },
        CargoManifest::Unreadable => {},
        CargoManifest::Missing => {
            out.append("**Warning:** No Cargo.toml found. Is this a Rapina project?\n\n");
        },
    }
    assert(out@ =~= old(out)@ + cargo_section(*cargo));
}

/// Appends the project structure section.
fn push_structure_section(out: &mut String, src: &Option<Vec<FsEntry>>)
    ensures
        final(out)@ == old(out)@ + structure_section(*src),
{
    match src {
        Some(entries) => {
            out.append("## Project Structure\n\n");
            let listing = walk_source_tree(entries, 0);
            out.append(listing.as_str());
            out.append("\n");
        },
        None => {},
    }
    assert(out@ =~= old(out)@ + structure_section(*src));
}

/// Appends the modules section.
fn push_modules_section(out: &mut String, src: &Option<Vec<FsEntry>>)
    ensures
        final(out)@ == old(out)@ + modules_section(*src),
{
    out.append("## Modules Detected\n\n");
    let modules = match src {
        Some(entries) => detect_modules(entries),
        None => {
            let none: Vec<FsEntry> = Vec::new();
            assert(none@ =~= src_entries(*src));
            detect_modules(&none)
        },
    };
    if modules.len() == 0 {
        out.append("No feature modules detected.\n\n");
    } else {
        push_bold_items(out, &modules);
        out.append("\n");
    }
    assert(out@ =~= old(out)@ + modules_section(*src));
}

/// Appends the middleware section.
fn push_middleware_section(out: &mut String, middleware: &Option<Vec<String>>)
    ensures
        final(out)@ == old(out)@ + middleware_section(*middleware),
{
    match middleware {
        Some(names) => {
            out.append("## Middleware\n\n");
            push_middleware_items(out, names);
            out.append("\n");
        },
        None => {},
    }
    assert(out@ =~= old(out)@ + middleware_section(*middleware));
}

/// Appends the migrations section.
fn push_migrations_section(out: &mut String, migrations: &Option<Vec<String>>)
    ensures
        final(out)@ == old(out)@ + migrations_section(*migrations),
{
    match migrations {
        Some(names) => {
            out.append("## Migrations\n\n");
            let sorted = sorted_strings(names);
            push_plain_items(out, &sorted);
            out.append("\n");
        },
        None => {},
    }
    assert(out@ =~= old(out)@ + migrations_section(*migrations));
}

impl RapinaMcp {
    /// Summarises the project whose root `params` names, from what was found
    /// there: its `Cargo.toml` (package and dependencies), source tree,
    /// feature modules, routes, middleware, auth configuration, migrations
    /// (the database setup) and configuration files. A root that does not exist is an
    /// invalid-parameters error.
    pub fn rapina_explain(&self, params: &ExplainParams, project: &ProjectListing) -> (r: Result<
        ToolOutput,
        ToolError,
    >)
        ensures
            match r {
                Ok(o) => project.root_exists && !o.is_error && o.text@ == explain_report(
                    params.project_path@,
                    *project,
                ),
                Err(e) => !project.root_exists && e.kind is InvalidParams && e.message@
                    == missing_root_message(params.project_path@),
            },
    {
        if !project.root_exists {
            let message = String::from_str("Project path does not exist: ").concat(
                params.project_path.as_str(),
            );
            return Err(ToolError { kind: ToolErrorKind::InvalidParams, message });
        }
        let mut report = String::from_str("# Rapina Project: ");
        report.append(params.project_path.as_str());
        report.append("\n\n");
        push_cargo_section(&mut report, &project.cargo_toml);
        push_structure_section(&mut report, &project.src);
        push_modules_section(&mut report, &project.src);
        let scan = scan_sources(&project.sources);
        push_routes_section(&mut report, &scan, &project.sources);
        push_middleware_section(&mut report, &project.middleware);
        push_auth_section(&mut report, &scan, &project.sources, &project.env_file);
        push_migrations_section(&mut report, &project.migrations);
        report.append("## Configuration Files\n\n");
        push_config_items(&mut report, &project.config_files);
        report.append("\n");
        assert(report@ =~= explain_report(params.project_path@, *project));
        Ok(ToolOutput { text: report, is_error: false })
    }
}


/// The migrations section lists every entry of `migrations/`, each on a line
/// of its own, as `- name`.
pub proof fn lemma_migrations_listed(names: Vec<String>)
    ensures
        forall|k: int|
            0 <= k < names@.len() ==> contains_seq(
                migrations_section(Some(names)),
                "- "@ + (#[trigger] names@[k])@ + "\n"@,
            ),
{
    let v = string_views(names@);
    let sorted = sorted_names(v);
    lemma_sorted_names(v);
    let head = "## Migrations\n\n"@;
    assert forall|k: int| 0 <= k < names@.len() implies contains_seq(
        migrations_section(Some(names)),
        "- "@ + (#[trigger] names@[k])@ + "\n"@,
    ) by {
        assert(v[k] == names@[k]@);
        assert(v.contains(v[k]));
        assert(sorted.contains(v[k]));
        let j = choose|j: int| 0 <= j < sorted.len() && sorted[j] == v[k];
        lemma_items_hold(sorted, "- "@, "\n"@, j);
        lemma_contains_extend(head, plain_items(sorted), "\n"@, "- "@ + v[k] + "\n"@);
    }
}

/// The modules section shows every subdirectory of `src/` other than exactly
/// `middleware`, `config`, `common` and `utils` as `- **name**`.
pub proof fn lemma_modules_listed(src: Vec<FsEntry>)
    ensures
        forall|i: int|
            0 <= i < src@.len() && (#[trigger] src@[i]).is_dir && src@[i].name@ != "middleware"@
                && src@[i].name@ != "config"@ && src@[i].name@ != "common"@ && src@[i].name@
                != "utils"@ ==> contains_seq(
                modules_section(Some(src)),
                "- **"@ + src@[i].name@ + "**\n"@,
            ),
{
    let c = src@;
    let m = module_names(c);
    lemma_modules_are_feature_dirs(c);
    assert forall|i: int|
        0 <= i < c.len() && (#[trigger] c[i]).is_dir && c[i].name@ != "middleware"@ && c[i].name@
            != "config"@ && c[i].name@ != "common"@ && c[i].name@ != "utils"@ implies contains_seq(
        modules_section(Some(src)),
        "- **"@ + c[i].name@ + "**\n"@,
    ) by {
        assert(src_entries(Some(src)) == c);
        assert(m.contains(c[i].name@));
        let j = choose|j: int| 0 <= j < m.len() && m[j] == c[i].name@;
        lemma_items_hold(m, "- **"@, "**\n"@, j);
        lemma_contains_extend("## Modules Detected\n\n"@, bold_items(m), "\n"@, "- **"@ + m[j] + "**\n"@);
        assert(m.len() > 0);
        assert(modules_section(Some(src)) == "## Modules Detected\n\n"@ + (bold_items(m) + "\n"@));
        assert("## Modules Detected\n\n"@ + (bold_items(m) + "\n"@) =~= "## Modules Detected\n\n"@
            + bold_items(m) + "\n"@);
    }
}


/// Every middleware file of a list appears among its items as `- stem`.
proof fn lemma_middleware_items_hold(names: Seq<Seq<char>>, k: int)
    requires
        0 <= k < names.len(),
        is_middleware_file(names[k]),
    ensures
        contains_seq(middleware_items(names), "- "@ + trim_suffix_all(names[k], ".rs"@) + "\n"@),
    decreases names.len(),
{
    let d = names.drop_last();
    let x = "- "@ + trim_suffix_all(names[k], ".rs"@) + "\n"@;
    let a = middleware_items(d);
    let b = if is_middleware_file(names.last()) {
        "- "@ + trim_suffix_all(names.last(), ".rs"@) + "\n"@
    } else {
        Seq::<char>::empty()
    };
    assert(middleware_items(names) == a + b);
    if k == names.len() - 1 {
        lemma_contains_self(x);
        lemma_contains_extend(a, x, Seq::empty(), x);
        assert(a + x + Seq::<char>::empty() =~= a + x);
    } else {
        assert(d[k] == names[k]);
        lemma_middleware_items_hold(d, k);
        lemma_contains_extend(Seq::empty(), a, b, x);
        assert(Seq::<char>::empty() + a + b =~= a + b);
    }
}

/// A list without middleware files has no items.
proof fn lemma_middleware_items_none(names: Seq<Seq<char>>)
    requires
        forall|k: int| 0 <= k < names.len() ==> !is_middleware_file(#[trigger] names[k]),
    ensures
        middleware_items(names) == Seq::<char>::empty(),
    decreases names.len(),
{
    if names.len() > 0 {
        let d = names.drop_last();
        assert forall|k: int| 0 <= k < d.len() implies !is_middleware_file(#[trigger] d[k]) by {
            assert(d[k] == names[k]);
        }
        lemma_middleware_items_none(d);
        assert(!is_middleware_file(names[names.len() - 1]));
        assert(middleware_items(names) =~= Seq::<char>::empty() + Seq::<char>::empty());
    }
}

/// Every present candidate appears among the configuration items as `- name`.
proof fn lemma_config_items_hold(candidates: Seq<Seq<char>>, present: Seq<Seq<char>>, k: int)
    requires
        0 <= k < candidates.len(),
        present.contains(candidates[k]),
    ensures
        contains_seq(config_items(candidates, present), "- "@ + candidates[k] + "\n"@),
    decreases candidates.len(),
{
    let d = candidates.drop_last();
    let x = "- "@ + candidates[k] + "\n"@;
    let a = config_items(d, present);
    let b = if present.contains(candidates.last()) {
        "- "@ + candidates.last() + "\n"@
    } else {
        Seq::<char>::empty()
    };
    assert(config_items(candidates, present) == a + b);
    if k == candidates.len() - 1 {
        lemma_contains_self(x);
        lemma_contains_extend(a, x, Seq::empty(), x);
        assert(a + x + Seq::<char>::empty() =~= a + x);
    } else {
        assert(d[k] == candidates[k]);
        lemma_config_items_hold(d, present, k);
        lemma_contains_extend(Seq::empty(), a, b, x);
        assert(Seq::<char>::empty() + a + b =~= a + b);
    }
}

/// What occurs in `a` occurs in `a + b`.
proof fn lemma_contains_after(a: Seq<char>, b: Seq<char>, x: Seq<char>)
    requires
        contains_seq(a, x),
    ensures
        contains_seq(a + b, x),
{
    lemma_contains_extend(Seq::empty(), a, b, x);
    assert(Seq::<char>::empty() + a + b =~= a + b);
}

/// What occurs in `b` occurs in `a + b`.
proof fn lemma_contains_before(a: Seq<char>, b: Seq<char>, x: Seq<char>)
    requires
        contains_seq(b, x),
    ensures
        contains_seq(a + b, x),
{
    lemma_contains_extend(a, b, Seq::empty(), x);
    assert(a + b + Seq::<char>::empty() =~= a + b);
}

/// What one section of the report holds, the report holds.
proof fn lemma_report_holds(path: Seq<char>, p: ProjectListing, x: Seq<char>)
    requires
        contains_seq(cargo_section(p.cargo_toml), x) || contains_seq(structure_section(p.src), x)
            || contains_seq(modules_section(p.src), x) || contains_seq(routes_section(p.sources@), x)
            || contains_seq(middleware_section(p.middleware), x) || contains_seq(
            auth_section(p.sources@, p.env_file),
            x,
        ) || contains_seq(migrations_section(p.migrations), x) || contains_seq(
            config_items(config_candidates(), string_views(p.config_files@)),
            x,
        ),
    ensures
        contains_seq(explain_report(path, p), x),
{
    let h = "# Rapina Project: "@ + path + "\n\n"@;
    let c = cargo_section(p.cargo_toml);
    let s = structure_section(p.src);
    let m = modules_section(p.src);
    let ro = routes_section(p.sources@);
    let mw = middleware_section(p.middleware);
    let au = auth_section(p.sources@, p.env_file);
    let mg = migrations_section(p.migrations);
    let ch = "## Configuration Files\n\n"@;
    let cf = config_items(config_candidates(), string_views(p.config_files@));
    let nl = "\n"@;
    let r1 = h + c;
    let r2 = r1 + s;
    let r3 = r2 + m;
    let r4 = r3 + ro;
    let r5 = r4 + mw;
    let r6 = r5 + au;
    let r7 = r6 + mg;
    let r8 = r7 + ch;
    let r9 = r8 + cf;
    assert(explain_report(path, p) == r9 + nl);
    if contains_seq(c, x) {
        lemma_contains_before(h, c, x);
    }
    if contains_seq(r1, x) {
        lemma_contains_after(r1, s, x);
    } else if contains_seq(s, x) {
        lemma_contains_before(r1, s, x);
    }
    if contains_seq(r2, x) {
        lemma_contains_after(r2, m, x);
    } else if contains_seq(m, x) {
        lemma_contains_before(r2, m, x);
    }
    if contains_seq(r3, x) {
        lemma_contains_after(r3, ro, x);
    } else if contains_seq(ro, x) {
        lemma_contains_before(r3, ro, x);
    }
    if contains_seq(r4, x) {
        lemma_contains_after(r4, mw, x);
    } else if contains_seq(mw, x) {
        lemma_contains_before(r4, mw, x);
    }
    if contains_seq(r5, x) {
        lemma_contains_after(r5, au, x);
    } else if contains_seq(au, x) {
        lemma_contains_before(r5, au, x);
    }
    if contains_seq(r6, x) {
        lemma_contains_after(r6, mg, x);
    } else if contains_seq(mg, x) {
        lemma_contains_before(r6, mg, x);
    }
    if contains_seq(r7, x) {
        lemma_contains_after(r7, ch, x);
    }
    if contains_seq(r8, x) {
        lemma_contains_after(r8, cf, x);
    } else if contains_seq(cf, x) {
        lemma_contains_before(r8, cf, x);
    }
    lemma_contains_after(r9, nl, x);
}

/// The report's middleware section lists every entry of `src/middleware/`
/// whose name ends in `.rs` and is not `mod.rs`, as `- ` and the name
/// without its `.rs` endings; with no such entry it holds no items.
pub proof fn lemma_report_lists_middleware(path: Seq<char>, p: ProjectListing)
    ensures
        p.middleware is Some ==> forall|k: int|
            0 <= k < p.middleware->0@.len() && ends_with((#[trigger] p.middleware->0@[k])@, ".rs"@)
                && p.middleware->0@[k]@ != "mod.rs"@ ==> contains_seq(
                explain_report(path, p),
                "- "@ + trim_suffix_all(p.middleware->0@[k]@, ".rs"@) + "\n"@,
            ),
        p.middleware is Some && (forall|k: int|
            0 <= k < p.middleware->0@.len() ==> !(ends_with((#[trigger] p.middleware->0@[k])@, ".rs"@)
                && p.middleware->0@[k]@ != "mod.rs"@)) ==> middleware_section(p.middleware)
            == "## Middleware\n\n"@ + "\n"@,
{
    if p.middleware is Some {
        let names = p.middleware->0;
        let v = string_views(names@);
        let head = "## Middleware\n\n"@;
        assert forall|k: int|
            0 <= k < names@.len() && ends_with((#[trigger] names@[k])@, ".rs"@) && names@[k]@
                != "mod.rs"@ implies contains_seq(
            explain_report(path, p),
            "- "@ + trim_suffix_all(names@[k]@, ".rs"@) + "\n"@,
        ) by {
            assert(v[k] == names@[k]@);
            lemma_middleware_items_hold(v, k);
            lemma_contains_extend(head, middleware_items(v), "\n"@, "- "@ + trim_suffix_all(
                v[k],
                ".rs"@,
            ) + "\n"@);
            lemma_report_holds(path, p, "- "@ + trim_suffix_all(v[k], ".rs"@) + "\n"@);
        }
        if forall|k: int|
            0 <= k < names@.len() ==> !(ends_with((#[trigger] names@[k])@, ".rs"@) && names@[k]@
                != "mod.rs"@) {
            assert forall|k: int| 0 <= k < v.len() implies !is_middleware_file(#[trigger] v[k]) by {
                assert(v[k] == names@[k]@);
            }
            lemma_middleware_items_none(v);
            assert(head + Seq::<char>::empty() + "\n"@ =~= head + "\n"@);
        }
    }
}

/// The report's configuration section lists each of `rapina.toml`,
/// `Rapina.toml`, `.env`, `.env.example` and `config.toml` that is present
/// in the root, as `- name`.
pub proof fn lemma_report_lists_config_files(path: Seq<char>, p: ProjectListing)
    ensures
        forall|c: Seq<char>|
            (c == "rapina.toml"@ || c == "Rapina.toml"@ || c == ".env"@ || c == ".env.example"@ || c
                == "config.toml"@) && #[trigger] string_views(p.config_files@).contains(c)
                ==> contains_seq(explain_report(path, p), "- "@ + c + "\n"@),
{
    let present = string_views(p.config_files@);
    let cands = config_candidates();
    assert forall|c: Seq<char>|
        (c == "rapina.toml"@ || c == "Rapina.toml"@ || c == ".env"@ || c == ".env.example"@ || c
            == "config.toml"@) && #[trigger] present.contains(c) implies contains_seq(
        explain_report(path, p),
        "- "@ + c + "\n"@,
    ) by {
        let k: int = if c == "rapina.toml"@ {
            0
        } else if c == "Rapina.toml"@ {
            1
        } else if c == ".env"@ {
            2
        } else if c == ".env.example"@ {
            3
        } else {
            4
        };
        assert(cands[k] == c);
        lemma_config_items_hold(cands, present, k);
        lemma_report_holds(path, p, "- "@ + c + "\n"@);
    }
}

/// The report lists every entry of `migrations/` as `- name`.
pub proof fn lemma_report_lists_migrations(path: Seq<char>, p: ProjectListing)
    ensures
        p.migrations is Some ==> forall|k: int|
            0 <= k < p.migrations->0@.len() ==> contains_seq(
                explain_report(path, p),
                "- "@ + (#[trigger] p.migrations->0@[k])@ + "\n"@,
            ),
{
    if p.migrations is Some {
        let names = p.migrations->0;
        lemma_migrations_listed(names);
        assert forall|k: int| 0 <= k < names@.len() implies contains_seq(
            explain_report(path, p),
            "- "@ + (#[trigger] names@[k])@ + "\n"@,
        ) by {
            lemma_report_holds(path, p, "- "@ + names@[k]@ + "\n"@);
        }
    }
}

/// The report lists every subdirectory of `src/` other than exactly
/// `middleware`, `config`, `common` and `utils` as a module `- **name**`.
pub proof fn lemma_report_lists_modules(path: Seq<char>, p: ProjectListing)
    ensures
        p.src is Some ==> forall|i: int|
            0 <= i < p.src->0@.len() && (#[trigger] p.src->0@[i]).is_dir && p.src->0@[i].name@
                != "middleware"@ && p.src->0@[i].name@ != "config"@ && p.src->0@[i].name@
                != "common"@ && p.src->0@[i].name@ != "utils"@ ==> contains_seq(
                explain_report(path, p),
                "- **"@ + p.src->0@[i].name@ + "**\n"@,
            ),
{
    if p.src is Some {
        let c = p.src->0;
        lemma_modules_listed(c);
        assert forall|i: int|
            0 <= i < c@.len() && (#[trigger] c@[i]).is_dir && c@[i].name@ != "middleware"@
                && c@[i].name@ != "config"@ && c@[i].name@ != "common"@ && c@[i].name@
                != "utils"@ implies contains_seq(
            explain_report(path, p),
            "- **"@ + c@[i].name@ + "**\n"@,
        ) by {
            lemma_report_holds(path, p, "- **"@ + c@[i].name@ + "**\n"@);
        }
    }
}

/// The report's project structure shows every top-level entry of `src/`:
/// each directory as `- **name/**` and each file whose name ends in `.rs` as
/// `- name`.
pub proof fn lemma_report_shows_source_files(path: Seq<char>, p: ProjectListing)
    ensures
        p.src is Some ==> forall|i: int|
            0 <= i < p.src->0@.len() && !(#[trigger] p.src->0@[i]).is_dir && ends_with(
                p.src->0@[i].name@,
                ".rs"@,
            ) ==> contains_seq(explain_report(path, p), "- "@ + p.src->0@[i].name@ + "\n"@),
        p.src is Some ==> forall|i: int|
            0 <= i < p.src->0@.len() && (#[trigger] p.src->0@[i]).is_dir ==> contains_seq(
                explain_report(path, p),
                "- **"@ + p.src->0@[i].name@ + "/**\n"@,
            ),
{
    if p.src is Some {
        reveal_strlit(".rs");
        let c = p.src->0@;
        let ind = indentation(0);
        assert(ind == Seq::<char>::empty());
        lemma_listing_shows_entries(c, ind);
        let head = "## Project Structure\n\n"@;
        let t = tree_listing(c, ind);
        assert(structure_section(p.src) == head + t + "\n"@);
        assert forall|i: int|
            0 <= i < c.len() && !(#[trigger] c[i]).is_dir && ends_with(c[i].name@, ".rs"@)
                implies contains_seq(explain_report(path, p), "- "@ + c[i].name@ + "\n"@) by {
            let x = "- "@ + c[i].name@ + "\n"@;
            assert(ind + "- "@ + c[i].name@ + "\n"@ =~= x);
            assert(contains_seq(t, ind + "- "@ + c[i].name@ + "\n"@));
            lemma_contains_extend(head, t, "\n"@, x);
            lemma_report_holds(path, p, x);
        }
        assert forall|i: int| 0 <= i < c.len() && (#[trigger] c[i]).is_dir implies contains_seq(
            explain_report(path, p),
            "- **"@ + c[i].name@ + "/**\n"@,
        ) by {
            let x = "- **"@ + c[i].name@ + "/**\n"@;
            assert(ind + "- **"@ + c[i].name@ + "/**\n"@ =~= x);
            lemma_contains_extend(head, t, "\n"@, x);
            lemma_report_holds(path, p, x);
        }
    }
}

/// The report's `Cargo.toml` section shows the package's `name`, `version`
/// and `edition` whenever the parsed manifest's package table gives it as a
/// string.
pub proof fn lemma_report_shows_package_fields(path: Seq<char>, p: ProjectListing, value: Seq<char>)
    ensures
        p.cargo_toml is Text && parsed_toml(p.cargo_toml->Text_0@) is Some && package_field_is(
            parsed_toml(p.cargo_toml->Text_0@)->0,
            "name"@,
            value,
        ) ==> contains_seq(explain_report(path, p), "- **name:** "@ + value + "\n"@),
        p.cargo_toml is Text && parsed_toml(p.cargo_toml->Text_0@) is Some && package_field_is(
            parsed_toml(p.cargo_toml->Text_0@)->0,
            "version"@,
            value,
        ) ==> contains_seq(explain_report(path, p), "- **version:** "@ + value + "\n"@),
        p.cargo_toml is Text && parsed_toml(p.cargo_toml->Text_0@) is Some && package_field_is(
            parsed_toml(p.cargo_toml->Text_0@)->0,
            "edition"@,
            value,
        ) ==> contains_seq(explain_report(path, p), "- **edition:** "@ + value + "\n"@),
{
    if p.cargo_toml is Text && parsed_toml(p.cargo_toml->Text_0@) is Some {
        let t = p.cargo_toml->Text_0@;
        let doc = parsed_toml(t)->0;
        lemma_summary_shows_package_fields(doc, value);
        let head = "## Cargo.toml\n\n"@;
        let sum = cargo_summary_text(doc);
        assert(cargo_section(p.cargo_toml) == head + sum + "\n"@);
        let xn = "- **name:** "@ + value + "\n"@;
        let xv = "- **version:** "@ + value + "\n"@;
        let xe = "- **edition:** "@ + value + "\n"@;
        if package_field_is(doc, "name"@, value) {
            lemma_contains_extend(head, sum, "\n"@, xn);
            lemma_report_holds(path, p, xn);
        }
        if package_field_is(doc, "version"@, value) {
            lemma_contains_extend(head, sum, "\n"@, xv);
            lemma_report_holds(path, p, xv);
        }
        if package_field_is(doc, "edition"@, value) {
            lemma_contains_extend(head, sum, "\n"@, xe);
            lemma_report_holds(path, p, xe);
        }
    }
}


/// The report lists a route for each line of a source file that reads,
/// after blanks, `#[get("` (or `#[post("`, `#[put("`, `#[patch("`,
/// `#[delete("`), a path without double quotes and a closing quote, as
/// `- METHOD path (file)`.
pub proof fn lemma_report_lists_route(
    path: Seq<char>,
    p: ProjectListing,
    i: int,
    j: int,
    method: Seq<char>,
    route: Seq<char>,
    rest: Seq<char>,
)
    requires
        0 <= i < p.sources@.len(),
        0 <= j < split_lines(p.sources@[i].text@).len(),
        forall|m: int| 0 <= m < route.len() ==> route[m] != '"',
        (method == "GET"@ && trim_start(split_lines(p.sources@[i].text@)[j]) == "#[get(\""@ + route
            + "\""@ + rest) || (method == "POST"@ && trim_start(split_lines(p.sources@[i].text@)[j])
            == "#[post(\""@ + route + "\""@ + rest) || (method == "PUT"@ && trim_start(
            split_lines(p.sources@[i].text@)[j],
        ) == "#[put(\""@ + route + "\""@ + rest) || (method == "PATCH"@ && trim_start(
            split_lines(p.sources@[i].text@)[j],
        ) == "#[patch(\""@ + route + "\""@ + rest) || (method == "DELETE"@ && trim_start(
            split_lines(p.sources@[i].text@)[j],
        ) == "#[delete(\""@ + route + "\""@ + rest),
    ensures
        contains_seq(
            explain_report(path, p),
            "- "@ + method + " "@ + route + " ("@ + p.sources@[i].path@ + ")\n"@,
        ),
{
    lemma_route_listed(p.sources@, i, j, method, route, rest);
    lemma_report_holds(
        path,
        p,
        "- "@ + method + " "@ + route + " ("@ + p.sources@[i].path@ + ")\n"@,
    );
}

/// The report shows the auth middleware as enabled when some line of some
/// source file calls `with_auth(`, and as not found otherwise; and
/// `JWT_SECRET` as set when some line of `.env` starts, after blanks, with
/// `JWT_SECRET=`, and as not set otherwise.
pub proof fn lemma_report_shows_auth(path: Seq<char>, p: ProjectListing)
    ensures
        (exists|i: int, j: int|
            0 <= i < p.sources@.len() && 0 <= j < split_lines(p.sources@[i].text@).len()
                && contains_seq(#[trigger] split_lines(p.sources@[i].text@)[j], "with_auth("@))
            ==> contains_seq(
            explain_report(path, p),
            "- **auth middleware:** "@ + "enabled"@ + "\n"@,
        ),
        !(exists|i: int, j: int|
            0 <= i < p.sources@.len() && 0 <= j < split_lines(p.sources@[i].text@).len()
                && contains_seq(#[trigger] split_lines(p.sources@[i].text@)[j], "with_auth("@))
            ==> contains_seq(
            explain_report(path, p),
            "- **auth middleware:** "@ + "not found"@ + "\n"@,
        ),
        (p.env_file is Some && exists|j: int|
            0 <= j < split_lines(p.env_file->0@).len() && starts_with(
                trim_start(#[trigger] split_lines(p.env_file->0@)[j]),
                "JWT_SECRET="@,
            )) ==> contains_seq(
            explain_report(path, p),
            "- **JWT_SECRET:** "@ + "set in .env"@ + "\n"@,
        ),
        !(p.env_file is Some && exists|j: int|
            0 <= j < split_lines(p.env_file->0@).len() && starts_with(
                trim_start(#[trigger] split_lines(p.env_file->0@)[j]),
                "JWT_SECRET="@,
            )) ==> contains_seq(
            explain_report(path, p),
            "- **JWT_SECRET:** "@ + "not set in .env"@ + "\n"@,
        ),
{
    lemma_auth_section_reports(p.sources@, p.env_file);
    let a = auth_section(p.sources@, p.env_file);
    let x1 = "- **auth middleware:** "@ + "enabled"@ + "\n"@;
    let x2 = "- **auth middleware:** "@ + "not found"@ + "\n"@;
    let x3 = "- **JWT_SECRET:** "@ + "set in .env"@ + "\n"@;
    let x4 = "- **JWT_SECRET:** "@ + "not set in .env"@ + "\n"@;
    if contains_seq(a, x1) {
        lemma_report_holds(path, p, x1);
    }
    if contains_seq(a, x2) {
        lemma_report_holds(path, p, x2);
    }
    if contains_seq(a, x3) {
        lemma_report_holds(path, p, x3);
    }
    if contains_seq(a, x4) {
        lemma_report_holds(path, p, x4);
    }
}


/// The report's `Cargo.toml` section counts every key of the parsed
/// manifest's dependencies table, and names each key that starts with
/// `rapina` on a Rapina-crates line.
pub proof fn lemma_report_shows_dependencies(path: Seq<char>, p: ProjectListing, k: int)
    requires
        p.cargo_toml is Text,
        parsed_toml(p.cargo_toml->Text_0@) is Some,
        dependencies_at(parsed_toml(p.cargo_toml->Text_0@)->0, k),
    ensures
        contains_seq(
            explain_report(path, p),
            "- **total dependencies:** "@ + decimal(
                parsed_toml(p.cargo_toml->Text_0@)->0.sections@[k].table->0@.len(),
            ) + "\n"@,
        ),
        forall|e: int|
            0 <= e < parsed_toml(p.cargo_toml->Text_0@)->0.sections@[k].table->0@.len() && starts_with(
                (#[trigger] parsed_toml(p.cargo_toml->Text_0@)->0.sections@[k].table->0@[e]).key@,
                "rapina"@,
            ) ==> contains_seq(explain_report(path, p), "- **rapina deps:** "@) && contains_seq(
                explain_report(path, p),
                parsed_toml(p.cargo_toml->Text_0@)->0.sections@[k].table->0@[e].key@,
            ),
{
    let doc = parsed_toml(p.cargo_toml->Text_0@)->0;
    let t = doc.sections@[k].table->0@;
    lemma_summary_shows_dependencies(doc, k);
    let head = "## Cargo.toml\n\n"@;
    let sum = cargo_summary_text(doc);
    assert(cargo_section(p.cargo_toml) == head + sum + "\n"@);
    let xt = "- **total dependencies:** "@ + decimal(t.len()) + "\n"@;
    lemma_contains_extend(head, sum, "\n"@, xt);
    lemma_report_holds(path, p, xt);
    assert forall|e: int| 0 <= e < t.len() && starts_with((#[trigger] t[e]).key@, "rapina"@) implies contains_seq(
        explain_report(path, p),
        "- **rapina deps:** "@,
    ) && contains_seq(explain_report(path, p), t[e].key@) by {
        lemma_contains_extend(head, sum, "\n"@, "- **rapina deps:** "@);
        lemma_report_holds(path, p, "- **rapina deps:** "@);
        lemma_contains_extend(head, sum, "\n"@, t[e].key@);
        lemma_report_holds(path, p, t[e].key@);
    }
}

} // verus!
