//! The summary of a project's `Cargo.toml`: package name, version, edition,
//! the Rapina crates it depends on, and how many dependencies it has.
//!
//! Parsing is done by the `toml` crate. Its document is carried into this
//! library as a `TomlDocument`, which holds what the summary reads: each
//! top-level key in the order of the parsed table, and for a key whose value
//! is a table, that table's keys with their values where those are strings.
use crate::order::string_views;
use crate::text::{
    contains_seq, decimal, decimal_string, has_prefix, join, lemma_contains_extend, lemma_contains_self,
    starts_with, str_eq,
};
use vstd::prelude::*;

verus! {

/// A key of a nested table, with its value when that value is a string.
#[derive(Debug)]
pub struct TomlEntry {
    pub key: String,
    pub text: Option<String>,
}

/// A top-level key, with its value's entries when that value is a table.
#[derive(Debug)]
pub struct TomlSection {
    pub key: String,
    pub table: Option<Vec<TomlEntry>>,
}

/// The top-level keys of a parsed TOML document, in the table's order.
#[derive(Debug)]
pub struct TomlDocument {
    pub sections: Vec<TomlSection>,
}

#[verifier::external_type_specification]
#[verifier::external_body]
pub struct ExTomlParseError(toml::de::Error);

/// The document that the `toml` crate reads from `text` as a table, or
/// `None` where it rejects the text.
pub uninterp spec fn parsed_toml(text: Seq<char>) -> Option<TomlDocument>;

/// Parses `content` with `<toml::Table as FromStr>::from_str` and carries the
/// top-level keys, and the keys and string values of top-level tables, over
/// into a `TomlDocument`. The contract claims only that the outcome is a
/// function of the text (`parsed_toml`); what that function is, the `toml`
/// crate decides.
#[verifier::external_body]
fn parse_toml(content: &str) -> (r: Result<TomlDocument, toml::de::Error>)
    ensures
        match r {
            Ok(doc) => parsed_toml(content@) == Some(doc),
            Err(_) => parsed_toml(content@) is None,
        },
{
    content.parse::<toml::Table>().map(|doc| TomlDocument { sections: doc.into_iter().map(|(key, value)| TomlSection {
        key,
        table: match value {
            toml::Value::Table(t) => Some(t.into_iter().map(|(key, v)| TomlEntry {
                key,
                text: match v { toml::Value::String(s) => Some(s), _ => None },
            }).collect()),
            _ => None,
        },
    }).collect() })
}

/// The first section of `secs` named `key`.
pub open spec fn find_section(secs: Seq<TomlSection>, key: Seq<char>) -> Option<TomlSection>
    decreases secs.len(),
{
    if secs.len() == 0 {
        None
    } else if secs[0].key@ == key {
        Some(secs[0])
    } else {
        find_section(secs.drop_first(), key)
    }
}

/// The entries of the top-level table `key`, if there is one.
pub open spec fn section_table(doc: TomlDocument, key: Seq<char>) -> Option<Seq<TomlEntry>> {
    match find_section(doc.sections@, key) {
        Some(s) => match s.table {
            Some(t) => Some(t@),
            None => None,
        },
        None => None,
    }
}

/// The first entry of `entries` named `key`.
pub open spec fn find_entry(entries: Seq<TomlEntry>, key: Seq<char>) -> Option<TomlEntry>
    decreases entries.len(),
{
    if entries.len() == 0 {
        None
    } else if entries[0].key@ == key {
        Some(entries[0])
    } else {
        find_entry(entries.drop_first(), key)
    }
}

/// The string value of `key` in `entries`, if it has one.
pub open spec fn entry_text(entries: Seq<TomlEntry>, key: Seq<char>) -> Option<Seq<char>> {
    match find_entry(entries, key) {
        Some(e) => match e.text {
            Some(t) => Some(t@),
            None => None,
        },
        None => None,
    }
}

/// `label` followed by `value` on a line of its own, or nothing.
pub open spec fn field_line(label: Seq<char>, value: Option<Seq<char>>) -> Seq<char> {
    match value {
        Some(v) => label + v + "\n"@,
        None => Seq::empty(),
    }
}

/// The name, version and edition lines of the `package` table.
pub open spec fn package_summary(doc: TomlDocument) -> Seq<char> {
    match section_table(doc, "package"@) {
        Some(p) => field_line("- **name:** "@, entry_text(p, "name"@)) + field_line(
            "- **version:** "@,
            entry_text(p, "version"@),
        ) + field_line("- **edition:** "@, entry_text(p, "edition"@)),
        None => Seq::empty(),
    }
}

/// The keys of `entries` that start with `rapina`, in order.
pub open spec fn rapina_dep_names(entries: Seq<TomlEntry>) -> Seq<Seq<char>>
    decreases entries.len(),
{
    if entries.len() == 0 {
        Seq::empty()
    } else if starts_with(entries.last().key@, "rapina"@) {
        rapina_dep_names(entries.drop_last()).push(entries.last().key@)
    } else {
        rapina_dep_names(entries.drop_last())
    }
}

/// The line listing the Rapina crates among `entries`, when there are any.
pub open spec fn rapina_deps_line(entries: Seq<TomlEntry>) -> Seq<char> {
    let names = rapina_dep_names(entries);
    if names.len() == 0 {
        Seq::empty()
    } else {
        "- **rapina deps:** "@ + join(names, ", "@) + "\n"@
    }
}

/// The line giving the number of dependencies.
pub open spec fn total_line(count: nat) -> Seq<char> {
    "- **total dependencies:** "@ + decimal(count) + "\n"@
}

/// The Rapina-crates line (when there are any) and the dependency count line
/// of the `dependencies` table.
pub open spec fn dependency_summary(doc: TomlDocument) -> Seq<char> {
    match section_table(doc, "dependencies"@) {
        Some(d) => rapina_deps_line(d) + total_line(d.len()),
        None => Seq::empty(),
    }
}

/// The summary of a parsed `Cargo.toml`.
pub open spec fn cargo_summary_text(doc: TomlDocument) -> Seq<char> {
    package_summary(doc) + dependency_summary(doc)
}

/// The summary of the text of a `Cargo.toml`: empty where it does not parse.
pub open spec fn cargo_summary_of(content: Seq<char>) -> Seq<char> {
    match parsed_toml(content) {
        Some(doc) => cargo_summary_text(doc),
        None => Seq::empty(),
    }
}


/// The entries of the top-level table `key` of `doc`, if there is one.
fn lookup_table<'a>(doc: &'a TomlDocument, key: &str) -> (r: Option<&'a Vec<TomlEntry>>)
    ensures
        match r {
            Some(t) => section_table(*doc, key@) == Some(t@),
            None => section_table(*doc, key@) is None,
        },
{
    let secs = &doc.sections;
    let n = secs.len();
    let mut i: usize = 0;
    assert(secs@.skip(0) =~= secs@);
    while i < n
        invariant
            n == secs.len(),
            i <= n,
            secs == &doc.sections,
            find_section(secs@, key@) == find_section(secs@.skip(i as int), key@),
        decreases n - i,
    {
        assert(secs@.skip(i as int)[0] == secs@[i as int]);
        if str_eq(secs[i].key.as_str(), key) {
            return match &secs[i].table {
                Some(t) => Some(t),
                None => None,
            };
        }
        assert(secs@.skip(i as int).drop_first() =~= secs@.skip(i + 1));
        i = i + 1;
    }
    None
}

/// The string value of `key` among `entries`, if it has one.
fn lookup_text<'a>(entries: &'a Vec<TomlEntry>, key: &str) -> (r: Option<&'a String>)
    ensures
        match r {
            Some(t) => entry_text(entries@, key@) == Some(t@),
            None => entry_text(entries@, key@) is None,
        },
{
    let n = entries.len();
    let mut i: usize = 0;
    assert(entries@.skip(0) =~= entries@);
    while i < n
        invariant
            n == entries.len(),
            i <= n,
            find_entry(entries@, key@) == find_entry(entries@.skip(i as int), key@),
        decreases n - i,
    {
        assert(entries@.skip(i as int)[0] == entries@[i as int]);
        if str_eq(entries[i].key.as_str(), key) {
            return match &entries[i].text {
                Some(t) => Some(t),
                None => None,
            };
        }
        assert(entries@.skip(i as int).drop_first() =~= entries@.skip(i + 1));
        i = i + 1;
    }
    None
}

/// Appends `label`, `value` and a newline to `out` when there is a value.
fn push_field(out: &mut String, label: &str, value: Option<&String>)
    ensures
        final(out)@ == old(out)@ + field_line(
            label@,
            match value {
                Some(v) => Some(v@),
                None => None,
            },
        ),
{
    match value {
        Some(v) => {
            let ghost start = out@;
            out.append(label);
            out.append(v.as_str());
            out.append("\n");
            assert(out@ =~= start + (label@ + v@ + "\n"@));
        },
        None => {
            assert(out@ =~= old(out)@ + Seq::<char>::empty());
        },
    }
}

/// `parts` separated by `sep`.
pub fn join_strings(parts: &Vec<String>, sep: &str) -> (r: String)
    ensures
        r@ == join(string_views(parts@), sep@),
{
    let mut r = String::new();
    let n = parts.len();
    for i in 0..n
        invariant
            n == parts.len(),
            r@ == join(string_views(parts@).take(i as int), sep@),
    {
        let ghost pv = string_views(parts@);
        assert(pv.take(i + 1).drop_last() =~= pv.take(i as int));
        assert(pv.take(i + 1).last() == parts@[i as int]@);
        if i > 0 {
            r.append(sep);
        } else {
            assert(pv.take(1) =~= seq![pv[0]]);
        }
        r.append(parts[i].as_str());
    }
    assert(string_views(parts@).take(n as int) =~= string_views(parts@));
    r
}

/// The keys of `entries` that start with `rapina`, in order.
fn rapina_deps(entries: &Vec<TomlEntry>) -> (r: Vec<String>)
    ensures
        string_views(r@) == rapina_dep_names(entries@),
{
    let mut r: Vec<String> = Vec::new();
    let n = entries.len();
    for i in 0..n
        invariant
            n == entries.len(),
            string_views(r@) == rapina_dep_names(entries@.take(i as int)),
    {
        assert(entries@.take(i + 1).drop_last() =~= entries@.take(i as int));
        assert(entries@.take(i + 1).last() == entries@[i as int]);
        if has_prefix(entries[i].key.as_str(), "rapina") {
            let ghost before = r@;
            let key = entries[i].key.clone();
            r.push(key);
            assert(string_views(r@) =~= string_views(before).push(key@));
        }
    }
    assert(entries@.take(n as int) =~= entries@);
    r
}

/// The summary of a parsed `Cargo.toml`: a line for each of the package's
/// `name`, `version` and `edition` that is a string, then, when there is a
/// `dependencies` table, a line listing its keys that start with `rapina`
/// (if any) and a line with the number of its keys.
pub fn cargo_summary(doc: &TomlDocument) -> (r: String)
    ensures
        r@ == cargo_summary_text(*doc),
{
    let mut summary = String::new();
    match lookup_table(doc, "package") {
        Some(package) => {
            push_field(&mut summary, "- **name:** ", lookup_text(package, "name"));
            push_field(&mut summary, "- **version:** ", lookup_text(package, "version"));
            push_field(&mut summary, "- **edition:** ", lookup_text(package, "edition"));
            assert(summary@ =~= package_summary(*doc));
        },
        None => {},
    }
    let ghost after_package = summary@;
    match lookup_table(doc, "dependencies") {
        Some(deps) => {
            let names = rapina_deps(deps);
            if names.len() > 0 {
                summary.append("- **rapina deps:** ");
                let joined = join_strings(&names, ", ");
                summary.append(joined.as_str());
                summary.append("\n");
            }
            summary.append("- **total dependencies:** ");
            let count = decimal_string(deps.len());
            summary.append(count.as_str());
            summary.append("\n");
            assert(summary@ =~= after_package + dependency_summary(*doc));
        },
        None => {
            assert(summary@ =~= after_package + dependency_summary(*doc));
        },
    }
    summary
}

/// The summary of the text of a `Cargo.toml`; empty where the text is not a
/// TOML table.
pub fn extract_cargo_summary(content: &str) -> (r: String)
    ensures
        r@ == cargo_summary_of(content@),
{
    match parse_toml(content) {
        Ok(doc) => cargo_summary(&doc),
        Err(_) => String::new(),
    }
}


/// The Rapina crates reported are exactly the dependency keys that start
/// with `rapina`, in the table's order.
pub proof fn lemma_rapina_dep_names(entries: Seq<TomlEntry>)
    ensures
        forall|x: Seq<char>| #[trigger] rapina_dep_names(entries).contains(x) <==> (starts_with(
            x,
            "rapina"@,
        ) && exists|i: int| 0 <= i < entries.len() && entries[i].key@ == x),
    decreases entries.len(),
{
    if entries.len() > 0 {
        let d = entries.drop_last();
        lemma_rapina_dep_names(d);
        let r = rapina_dep_names(entries);
        let rd = rapina_dep_names(d);
        assert forall|x: Seq<char>| #[trigger] r.contains(x) <==> (starts_with(x, "rapina"@)
            && exists|i: int| 0 <= i < entries.len() && entries[i].key@ == x) by {
            if r.contains(x) {
                let k = choose|k: int| 0 <= k < r.len() && r[k] == x;
                if k < rd.len() {
                    assert(rd[k] == x);
                    assert(rd.contains(x));
                    let i = choose|i: int| 0 <= i < d.len() && d[i].key@ == x;
                    assert(entries[i] == d[i]);
                } else {
                    assert(entries[entries.len() - 1].key@ == x);
                }
            }
            if starts_with(x, "rapina"@) && exists|i: int|
                0 <= i < entries.len() && entries[i].key@ == x {
                let i = choose|i: int| 0 <= i < entries.len() && entries[i].key@ == x;
                if i < d.len() {
                    assert(d[i] == entries[i]);
                    assert(rd.contains(x));
                    let k = choose|k: int| 0 <= k < rd.len() && rd[k] == x;
                    assert(r[k] == x);
                } else {
                    assert(r[rd.len() as int] == x);
                }
            }
        }
    }
}


proof fn lemma_rapina_dep_names_skip(d: Seq<TomlEntry>, k: int, e: TomlEntry)
    requires
        0 <= k <= d.len(),
        !starts_with(e.key@, "rapina"@),
    ensures
        rapina_dep_names(d.insert(k, e)) == rapina_dep_names(d),
    decreases d.len(),
{
    let di = d.insert(k, e);
    if k == d.len() {
        assert(di.drop_last() =~= d);
    } else {
        assert(di.drop_last() =~= d.drop_last().insert(k, e));
        assert(di.last() == d.last());
        lemma_rapina_dep_names_skip(d.drop_last(), k, e);
    }
}

/// Adding a dependency whose key does not start with `rapina` leaves the
/// summary as it was except for its count line, which goes up by one.
pub proof fn lemma_non_rapina_dependency(
    doc1: TomlDocument,
    doc2: TomlDocument,
    d: Seq<TomlEntry>,
    k: int,
    e: TomlEntry,
)
    requires
        section_table(doc1, "dependencies"@) == Some(d),
        section_table(doc2, "dependencies"@) == Some(d.insert(k, e)),
        0 <= k <= d.len(),
        !starts_with(e.key@, "rapina"@),
        section_table(doc1, "package"@) == section_table(doc2, "package"@),
    ensures
        cargo_summary_text(doc1) == package_summary(doc1) + rapina_deps_line(d) + total_line(
            d.len(),
        ),
        cargo_summary_text(doc2) == package_summary(doc1) + rapina_deps_line(d) + total_line(
            d.len() + 1,
        ),
{
    lemma_rapina_dep_names_skip(d, k, e);
    assert(package_summary(doc2) == package_summary(doc1));
    assert(d.insert(k, e).len() == d.len() + 1);
    assert(cargo_summary_text(doc1) =~= package_summary(doc1) + rapina_deps_line(d) + total_line(
        d.len(),
    ));
    assert(cargo_summary_text(doc2) =~= package_summary(doc1) + rapina_deps_line(d) + total_line(
        d.len() + 1,
    ));
}


proof fn lemma_find_section_first(secs: Seq<TomlSection>, key: Seq<char>, k: int)
    requires
        0 <= k < secs.len(),
        secs[k].key@ == key,
        forall|m: int| 0 <= m < k ==> secs[m].key@ != key,
    ensures
        find_section(secs, key) == Some(secs[k]),
    decreases k,
{
    if k > 0 {
        assert(secs[0].key@ != key);
        let d = secs.drop_first();
        assert forall|m: int| 0 <= m < k - 1 implies d[m].key@ != key by {
            assert(d[m] == secs[m + 1]);
        }
        lemma_find_section_first(d, key, k - 1);
    }
}

proof fn lemma_find_entry_first(entries: Seq<TomlEntry>, key: Seq<char>, k: int)
    requires
        0 <= k < entries.len(),
        entries[k].key@ == key,
        forall|m: int| 0 <= m < k ==> entries[m].key@ != key,
    ensures
        find_entry(entries, key) == Some(entries[k]),
    decreases k,
{
    if k > 0 {
        assert(entries[0].key@ != key);
        let d = entries.drop_first();
        assert forall|m: int| 0 <= m < k - 1 implies d[m].key@ != key by {
            assert(d[m] == entries[m + 1]);
        }
        lemma_find_entry_first(d, key, k - 1);
    }
}

/// The first top-level key `package` of `doc` is its section `k`, which
/// holds a table whose first `field` key is its entry `j`, holding the string
/// `value`.
pub open spec fn package_entry_at(doc: TomlDocument, k: int, j: int, field: Seq<char>, value: Seq<char>) -> bool {
    &&& 0 <= k < doc.sections@.len()
    &&& doc.sections@[k].key@ == "package"@
    &&& forall|m: int| 0 <= m < k ==> doc.sections@[m].key@ != "package"@
    &&& doc.sections@[k].table is Some
    &&& 0 <= j < doc.sections@[k].table->0@.len()
    &&& doc.sections@[k].table->0@[j].key@ == field
    &&& forall|m: int| 0 <= m < j ==> doc.sections@[k].table->0@[m].key@ != field
    &&& doc.sections@[k].table->0@[j].text is Some
    &&& doc.sections@[k].table->0@[j].text->0@ == value
}

/// The package table of `doc` gives `field` as the string `value`.
pub open spec fn package_field_is(doc: TomlDocument, field: Seq<char>, value: Seq<char>) -> bool {
    exists|k: int, j: int| #[trigger] package_entry_at(doc, k, j, field, value)
}

proof fn lemma_package_field_line(doc: TomlDocument, field: Seq<char>, value: Seq<char>)
    requires
        package_field_is(doc, field, value),
    ensures
        section_table(doc, "package"@) is Some,
        entry_text(section_table(doc, "package"@)->0, field) == Some(value),
{
    let (k, j) = choose|k: int, j: int| #[trigger] package_entry_at(doc, k, j, field, value);
    lemma_find_section_first(doc.sections@, "package"@, k);
    let t = doc.sections@[k].table->0;
    lemma_find_entry_first(t@, field, j);
}

/// The summary shows the package's `name`, `version` and `edition`, each
/// on its own line, whenever the package table gives it as a string, whatever
/// the other keys hold.
pub proof fn lemma_summary_shows_package_fields(doc: TomlDocument, value: Seq<char>)
    ensures
        package_field_is(doc, "name"@, value) ==> contains_seq(
            cargo_summary_text(doc),
            "- **name:** "@ + value + "\n"@,
        ),
        package_field_is(doc, "version"@, value) ==> contains_seq(
            cargo_summary_text(doc),
            "- **version:** "@ + value + "\n"@,
        ),
        package_field_is(doc, "edition"@, value) ==> contains_seq(
            cargo_summary_text(doc),
            "- **edition:** "@ + value + "\n"@,
        ),
{
    let p = section_table(doc, "package"@);
    if package_field_is(doc, "name"@, value) || package_field_is(doc, "version"@, value)
        || package_field_is(doc, "edition"@, value) {
        if package_field_is(doc, "name"@, value) {
            lemma_package_field_line(doc, "name"@, value);
        }
        if package_field_is(doc, "version"@, value) {
            lemma_package_field_line(doc, "version"@, value);
        }
        if package_field_is(doc, "edition"@, value) {
            lemma_package_field_line(doc, "edition"@, value);
        }
        let t = p->0;
        let a = field_line("- **name:** "@, entry_text(t, "name"@));
        let b = field_line("- **version:** "@, entry_text(t, "version"@));
        let c = field_line("- **edition:** "@, entry_text(t, "edition"@));
        let rest = dependency_summary(doc);
        assert(cargo_summary_text(doc) == a + b + c + rest);
        lemma_contains_self(a);
        lemma_contains_self(b);
        lemma_contains_self(c);
        lemma_contains_extend(Seq::empty(), a, b + c + rest, a);
        assert(Seq::<char>::empty() + a + (b + c + rest) =~= a + b + c + rest);
        lemma_contains_extend(a, b, c + rest, b);
        assert(a + b + (c + rest) =~= a + b + c + rest);
        lemma_contains_extend(a + b, c, rest, c);
    }
}


/// Each part occurs in the parts joined.
proof fn lemma_join_holds(parts: Seq<Seq<char>>, sep: Seq<char>, k: int)
    requires
        0 <= k < parts.len(),
    ensures
        contains_seq(join(parts, sep), parts[k]),
    decreases parts.len(),
{
    if parts.len() == 1 {
        lemma_contains_self(parts[0]);
    } else {
        let d = parts.drop_last();
        let a = join(d, sep);
        let x = parts[k];
        if k == parts.len() - 1 {
            lemma_contains_self(x);
            lemma_contains_extend(a + sep, x, Seq::empty(), x);
            assert(a + sep + x + Seq::<char>::empty() =~= a + sep + x);
        } else {
            assert(d[k] == x);
            lemma_join_holds(d, sep, k);
            lemma_contains_extend(Seq::empty(), a, sep + parts.last(), x);
            assert(Seq::<char>::empty() + a + (sep + parts.last()) =~= a + sep + parts.last());
        }
    }
}

/// The first top-level key `dependencies` of `doc` is its section `k`, which
/// holds a table.
pub open spec fn dependencies_at(doc: TomlDocument, k: int) -> bool {
    &&& 0 <= k < doc.sections@.len()
    &&& doc.sections@[k].key@ == "dependencies"@
    &&& forall|m: int| 0 <= m < k ==> doc.sections@[m].key@ != "dependencies"@
    &&& doc.sections@[k].table is Some
}

/// The summary counts every key of the dependencies table, and when some
/// key starts with `rapina` it has a Rapina-crates line and names each such
/// key.
pub proof fn lemma_summary_shows_dependencies(doc: TomlDocument, k: int)
    requires
        dependencies_at(doc, k),
    ensures
        contains_seq(
            cargo_summary_text(doc),
            "- **total dependencies:** "@ + decimal(doc.sections@[k].table->0@.len()) + "\n"@,
        ),
        forall|e: int|
            0 <= e < doc.sections@[k].table->0@.len() && starts_with(
                (#[trigger] doc.sections@[k].table->0@[e]).key@,
                "rapina"@,
            ) ==> contains_seq(cargo_summary_text(doc), "- **rapina deps:** "@) && contains_seq(
                cargo_summary_text(doc),
                doc.sections@[k].table->0@[e].key@,
            ),
{
    lemma_find_section_first(doc.sections@, "dependencies"@, k);
    let t = doc.sections@[k].table->0@;
    assert(section_table(doc, "dependencies"@) == Some(t));
    let ps = package_summary(doc);
    let rl = rapina_deps_line(t);
    let tl = total_line(t.len());
    assert(cargo_summary_text(doc) == ps + rl + tl);
    lemma_contains_self(tl);
    lemma_contains_extend(ps + rl, tl, Seq::empty(), tl);
    assert(ps + rl + tl + Seq::<char>::empty() =~= ps + rl + tl);
    lemma_rapina_dep_names(t);
    let names = rapina_dep_names(t);
    assert forall|e: int|
        0 <= e < t.len() && starts_with((#[trigger] t[e]).key@, "rapina"@) implies contains_seq(
        cargo_summary_text(doc),
        "- **rapina deps:** "@,
    ) && contains_seq(cargo_summary_text(doc), t[e].key@) by {
        let key = t[e].key@;
        assert(names.contains(key));
        let j = choose|j: int| 0 <= j < names.len() && names[j] == key;
        let head = "- **rapina deps:** "@;
        let jn = join(names, ", "@);
        assert(rl == head + jn + "\n"@);
        lemma_join_holds(names, ", "@, j);
        lemma_contains_extend(head, jn, "\n"@, key);
        lemma_contains_extend(ps, rl, tl, key);
        lemma_contains_self(head);
        lemma_contains_extend(Seq::empty(), head, jn + "\n"@, head);
        assert(Seq::<char>::empty() + head + (jn + "\n"@) =~= rl);
        lemma_contains_extend(ps, rl, tl, head);
    }
}

} // verus!
