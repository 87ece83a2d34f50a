//! What a project's Rust sources and `.env` file say about its routes and its
//! authentication: route attributes (`#[get("/path")]` and the like),
//! `#[public]` markers, calls of `with_auth(`, and a `JWT_SECRET=` setting.
use crate::order::{byte_views, index_views, lemma_sort_order_is_stable_sort, name_order, sort_order};
use crate::text::{
    chars_of, contains_seq, decimal, decimal_string, has_suffix, ends_with, lemma_contains_extend,
    lemma_contains_self, starts_with,
};
use crate::tree::utf8_keys;
use vstd::prelude::*;

verus! {

/// A Rust source file of the project: its path and its text.
#[derive(Debug)]
pub struct SourceFile {
    pub path: String,
    pub text: String,
}

/// The lines of `t`, split at each newline (the newlines dropped; the text
/// after the last newline is the last line, empty when `t` ends in one).
pub open spec fn split_lines(t: Seq<char>) -> Seq<Seq<char>>
    decreases t.len(),
{
    if t.len() == 0 {
        seq![Seq::empty()]
    } else {
        let p = split_lines(t.drop_last());
        if t.last() == '\n' {
            p.push(Seq::empty())
        } else {
            p.update(p.len() - 1, p.last().push(t.last()))
        }
    }
}

/// `l` without its leading spaces and tabs.
pub open spec fn trim_start(l: Seq<char>) -> Seq<char>
    decreases l.len(),
{
    if l.len() > 0 && (l[0] == ' ' || l[0] == '\t') {
        trim_start(l.drop_first())
    } else {
        l
    }
}

/// `q` is the position of the first double quote in `s`.
pub open spec fn is_first_quote(s: Seq<char>, q: int) -> bool {
    &&& 0 <= q < s.len()
    &&& s[q] == '"'
    &&& forall|m: int| 0 <= m < q ==> s[m] != '"'
}

/// The text of `s` before its first double quote, if it has one.
pub open spec fn quoted(s: Seq<char>) -> Option<Seq<char>> {
    if exists|q: int| is_first_quote(s, q) {
        Some(s.take(choose|q: int| is_first_quote(s, q)))
    } else {
        None
    }
}

/// The quoted path of the attribute `attr` (such as `#[get("`) that `t`
/// starts with.
pub open spec fn attribute_path(t: Seq<char>, attr: Seq<char>) -> Option<Seq<char>> {
    if starts_with(t, attr) {
        quoted(t.skip(attr.len() as int))
    } else {
        None
    }
}

/// The method and path of the route attribute that `t` starts with, if any.
pub open spec fn route_in(t: Seq<char>) -> Option<(Seq<char>, Seq<char>)> {
    match attribute_path(t, "#[get(\""@) {
        Some(p) => Some(("GET"@, p)),
        None => match attribute_path(t, "#[post(\""@) {
            Some(p) => Some(("POST"@, p)),
            None => match attribute_path(t, "#[put(\""@) {
                Some(p) => Some(("PUT"@, p)),
                None => match attribute_path(t, "#[patch(\""@) {
                    Some(p) => Some(("PATCH"@, p)),
                    None => match attribute_path(t, "#[delete(\""@) {
                        Some(p) => Some(("DELETE"@, p)),
                        None => None,
                    },
                },
            },
        },
    }
}

/// The route item for one line of the file `file`: `- METHOD /path (file)`.
pub open spec fn route_item(line: Seq<char>, file: Seq<char>) -> Seq<char> {
    match route_in(trim_start(line)) {
        Some((method, path)) => "- "@ + method + " "@ + path + " ("@ + file + ")\n"@,
        None => Seq::empty(),
    }
}

/// The route items of the lines of `file`, in order.
pub open spec fn file_routes(lines: Seq<Seq<char>>, file: Seq<char>) -> Seq<char>
    decreases lines.len(),
{
    if lines.len() == 0 {
        Seq::empty()
    } else {
        file_routes(lines.drop_last(), file) + route_item(lines.last(), file)
    }
}

/// The line is a `#[public]` marker.
pub open spec fn is_public_line(line: Seq<char>) -> bool {
    starts_with(trim_start(line), "#[public]"@)
}

/// The number of `#[public]` markers among `lines`.
pub open spec fn public_lines(lines: Seq<Seq<char>>) -> nat
    decreases lines.len(),
{
    if lines.len() == 0 {
        0
    } else {
        public_lines(lines.drop_last()) + if is_public_line(lines.last()) {
            1nat
        } else {
            0nat
        }
    }
}

/// The line calls `with_auth(`.
pub open spec fn is_auth_line(line: Seq<char>) -> bool {
    contains_seq(line, "with_auth("@)
}

/// Some line of `lines` calls `with_auth(`.
pub open spec fn auth_lines(lines: Seq<Seq<char>>) -> bool
    decreases lines.len(),
{
    lines.len() > 0 && (auth_lines(lines.drop_last()) || is_auth_line(lines.last()))
}

/// The line sets `JWT_SECRET`.
pub open spec fn is_jwt_line(line: Seq<char>) -> bool {
    starts_with(trim_start(line), "JWT_SECRET="@)
}

/// Some line of `lines` sets `JWT_SECRET`.
pub open spec fn jwt_lines(lines: Seq<Seq<char>>) -> bool
    decreases lines.len(),
{
    lines.len() > 0 && (jwt_lines(lines.drop_last()) || is_jwt_line(lines.last()))
}


/// The position after the leading spaces and tabs of `cs[from..to]`.
fn skip_blanks(cs: &Vec<char>, from: usize, to: usize) -> (j: usize)
    requires
        from <= to <= cs.len(),
    ensures
        from <= j <= to,
        trim_start(cs@.subrange(from as int, to as int)) == cs@.subrange(j as int, to as int),
{
    let mut j = from;
    while j < to && (cs[j] == ' ' || cs[j] == '\t')
        invariant
            from <= j <= to <= cs.len(),
            trim_start(cs@.subrange(from as int, to as int)) == trim_start(
                cs@.subrange(j as int, to as int),
            ),
        decreases to - j,
    {
        assert(cs@.subrange(j as int, to as int).drop_first() =~= cs@.subrange(j + 1, to as int));
        j = j + 1;
    }
    j
}

/// Whether `cs[from..to]` begins with `p`.
fn chars_start_with(cs: &Vec<char>, from: usize, to: usize, p: &str) -> (r: bool)
    requires
        from <= to <= cs.len(),
    ensures
        r == starts_with(cs@.subrange(from as int, to as int), p@),
{
    let m = p.unicode_len();
    if m > to - from {
        return false;
    }
    let mut k: usize = 0;
    while k < m
        invariant
            from <= to <= cs.len(),
            m == p@.len(),
            m <= to - from,
            k <= m,
            forall|i: int| 0 <= i < k ==> cs@[from + i] == p@[i],
        decreases m - k,
    {
        if cs[from + k] != p.get_char(k) {
            assert(cs@.subrange(from as int, to as int).subrange(0, m as int)[k as int] != p@[k as int]);
            return false;
        }
        k = k + 1;
    }
    assert(cs@.subrange(from as int, to as int).subrange(0, m as int) =~= p@);
    true
}

/// Whether `p` occurs in `cs[from..to]`.
fn chars_contain(cs: &Vec<char>, from: usize, to: usize, p: &str) -> (r: bool)
    requires
        from <= to <= cs.len(),
    ensures
        r == contains_seq(cs@.subrange(from as int, to as int), p@),
{
    let ghost line = cs@.subrange(from as int, to as int);
    let m = p.unicode_len();
    if m == 0 {
        assert(line.subrange(0, 0int + p@.len()) =~= p@);
        return true;
    }
    let mut i = from;
    while i < to && m <= to - i
        invariant
            from <= i <= to <= cs.len(),
            m == p@.len(),
            m > 0,
            line == cs@.subrange(from as int, to as int),
            forall|k: int| 0 <= k < i - from && k + m <= line.len() ==> #[trigger] line.subrange(k, k + m) != p@,
        decreases to - i,
    {
        let found = chars_start_with(cs, i, to, p);
        assert(cs@.subrange(i as int, to as int).subrange(0, m as int) =~= line.subrange(i - from, i - from + m));
        if found {
            assert(line.subrange(i - from, i - from + p@.len()) == p@);
            return true;
        }
        i = i + 1;
    }
    assert forall|k: int| 0 <= k && k + m <= line.len() implies #[trigger] line.subrange(k, k + m) != p@ by {
        assert(k < i - from);
    }
    false
}

proof fn lemma_first_quote_unique(s: Seq<char>, a: int, b: int)
    requires
        is_first_quote(s, a),
        is_first_quote(s, b),
    ensures
        a == b,
{
    if a < b {
        assert(s[a] == '"');
    } else if b < a {
        assert(s[b] == '"');
    }
}

/// The position of the first double quote in `cs[from..to]`, if any.
fn find_quote(cs: &Vec<char>, from: usize, to: usize) -> (r: Option<usize>)
    requires
        from <= to <= cs.len(),
    ensures
        match r {
            Some(q) => from <= q < to && quoted(cs@.subrange(from as int, to as int)) == Some(
                cs@.subrange(from as int, q as int),
            ),
            None => quoted(cs@.subrange(from as int, to as int)) is None,
        },
{
    let ghost s = cs@.subrange(from as int, to as int);
    let mut q = from;
    while q < to
        invariant
            from <= q <= to <= cs.len(),
            s == cs@.subrange(from as int, to as int),
            forall|m: int| 0 <= m < q - from ==> s[m] != '"',
        decreases to - q,
    {
        if cs[q] == '"' {
            proof {
                let k = q - from;
                assert(is_first_quote(s, k));
                let c = choose|c: int| is_first_quote(s, c);
                lemma_first_quote_unique(s, k, c);
                assert(s.take(k) =~= cs@.subrange(from as int, q as int));
            }
            return Some(q);
        }
        q = q + 1;
    }
    assert(!exists|k: int| is_first_quote(s, k));
    None
}


/// The character range of the quoted path of the attribute `attr` that
/// `cs[j..to]` starts with.
fn attribute_path_at(cs: &Vec<char>, j: usize, to: usize, attr: &str) -> (r: Option<(usize, usize)>)
    requires
        j <= to <= cs.len(),
    ensures
        match r {
            Some((a, q)) => j <= a <= q <= to && attribute_path(
                cs@.subrange(j as int, to as int),
                attr@,
            ) == Some(cs@.subrange(a as int, q as int)),
            None => attribute_path(cs@.subrange(j as int, to as int), attr@) is None,
        },
{
    if !chars_start_with(cs, j, to, attr) {
        return None;
    }
    let a = j + attr.unicode_len();
    assert(cs@.subrange(j as int, to as int).skip(attr@.len() as int) =~= cs@.subrange(a as int, to as int));
    match find_quote(cs, a, to) {
        Some(q) => Some((a, q)),
        None => None,
    }
}

/// The method and path range of the route attribute that `cs[j..to]` starts
/// with, if any.
fn route_at(cs: &Vec<char>, j: usize, to: usize) -> (r: Option<(&'static str, usize, usize)>)
    requires
        j <= to <= cs.len(),
    ensures
        match r {
            Some((m, a, q)) => a <= q <= to && route_in(cs@.subrange(j as int, to as int)) == Some(
                (m@, cs@.subrange(a as int, q as int)),
            ),
            None => route_in(cs@.subrange(j as int, to as int)) is None,
        },
{
    if let Some((a, q)) = attribute_path_at(cs, j, to, "#[get(\"") {
        return Some(("GET", a, q));
    }
    if let Some((a, q)) = attribute_path_at(cs, j, to, "#[post(\"") {
        return Some(("POST", a, q));
    }
    if let Some((a, q)) = attribute_path_at(cs, j, to, "#[put(\"") {
        return Some(("PUT", a, q));
    }
    if let Some((a, q)) = attribute_path_at(cs, j, to, "#[patch(\"") {
        return Some(("PATCH", a, q));
    }
    if let Some((a, q)) = attribute_path_at(cs, j, to, "#[delete(\"") {
        return Some(("DELETE", a, q));
    }
    None
}

/// The facts of one line `cs[from..to]` of `text` (whose characters are
/// `cs`): its route item is appended to `out`, and whether it is a
/// `#[public]` marker, calls `with_auth(`, and sets `JWT_SECRET` is returned.
fn scan_line(cs: &Vec<char>, from: usize, to: usize, text: &str, file: &str, out: &mut String) -> (r: (
    bool,
    bool,
    bool,
))
    requires
        from <= to <= cs.len(),
        cs@ == text@,
    ensures
        final(out)@ == old(out)@ + route_item(cs@.subrange(from as int, to as int), file@),
        r.0 == is_public_line(cs@.subrange(from as int, to as int)),
        r.1 == is_auth_line(cs@.subrange(from as int, to as int)),
        r.2 == is_jwt_line(cs@.subrange(from as int, to as int)),
{
    let j = skip_blanks(cs, from, to);
    match route_at(cs, j, to) {
        Some((m, a, q)) => {
            let ghost start = out@;
            out.append("- ");
            out.append(m);
            out.append(" ");
            out.append(text.substring_char(a, q));
            out.append(" (");
            out.append(file);
            out.append(")\n");
            assert(out@ =~= start + ("- "@ + m@ + " "@ + cs@.subrange(a as int, q as int) + " ("@
                + file@ + ")\n"@));
        },
        None => {
            assert(out@ =~= old(out)@ + Seq::<char>::empty());
        },
    }
    let public = chars_start_with(cs, j, to, "#[public]");
    let auth = chars_contain(cs, from, to, "with_auth(");
    let jwt = chars_start_with(cs, j, to, "JWT_SECRET=");
    (public, auth, jwt)
}

/// `n`, or the largest `usize` where `n` is larger.
pub open spec fn capped(n: nat) -> nat {
    if n > usize::MAX {
        usize::MAX as nat
    } else {
        n
    }
}

/// What one text says: its route items, its number of `#[public]` markers
/// (capped at the largest `usize`), whether it calls `with_auth(`, and
/// whether it sets `JWT_SECRET`.
#[derive(Debug)]
pub struct TextScan {
    pub routes: String,
    pub public: usize,
    pub auth: bool,
    pub jwt: bool,
}

/// Scans the lines of `text`, the file `file`.
pub fn scan_text(text: &str, file: &str) -> (r: TextScan)
    ensures
        r.routes@ == file_routes(split_lines(text@), file@),
        r.public as nat == capped(public_lines(split_lines(text@))),
        r.auth == auth_lines(split_lines(text@)),
        r.jwt == jwt_lines(split_lines(text@)),
{
    let cs = chars_of(text);
    let ghost t = cs@;
    let n = cs.len();
    let mut routes = String::new();
    let mut public: usize = 0;
    let mut auth = false;
    let mut jwt = false;
    let mut ls: usize = 0;
    let mut i: usize = 0;
    assert(t.take(0) =~= Seq::<char>::empty());
    assert(t.subrange(0, 0) =~= Seq::<char>::empty());
    while i < n
        invariant
            n == cs.len(),
            t == cs@,
            t == text@,
            ls <= i <= n,
            split_lines(t.take(i as int)).len() >= 1,
            split_lines(t.take(i as int)).last() == t.subrange(ls as int, i as int),
            routes@ == file_routes(split_lines(t.take(i as int)).drop_last(), file@),
            public as nat == capped(public_lines(split_lines(t.take(i as int)).drop_last())),
            auth == auth_lines(split_lines(t.take(i as int)).drop_last()),
            jwt == jwt_lines(split_lines(t.take(i as int)).drop_last()),
        decreases n - i,
    {
        let ghost p = split_lines(t.take(i as int));
        assert(t.take(i + 1).drop_last() =~= t.take(i as int));
        assert(t.take(i + 1).last() == t[i as int]);
        if cs[i] == '\n' {
            let flags = scan_line(&cs, ls, i, text, file, &mut routes);
            if flags.0 && public < usize::MAX {
                public = public + 1;
            }
            auth = auth || flags.1;
            jwt = jwt || flags.2;
            proof {
                let np = split_lines(t.take(i + 1));
                assert(np == p.push(Seq::empty()));
                assert(np.drop_last() =~= p.drop_last().push(p.last()));
                assert(np.drop_last().drop_last() =~= p.drop_last());
                assert(t.subrange(i + 1, i + 1) =~= Seq::<char>::empty());
            }
            ls = i + 1;
        } else {
            proof {
                let np = split_lines(t.take(i + 1));
                assert(np == p.update(p.len() - 1, p.last().push(t[i as int])));
                assert(np.drop_last() =~= p.drop_last());
                assert(np.last() =~= t.subrange(ls as int, i + 1));
            }
        }
        i = i + 1;
    }
    assert(t.take(n as int) =~= t);
    let ghost lines = split_lines(t);
    let flags = scan_line(&cs, ls, n, text, file, &mut routes);
    if flags.0 && public < usize::MAX {
        public = public + 1;
    }
    auth = auth || flags.1;
    jwt = jwt || flags.2;
    proof {
        assert(lines =~= lines.drop_last().push(lines.last()));
    }
    TextScan { routes, public, auth, jwt }
}


/// A file is read as Rust source when its name ends in `.rs`.
pub fn is_source_file(name: &str) -> (r: bool)
    ensures
        r == ends_with(name@, ".rs"@),
{
    has_suffix(name, ".rs")
}

/// The paths of `fs`.
pub open spec fn source_paths(fs: Seq<SourceFile>) -> Seq<Seq<char>> {
    fs.map_values(|f: SourceFile| f.path@)
}

/// `fs` in the order of their paths' UTF-8 bytes.
pub open spec fn sorted_sources(fs: Seq<SourceFile>) -> Seq<SourceFile> {
    sort_order(utf8_keys(source_paths(fs))).map_values(|k: int| fs[k])
}

/// The route items of the files `fs`, file by file.
pub open spec fn routes_text(fs: Seq<SourceFile>) -> Seq<char>
    decreases fs.len(),
{
    if fs.len() == 0 {
        Seq::empty()
    } else {
        routes_text(fs.drop_last()) + file_routes(split_lines(fs.last().text@), fs.last().path@)
    }
}

/// The number of `#[public]` markers in the files `fs`.
pub open spec fn public_total(fs: Seq<SourceFile>) -> nat
    decreases fs.len(),
{
    if fs.len() == 0 {
        0
    } else {
        public_total(fs.drop_last()) + public_lines(split_lines(fs.last().text@))
    }
}

/// Some file of `fs` calls `with_auth(`.
pub open spec fn auth_total(fs: Seq<SourceFile>) -> bool
    decreases fs.len(),
{
    fs.len() > 0 && (auth_total(fs.drop_last()) || auth_lines(split_lines(fs.last().text@)))
}

/// What the sources say, together: their route items (files in path order),
/// their `#[public]` markers (capped at the largest `usize`), and whether any
/// calls `with_auth(`.
#[derive(Debug)]
pub struct SourcesScan {
    pub routes: String,
    pub public: usize,
    pub auth: bool,
}

/// Scans every source file, in path order.
pub fn scan_sources(fs: &Vec<SourceFile>) -> (r: SourcesScan)
    ensures
        r.routes@ == routes_text(sorted_sources(fs@)),
        r.public as nat == capped(public_total(sorted_sources(fs@))),
        r.auth == auth_total(sorted_sources(fs@)),
{
    let ghost paths = source_paths(fs@);
    let mut keys: Vec<&[u8]> = Vec::new();
    let m = fs.len();
    for i in 0..m
        invariant
            m == fs.len(),
            paths == source_paths(fs@),
            byte_views(keys@) == utf8_keys(paths).take(i as int),
    {
        let ghost before = keys@;
        let key = fs[i].path.as_str().as_bytes();
        keys.push(key);
        assert(byte_views(keys@) =~= byte_views(before).push(key@));
        assert(utf8_keys(paths).take(i + 1) =~= utf8_keys(paths).take(i as int).push(
            vstd::utf8::encode_utf8(paths[i as int]),
        ));
    }
    assert(utf8_keys(paths).take(m as int) =~= utf8_keys(paths));
    let ord = name_order(&keys);
    let ghost o = index_views(ord@);
    let ghost sorted = sorted_sources(fs@);
    proof {
        lemma_sort_order_is_stable_sort(utf8_keys(paths));
    }
    let mut routes = String::new();
    let mut public: usize = 0;
    let mut auth = false;
    let n = ord.len();
    assert(sorted.take(0) =~= Seq::<SourceFile>::empty());
    for k in 0..n
        invariant
            n == ord.len(),
            m == fs.len(),
            paths == source_paths(fs@),
            o == index_views(ord@),
            o == sort_order(utf8_keys(paths)),
            o.len() == m,
            forall|y: int| #[trigger] o.contains(y) <==> 0 <= y < m,
            sorted == sorted_sources(fs@),
            sorted.len() == n,
            routes@ == routes_text(sorted.take(k as int)),
            public as nat == capped(public_total(sorted.take(k as int))),
            auth == auth_total(sorted.take(k as int)),
    {
        let idx = ord[k];
        assert(o[k as int] == idx as int);
        assert(o.contains(o[k as int]));
        let f = &fs[idx];
        assert(sorted[k as int] == fs@[idx as int]);
        assert(sorted.take(k + 1).drop_last() =~= sorted.take(k as int));
        assert(sorted.take(k + 1).last() == fs@[idx as int]);
        let scan = scan_text(f.text.as_str(), f.path.as_str());
        routes.append(scan.routes.as_str());
        if scan.public > usize::MAX - public {
            public = usize::MAX;
        } else {
            public = public + scan.public;
        }
        auth = auth || scan.auth;
    }
    assert(sorted.take(n as int) =~= sorted);
    SourcesScan { routes, public, auth }
}

/// The routes section: each route item, or a note that there are none.
pub open spec fn routes_section(fs: Seq<SourceFile>) -> Seq<char> {
    let routes = routes_text(sorted_sources(fs));
    "## Routes\n\n"@ + if routes.len() == 0 {
        "No routes detected.\n\n"@
    } else {
        routes + "\n"@
    }
}

/// The `.env` file sets `JWT_SECRET`.
pub open spec fn env_sets_jwt(env: Option<String>) -> bool {
    match env {
        Some(t) => jwt_lines(split_lines(t@)),
        None => false,
    }
}

/// The authentication section: whether the sources install the auth
/// middleware (`with_auth(`), how many routes they mark `#[public]`, and
/// whether `.env` sets `JWT_SECRET`.
pub open spec fn auth_section(fs: Seq<SourceFile>, env: Option<String>) -> Seq<char> {
    "## Auth Configuration\n\n"@ + "- **auth middleware:** "@ + (if auth_total(sorted_sources(fs)) {
        "enabled"@
    } else {
        "not found"@
    }) + "\n"@ + "- **public routes:** "@ + decimal(capped(public_total(sorted_sources(fs))))
        + "\n"@ + "- **JWT_SECRET:** "@ + (if env_sets_jwt(env) {
        "set in .env"@
    } else {
        "not set in .env"@
    }) + "\n\n"@
}

/// Appends the routes section, from the scan of the sources `fs`.
pub(crate) fn push_routes_section(out: &mut String, scan: &SourcesScan, fs: &Vec<SourceFile>)
    requires
        scan.routes@ == routes_text(sorted_sources(fs@)),
    ensures
        final(out)@ == old(out)@ + routes_section(fs@),
{
    out.append("## Routes\n\n");
    if scan.routes.unicode_len() == 0 {
        out.append("No routes detected.\n\n");
    } else {
        out.append(scan.routes.as_str());
        out.append("\n");
    }
    assert(out@ =~= old(out)@ + routes_section(fs@));
}

/// Appends the authentication section, from the scan of the sources `fs` and
/// the text of `.env`.
pub(crate) fn push_auth_section(out: &mut String, scan: &SourcesScan, fs: &Vec<SourceFile>, env: &Option<String>)
    requires
        scan.public as nat == capped(public_total(sorted_sources(fs@))),
        scan.auth == auth_total(sorted_sources(fs@)),
    ensures
        final(out)@ == old(out)@ + auth_section(fs@, *env),
{
    out.append("## Auth Configuration\n\n");
    out.append("- **auth middleware:** ");
    if scan.auth {
        out.append("enabled");
    } else {
        out.append("not found");
    }
    out.append("\n");
    out.append("- **public routes:** ");
    let count = decimal_string(scan.public);
    out.append(count.as_str());
    out.append("\n");
    out.append("- **JWT_SECRET:** ");
    let jwt = match env {
        Some(text) => scan_text(text.as_str(), "").jwt,
        None => false,
    };
    if jwt {
        out.append("set in .env");
    } else {
        out.append("not set in .env");
    }
    out.append("\n\n");
    assert(out@ =~= old(out)@ + auth_section(fs@, *env));
}


proof fn lemma_auth_lines_some(lines: Seq<Seq<char>>, j: int)
    requires
        0 <= j < lines.len(),
        is_auth_line(lines[j]),
    ensures
        auth_lines(lines),
    decreases lines.len(),
{
    if j < lines.len() - 1 {
        assert(lines.drop_last()[j] == lines[j]);
        lemma_auth_lines_some(lines.drop_last(), j);
    }
}

proof fn lemma_auth_lines_none(lines: Seq<Seq<char>>)
    requires
        forall|j: int| 0 <= j < lines.len() ==> !is_auth_line(#[trigger] lines[j]),
    ensures
        !auth_lines(lines),
    decreases lines.len(),
{
    if lines.len() > 0 {
        let d = lines.drop_last();
        assert forall|j: int| 0 <= j < d.len() implies !is_auth_line(#[trigger] d[j]) by {
            assert(d[j] == lines[j]);
        }
        lemma_auth_lines_none(d);
        assert(!is_auth_line(lines[lines.len() - 1]));
    }
}

proof fn lemma_jwt_lines_some(lines: Seq<Seq<char>>, j: int)
    requires
        0 <= j < lines.len(),
        is_jwt_line(lines[j]),
    ensures
        jwt_lines(lines),
    decreases lines.len(),
{
    if j < lines.len() - 1 {
        assert(lines.drop_last()[j] == lines[j]);
        lemma_jwt_lines_some(lines.drop_last(), j);
    }
}

proof fn lemma_jwt_lines_none(lines: Seq<Seq<char>>)
    requires
        forall|j: int| 0 <= j < lines.len() ==> !is_jwt_line(#[trigger] lines[j]),
    ensures
        !jwt_lines(lines),
    decreases lines.len(),
{
    if lines.len() > 0 {
        let d = lines.drop_last();
        assert forall|j: int| 0 <= j < d.len() implies !is_jwt_line(#[trigger] d[j]) by {
            assert(d[j] == lines[j]);
        }
        lemma_jwt_lines_none(d);
        assert(!is_jwt_line(lines[lines.len() - 1]));
    }
}

proof fn lemma_auth_total_some(fs: Seq<SourceFile>, i: int)
    requires
        0 <= i < fs.len(),
        auth_lines(split_lines(fs[i].text@)),
    ensures
        auth_total(fs),
    decreases fs.len(),
{
    if i < fs.len() - 1 {
        assert(fs.drop_last()[i] == fs[i]);
        lemma_auth_total_some(fs.drop_last(), i);
    }
}

proof fn lemma_auth_total_none(fs: Seq<SourceFile>)
    requires
        forall|i: int| 0 <= i < fs.len() ==> !auth_lines(split_lines((#[trigger] fs[i]).text@)),
    ensures
        !auth_total(fs),
    decreases fs.len(),
{
    if fs.len() > 0 {
        let d = fs.drop_last();
        assert forall|i: int| 0 <= i < d.len() implies !auth_lines(split_lines((#[trigger] d[i]).text@)) by {
            assert(d[i] == fs[i]);
        }
        lemma_auth_total_none(d);
        assert(!auth_lines(split_lines(fs[fs.len() - 1].text@)));
    }
}

/// Sorting the files by path keeps every file: `fs[i]` is found at some
/// place `k` of the sorted files.
proof fn lemma_sorted_sources_has(fs: Seq<SourceFile>, i: int) -> (k: int)
    requires
        0 <= i < fs.len(),
    ensures
        0 <= k < sorted_sources(fs).len(),
        sorted_sources(fs)[k] == fs[i],
{
    let keys = utf8_keys(source_paths(fs));
    let o = sort_order(keys);
    lemma_sort_order_is_stable_sort(keys);
    assert(o.contains(i));
    choose|k: int| 0 <= k < o.len() && o[k] == i
}

/// Sorting the files by path adds none: the sorted file at `k` is `fs[i]`
/// for some `i`.
proof fn lemma_sorted_sources_from(fs: Seq<SourceFile>, k: int) -> (i: int)
    requires
        0 <= k < sorted_sources(fs).len(),
    ensures
        0 <= i < fs.len(),
        sorted_sources(fs)[k] == fs[i],
{
    let keys = utf8_keys(source_paths(fs));
    let o = sort_order(keys);
    lemma_sort_order_is_stable_sort(keys);
    assert(o.contains(o[k]));
    o[k]
}

/// The authentication section reports the auth middleware as enabled when
/// some line of some source file calls `with_auth(`, and as not found when
/// none does; it reports `JWT_SECRET` as set when some line of `.env` starts,
/// after blanks, with `JWT_SECRET=`, and as not set otherwise.
pub proof fn lemma_auth_section_reports(fs: Seq<SourceFile>, env: Option<String>)
    ensures
        (exists|i: int, j: int|
            0 <= i < fs.len() && 0 <= j < split_lines(fs[i].text@).len() && contains_seq(
                #[trigger] split_lines(fs[i].text@)[j],
                "with_auth("@,
            )) ==> contains_seq(
            auth_section(fs, env),
            "- **auth middleware:** "@ + "enabled"@ + "\n"@,
        ),
        !(exists|i: int, j: int|
            0 <= i < fs.len() && 0 <= j < split_lines(fs[i].text@).len() && contains_seq(
                #[trigger] split_lines(fs[i].text@)[j],
                "with_auth("@,
            )) ==> contains_seq(
            auth_section(fs, env),
            "- **auth middleware:** "@ + "not found"@ + "\n"@,
        ),
        (env is Some && exists|j: int|
            0 <= j < split_lines(env->0@).len() && starts_with(
                trim_start(#[trigger] split_lines(env->0@)[j]),
                "JWT_SECRET="@,
            )) ==> contains_seq(auth_section(fs, env), "- **JWT_SECRET:** "@ + "set in .env"@ + "\n"@),
        !(env is Some && exists|j: int|
            0 <= j < split_lines(env->0@).len() && starts_with(
                trim_start(#[trigger] split_lines(env->0@)[j]),
                "JWT_SECRET="@,
            )) ==> contains_seq(
            auth_section(fs, env),
            "- **JWT_SECRET:** "@ + "not set in .env"@ + "\n"@,
        ),
{
    let sorted = sorted_sources(fs);
    if exists|i: int, j: int|
        0 <= i < fs.len() && 0 <= j < split_lines(fs[i].text@).len() && contains_seq(
            #[trigger] split_lines(fs[i].text@)[j],
            "with_auth("@,
        ) {
        let (i, j) = choose|i: int, j: int|
            0 <= i < fs.len() && 0 <= j < split_lines(fs[i].text@).len() && contains_seq(
                #[trigger] split_lines(fs[i].text@)[j],
                "with_auth("@,
            );
        lemma_auth_lines_some(split_lines(fs[i].text@), j);
        let k = lemma_sorted_sources_has(fs, i);
        lemma_auth_total_some(sorted, k);
    } else {
        assert forall|k: int| 0 <= k < sorted.len() implies !auth_lines(
            split_lines((#[trigger] sorted[k]).text@),
        ) by {
            let i = lemma_sorted_sources_from(fs, k);
            let lines = split_lines(fs[i].text@);
            assert forall|j: int| 0 <= j < lines.len() implies !is_auth_line(#[trigger] lines[j]) by {
                assert(split_lines(fs[i].text@)[j] == lines[j]);
            }
            lemma_auth_lines_none(lines);
        }
        lemma_auth_total_none(sorted);
    }
    if env is Some && exists|j: int|
        0 <= j < split_lines(env->0@).len() && starts_with(
            trim_start(#[trigger] split_lines(env->0@)[j]),
            "JWT_SECRET="@,
        ) {
        let j = choose|j: int|
            0 <= j < split_lines(env->0@).len() && starts_with(
                trim_start(#[trigger] split_lines(env->0@)[j]),
                "JWT_SECRET="@,
            );
        lemma_jwt_lines_some(split_lines(env->0@), j);
    } else if env is Some {
        let lines = split_lines(env->0@);
        assert forall|j: int| 0 <= j < lines.len() implies !is_jwt_line(#[trigger] lines[j]) by {}
        lemma_jwt_lines_none(lines);
    }
    let h = "## Auth Configuration\n\n"@;
    let am = "- **auth middleware:** "@ + (if auth_total(sorted) {
        "enabled"@
    } else {
        "not found"@
    }) + "\n"@;
    let pr = "- **public routes:** "@ + decimal(capped(public_total(sorted))) + "\n"@;
    let jw = "- **JWT_SECRET:** "@ + (if env_sets_jwt(env) {
        "set in .env"@
    } else {
        "not set in .env"@
    }) + "\n"@;
    let t = auth_section(fs, env);
    reveal_strlit("\n\n");
    reveal_strlit("\n");
    assert(t =~= h + am + (pr + jw + "\n"@));
    lemma_contains_self(am);
    lemma_contains_extend(h, am, pr + jw + "\n"@, am);
    assert(t =~= (h + am + pr) + jw + "\n"@);
    lemma_contains_self(jw);
    lemma_contains_extend(h + am + pr, jw, "\n"@, jw);
}


/// The quoted text of `path + "\"" + rest` is `path` when `path` holds no
/// double quote.
proof fn lemma_quoted_path(path: Seq<char>, rest: Seq<char>)
    requires
        forall|m: int| 0 <= m < path.len() ==> path[m] != '"',
    ensures
        quoted(path + "\""@ + rest) == Some(path),
{
    reveal_strlit("\"");
    let s = path + "\""@ + rest;
    assert(is_first_quote(s, path.len() as int));
    let q = choose|q: int| is_first_quote(s, q);
    lemma_first_quote_unique(s, q, path.len() as int);
    assert(s.take(path.len() as int) =~= path);
}

/// The path of the attribute `attr` on the text `attr + path + "\"" + rest`.
proof fn lemma_attribute_path(attr: Seq<char>, path: Seq<char>, rest: Seq<char>)
    requires
        forall|m: int| 0 <= m < path.len() ==> path[m] != '"',
    ensures
        attribute_path(attr + path + "\""@ + rest, attr) == Some(path),
{
    let t = attr + path + "\""@ + rest;
    assert(t.subrange(0, attr.len() as int) =~= attr);
    assert(t.skip(attr.len() as int) =~= path + "\""@ + rest);
    lemma_quoted_path(path, rest);
}

/// A text that starts with `p` does not start with `q` where the two differ
/// within their common length.
proof fn lemma_not_attribute(t: Seq<char>, p: Seq<char>, q: Seq<char>, at: int)
    requires
        starts_with(t, p),
        0 <= at < p.len(),
        at < q.len(),
        p[at] != q[at],
    ensures
        attribute_path(t, q) is None,
{
    if starts_with(t, q) {
        assert(t.subrange(0, q.len() as int)[at] == t.subrange(0, p.len() as int)[at]);
    }
}

/// The method and path that `route_in` reads from a route attribute.
proof fn lemma_route_in(t: Seq<char>, method: Seq<char>, path: Seq<char>, rest: Seq<char>)
    requires
        forall|m: int| 0 <= m < path.len() ==> path[m] != '"',
        (method == "GET"@ && t == "#[get(\""@ + path + "\""@ + rest) || (method == "POST"@ && t
            == "#[post(\""@ + path + "\""@ + rest) || (method == "PUT"@ && t == "#[put(\""@ + path
            + "\""@ + rest) || (method == "PATCH"@ && t == "#[patch(\""@ + path + "\""@ + rest) || (
        method == "DELETE"@ && t == "#[delete(\""@ + path + "\""@ + rest),
    ensures
        route_in(t) == Some((method, path)),
{
    reveal_strlit("#[get(\"");
    reveal_strlit("#[post(\"");
    reveal_strlit("#[put(\"");
    reveal_strlit("#[patch(\"");
    reveal_strlit("#[delete(\"");
    reveal_strlit("GET");
    reveal_strlit("POST");
    reveal_strlit("PUT");
    reveal_strlit("PATCH");
    reveal_strlit("DELETE");
    let g = "#[get(\""@;
    let po = "#[post(\""@;
    let pu = "#[put(\""@;
    let pa = "#[patch(\""@;
    let d = "#[delete(\""@;
    if method == "GET"@ && t == g + path + "\""@ + rest {
        lemma_attribute_path(g, path, rest);
    } else if method == "POST"@ && t == po + path + "\""@ + rest {
        lemma_attribute_path(po, path, rest);
        assert(t.subrange(0, po.len() as int) =~= po);
        lemma_not_attribute(t, po, g, 2);
    } else if method == "PUT"@ && t == pu + path + "\""@ + rest {
        lemma_attribute_path(pu, path, rest);
        assert(t.subrange(0, pu.len() as int) =~= pu);
        lemma_not_attribute(t, pu, g, 2);
        lemma_not_attribute(t, pu, po, 3);
    } else if method == "PATCH"@ && t == pa + path + "\""@ + rest {
        lemma_attribute_path(pa, path, rest);
        assert(t.subrange(0, pa.len() as int) =~= pa);
        lemma_not_attribute(t, pa, g, 2);
        lemma_not_attribute(t, pa, po, 3);
        lemma_not_attribute(t, pa, pu, 3);
    } else {
        lemma_attribute_path(d, path, rest);
        assert(t.subrange(0, d.len() as int) =~= d);
        lemma_not_attribute(t, d, g, 2);
        lemma_not_attribute(t, d, po, 2);
        lemma_not_attribute(t, d, pu, 2);
        lemma_not_attribute(t, d, pa, 2);
    }
}

/// The route items of a file hold the item of each of its lines.
proof fn lemma_file_routes_hold(lines: Seq<Seq<char>>, file: Seq<char>, j: int)
    requires
        0 <= j < lines.len(),
    ensures
        contains_seq(file_routes(lines, file), route_item(lines[j], file)),
    decreases lines.len(),
{
    let d = lines.drop_last();
    let a = file_routes(d, file);
    let b = route_item(lines.last(), file);
    let x = route_item(lines[j], file);
    if j == lines.len() - 1 {
        lemma_contains_self(x);
        lemma_contains_extend(a, x, Seq::empty(), x);
        assert(a + x + Seq::<char>::empty() =~= a + x);
    } else {
        assert(d[j] == lines[j]);
        lemma_file_routes_hold(d, file, j);
        lemma_contains_extend(Seq::empty(), a, b, x);
        assert(Seq::<char>::empty() + a + b =~= a + b);
    }
}

/// The route items of a list of files hold the route items of each file.
proof fn lemma_routes_text_hold(fs: Seq<SourceFile>, k: int, x: Seq<char>)
    requires
        0 <= k < fs.len(),
        contains_seq(file_routes(split_lines(fs[k].text@), fs[k].path@), x),
    ensures
        contains_seq(routes_text(fs), x),
    decreases fs.len(),
{
    let d = fs.drop_last();
    let a = routes_text(d);
    let b = file_routes(split_lines(fs.last().text@), fs.last().path@);
    if k == fs.len() - 1 {
        lemma_contains_extend(a, b, Seq::empty(), x);
        assert(a + b + Seq::<char>::empty() =~= a + b);
    } else {
        assert(d[k] == fs[k]);
        lemma_routes_text_hold(d, k, x);
        lemma_contains_extend(Seq::empty(), a, b, x);
        assert(Seq::<char>::empty() + a + b =~= a + b);
    }
}

/// A line of a source file that reads, after blanks, `#[get("` (or
/// `#[post("`, `#[put("`, `#[patch("`, `#[delete("`), a path without double
/// quotes, and a closing quote, is listed in the routes section as
/// `- METHOD path (file)`.
pub proof fn lemma_route_listed(
    fs: Seq<SourceFile>,
    i: int,
    j: int,
    method: Seq<char>,
    path: Seq<char>,
    rest: Seq<char>,
)
    requires
        0 <= i < fs.len(),
        0 <= j < split_lines(fs[i].text@).len(),
        forall|m: int| 0 <= m < path.len() ==> path[m] != '"',
        (method == "GET"@ && trim_start(split_lines(fs[i].text@)[j]) == "#[get(\""@ + path + "\""@
            + rest) || (method == "POST"@ && trim_start(split_lines(fs[i].text@)[j]) == "#[post(\""@
            + path + "\""@ + rest) || (method == "PUT"@ && trim_start(split_lines(fs[i].text@)[j])
            == "#[put(\""@ + path + "\""@ + rest) || (method == "PATCH"@ && trim_start(
            split_lines(fs[i].text@)[j],
        ) == "#[patch(\""@ + path + "\""@ + rest) || (method == "DELETE"@ && trim_start(
            split_lines(fs[i].text@)[j],
        ) == "#[delete(\""@ + path + "\""@ + rest),
    ensures
        contains_seq(
            routes_section(fs),
            "- "@ + method + " "@ + path + " ("@ + fs[i].path@ + ")\n"@,
        ),
{
    let lines = split_lines(fs[i].text@);
    let file = fs[i].path@;
    let x = "- "@ + method + " "@ + path + " ("@ + file + ")\n"@;
    lemma_route_in(trim_start(lines[j]), method, path, rest);
    assert(route_item(lines[j], file) == x);
    lemma_file_routes_hold(lines, file, j);
    let sorted = sorted_sources(fs);
    let k = lemma_sorted_sources_has(fs, i);
    lemma_routes_text_hold(sorted, k, x);
    let routes = routes_text(sorted);
    reveal_strlit("- ");
    assert(x.len() > 0);
    assert(routes.len() > 0);
    lemma_contains_extend("## Routes\n\n"@, routes, "\n"@, x);
    assert(routes_section(fs) == "## Routes\n\n"@ + routes + "\n"@);
}

} // verus!
