//! The source tree of a project: its rendering as a nested Markdown list and
//! the feature modules found at its top level.
use crate::order::{
    byte_views, index_views, lemma_sort_order_is_stable_sort, name_order, sort_order, string_views,
};
use crate::text::{
    contains_seq, ends_with, has_suffix, lemma_contains_extend, lemma_contains_self, lex_le, str_eq,
};
use vstd::prelude::*;
use vstd::utf8::encode_utf8;

verus! {

/// One entry of a directory listing, as read from the file system: its file
/// name as shown, the raw bytes of that name (by which entries are ordered),
/// whether it is a directory, and (for a directory) its own entries.
#[derive(Debug)]
pub struct FsEntry {
    pub name: String,
    pub key: Vec<u8>,
    pub is_dir: bool,
    pub children: Vec<FsEntry>,
}

/// The names of a list of entries.
pub open spec fn entry_names(c: Seq<FsEntry>) -> Seq<Seq<char>> {
    c.map_values(|e: FsEntry| e.name@)
}

/// The sort keys (raw name bytes) of a list of entries.
pub open spec fn entry_keys(c: Seq<FsEntry>) -> Seq<Seq<u8>> {
    c.map_values(|e: FsEntry| e.key@)
}

/// The lines that one entry contributes to a listing indented by `indent`:
/// a directory as `- **name/**` followed by its own listing one level deeper,
/// a Rust source file as `- name`, anything else not at all.
pub open spec fn entry_listing(e: FsEntry, indent: Seq<char>) -> Seq<char>
    decreases e, 0int,
{
    if e.is_dir {
        indent + "- **"@ + e.name@ + "/**\n"@ + tree_listing(e.children@, indent + "  "@)
    } else if ends_with(e.name@, ".rs"@) {
        indent + "- "@ + e.name@ + "\n"@
    } else {
        Seq::empty()
    }
}

/// The listing of the entries of `c` taken in the order `ord`.
pub open spec fn ordered_listing(c: Seq<FsEntry>, ord: Seq<int>, indent: Seq<char>) -> Seq<char>
    decreases c, ord.len(),
{
    if ord.len() == 0 {
        Seq::empty()
    } else if 0 <= ord.last() < c.len() {
        ordered_listing(c, ord.drop_last(), indent) + entry_listing(c[ord.last()], indent)
    } else {
        ordered_listing(c, ord.drop_last(), indent)
    }
}

/// The listing of a directory's entries, sorted by their raw name bytes.
pub open spec fn tree_listing(c: Seq<FsEntry>, indent: Seq<char>) -> Seq<char>
    decreases c, c.len() + 1,
{
    proof {
        lemma_sort_order_is_stable_sort(entry_keys(c));
    }
    ordered_listing(c, sort_order(entry_keys(c)), indent)
}

/// `depth` levels of indentation, two spaces each.
pub open spec fn indentation(depth: nat) -> Seq<char>
    decreases depth,
{
    if depth == 0 {
        Seq::empty()
    } else {
        indentation((depth - 1) as nat) + "  "@
    }
}


/// The sort keys of `entries`.
fn key_list<'a>(entries: &'a Vec<FsEntry>) -> (r: Vec<&'a [u8]>)
    ensures
        byte_views(r@) == entry_keys(entries@),
{
    let mut r: Vec<&[u8]> = Vec::new();
    let n = entries.len();
    for i in 0..n
        invariant
            n == entries.len(),
            byte_views(r@) == entry_keys(entries@.take(i as int)),
    {
        let ghost before = r@;
        let key = entries[i].key.as_slice();
        r.push(key);
        assert(entries@.take(i + 1) =~= entries@.take(i as int).push(entries@[i as int]));
        assert(byte_views(r@) =~= byte_views(before).push(key@));
        assert(entry_keys(entries@.take(i + 1)) =~= entry_keys(entries@.take(i as int)).push(
            entries@[i as int].key@,
        ));
    }
    assert(entries@.take(n as int) =~= entries@);
    r
}

/// The listing of `entries`, sorted by key, at indentation `indent`.
fn render_listing(entries: &Vec<FsEntry>, indent: &str) -> (r: String)
    ensures
        r@ == tree_listing(entries@, indent@),
    decreases entries@,
{
    let keys = key_list(entries);
    let ord = name_order(&keys);
    let ghost c = entries@;
    let ghost o = index_views(ord@);
    proof {
        lemma_sort_order_is_stable_sort(entry_keys(c));
    }
    let mut out = String::new();
    let n = ord.len();
    for k in 0..n
        invariant
            n == ord.len(),
            c == entries@,
            o == index_views(ord@),
            o == sort_order(entry_keys(c)),
            o.len() == c.len(),
            forall|y: int| #[trigger] o.contains(y) <==> 0 <= y < c.len(),
            out@ == ordered_listing(c, o.take(k as int), indent@),
    {
        let idx = ord[k];
        assert(o[k as int] == idx as int);
        assert(o.contains(o[k as int]));
        let e = &entries[idx];
        assert(o.take(k + 1).drop_last() =~= o.take(k as int));
        assert(o.take(k + 1).last() == idx as int);
        let ghost prev = out@;
        assert(ordered_listing(c, o.take(k + 1), indent@) == prev + entry_listing(c[idx as int], indent@));
        if e.is_dir {
            out.append(indent);
            out.append("- **");
            out.append(e.name.as_str());
            out.append("/**\n");
            let deeper = String::from_str(indent).concat("  ");
            assert(decreases_to!(entries@ => entries@[idx as int]));
            let sub = render_listing(&e.children, deeper.as_str());
            out.append(sub.as_str());
            assert(out@ =~= prev + (indent@ + "- **"@ + e.name@ + "/**\n"@ + tree_listing(
                e.children@,
                indent@ + "  "@,
            )));
        } else if has_suffix(e.name.as_str(), ".rs") {
            out.append(indent);
            out.append("- ");
            out.append(e.name.as_str());
            out.append("\n");
            assert(out@ =~= prev + (indent@ + "- "@ + e.name@ + "\n"@));
        } else {
            assert(out@ =~= prev + Seq::<char>::empty());
        }
    }
    assert(o.take(n as int) =~= o);
    out
}


/// The indentation for `depth` levels.
pub fn indent_for(depth: usize) -> (r: String)
    ensures
        r@ == indentation(depth as nat),
{
    let mut r = String::new();
    let mut i: usize = 0;
    while i < depth
        invariant
            i <= depth,
            r@ == indentation(i as nat),
        decreases depth - i,
    {
        r.append("  ");
        i = i + 1;
    }
    r
}

/// The Markdown listing of a directory whose entries are `entries`, nested
/// `depth` levels deep: entries sorted by name, each directory followed by
/// its own listing, Rust source files listed, other files left out.
pub fn walk_source_tree(entries: &Vec<FsEntry>, depth: usize) -> (r: String)
    ensures
        r@ == tree_listing(entries@, indentation(depth as nat)),
{
    let indent = indent_for(depth);
    render_listing(entries, indent.as_str())
}

/// The UTF-8 encodings of `names`: how strings are ordered.
pub open spec fn utf8_keys(names: Seq<Seq<char>>) -> Seq<Seq<u8>> {
    names.map_values(|n: Seq<char>| encode_utf8(n))
}

/// `names` in the order of their UTF-8 bytes.
pub open spec fn sorted_names(names: Seq<Seq<char>>) -> Seq<Seq<char>> {
    sort_order(utf8_keys(names)).map_values(|k: int| names[k])
}

/// `names`, sorted as strings are (by their UTF-8 bytes).
pub fn sorted_strings(names: &Vec<String>) -> (r: Vec<String>)
    ensures
        string_views(r@) == sorted_names(string_views(names@)),
{
    let ghost nv = string_views(names@);
    let mut keys: Vec<&[u8]> = Vec::new();
    let m = names.len();
    for i in 0..m
        invariant
            m == names.len(),
            nv == string_views(names@),
            byte_views(keys@) == utf8_keys(nv).take(i as int),
    {
        let ghost before = keys@;
        let key = names[i].as_str().as_bytes();
        keys.push(key);
        assert(byte_views(keys@) =~= byte_views(before).push(key@));
        assert(utf8_keys(nv).take(i + 1) =~= utf8_keys(nv).take(i as int).push(encode_utf8(nv[i as int])));
    }
    assert(utf8_keys(nv).take(m as int) =~= utf8_keys(nv));
    let ord = name_order(&keys);
    let ghost o = index_views(ord@);
    proof {
        lemma_sort_order_is_stable_sort(utf8_keys(nv));
    }
    let mut r: Vec<String> = Vec::new();
    let n = ord.len();
    for k in 0..n
        invariant
            n == ord.len(),
            nv == string_views(names@),
            o == index_views(ord@),
            o == sort_order(utf8_keys(nv)),
            o.len() == nv.len(),
            forall|y: int| #[trigger] o.contains(y) <==> 0 <= y < nv.len(),
            string_views(r@) == sorted_names(nv).take(k as int),
    {
        let idx = ord[k];
        assert(o[k as int] == idx as int);
        assert(o.contains(o[k as int]));
        let ghost before = r@;
        let name = names[idx].clone();
        r.push(name);
        assert(string_views(r@) =~= string_views(before).push(name@));
        assert(sorted_names(nv).take(k + 1) =~= sorted_names(nv).take(k as int).push(nv[idx as int]));
    }
    assert(sorted_names(nv).take(n as int) =~= sorted_names(nv));
    r
}

/// Directories that are infrastructure rather than features.
pub open spec fn is_excluded_module(name: Seq<char>) -> bool {
    name == "middleware"@ || name == "config"@ || name == "common"@ || name == "utils"@
}

/// The names, in listing order, of the directories among `c` that are
/// feature modules.
pub open spec fn module_dir_names(c: Seq<FsEntry>) -> Seq<Seq<char>>
    decreases c.len(),
{
    if c.len() == 0 {
        Seq::empty()
    } else if c.last().is_dir && !is_excluded_module(c.last().name@) {
        module_dir_names(c.drop_last()).push(c.last().name@)
    } else {
        module_dir_names(c.drop_last())
    }
}

/// The feature modules of a source directory, sorted by name.
pub open spec fn module_names(c: Seq<FsEntry>) -> Seq<Seq<char>> {
    sorted_names(module_dir_names(c))
}

/// The feature modules among the entries of a source directory: its
/// subdirectories other than `middleware`, `config`, `common` and `utils`,
/// sorted by name.
pub fn detect_modules(entries: &Vec<FsEntry>) -> (r: Vec<String>)
    ensures
        string_views(r@) == module_names(entries@),
{
    let mut found: Vec<String> = Vec::new();
    let n = entries.len();
    for i in 0..n
        invariant
            n == entries.len(),
            string_views(found@) == module_dir_names(entries@.take(i as int)),
    {
        let e = &entries[i];
        assert(entries@.take(i + 1).drop_last() =~= entries@.take(i as int));
        assert(entries@.take(i + 1).last() == entries@[i as int]);
        if e.is_dir {
            let name = e.name.as_str();
            if !(str_eq(name, "middleware") || str_eq(name, "config") || str_eq(name, "common")
                || str_eq(name, "utils")) {
                let ghost before = found@;
                let copy = e.name.clone();
                found.push(copy);
                assert(string_views(found@) =~= string_views(before).push(copy@));
            }
        }
    }
    assert(entries@.take(n as int) =~= entries@);
    sorted_strings(&found)
}


/// Sorting names keeps each of them and orders them by their UTF-8 bytes.
pub proof fn lemma_sorted_names(names: Seq<Seq<char>>)
    ensures
        sorted_names(names).len() == names.len(),
        forall|x: Seq<char>| #[trigger] sorted_names(names).contains(x) <==> names.contains(x),
        forall|j: int, k: int|
            0 <= j < k < names.len() ==> lex_le(
                encode_utf8(#[trigger] sorted_names(names)[j]),
                encode_utf8(#[trigger] sorted_names(names)[k]),
            ),
{
    let keys = utf8_keys(names);
    lemma_sort_order_is_stable_sort(keys);
    let o = sort_order(keys);
    let r = sorted_names(names);
    assert forall|x: Seq<char>| #[trigger] r.contains(x) <==> names.contains(x) by {
        if r.contains(x) {
            let k = choose|k: int| 0 <= k < r.len() && r[k] == x;
            assert(o.contains(o[k]));
            assert(names[o[k]] == x);
        }
        if names.contains(x) {
            let i = choose|i: int| 0 <= i < names.len() && names[i] == x;
            assert(o.contains(i));
            let k = choose|k: int| 0 <= k < o.len() && o[k] == i;
            assert(r[k] == x);
        }
    }
    assert forall|j: int, k: int| 0 <= j < k < names.len() implies lex_le(
        encode_utf8(#[trigger] r[j]),
        encode_utf8(#[trigger] r[k]),
    ) by {
        assert(o.contains(o[j]));
        assert(o.contains(o[k]));
        assert(r[j] == names[o[j]]);
        assert(r[k] == names[o[k]]);
        assert(keys[o[j]] == encode_utf8(names[o[j]]));
        assert(keys[o[k]] == encode_utf8(names[o[k]]));
    }
}

/// The entry is a directory holding a feature module.
pub open spec fn is_module_dir(e: FsEntry) -> bool {
    e.is_dir && !is_excluded_module(e.name@)
}

proof fn lemma_module_dir_names(c: Seq<FsEntry>)
    ensures
        forall|x: Seq<char>| #[trigger] module_dir_names(c).contains(x) <==> exists|i: int|
            0 <= i < c.len() && is_module_dir(c[i]) && c[i].name@ == x,
    decreases c.len(),
{
    if c.len() > 0 {
        let d = c.drop_last();
        lemma_module_dir_names(d);
        let m = module_dir_names(c);
        let md = module_dir_names(d);
        assert forall|x: Seq<char>| #[trigger] m.contains(x) <==> exists|i: int|
            0 <= i < c.len() && is_module_dir(c[i]) && c[i].name@ == x by {
            if m.contains(x) {
                let k = choose|k: int| 0 <= k < m.len() && m[k] == x;
                if k < md.len() {
                    assert(md[k] == x);
                    assert(md.contains(x));
                    let i = choose|i: int| 0 <= i < d.len() && is_module_dir(d[i]) && d[i].name@ == x;
                    assert(c[i] == d[i]);
                } else {
                    assert(is_module_dir(c[c.len() - 1]) && c[c.len() - 1].name@ == x);
                }
            }
            if exists|i: int| 0 <= i < c.len() && is_module_dir(c[i]) && c[i].name@ == x {
                let i = choose|i: int| 0 <= i < c.len() && is_module_dir(c[i]) && c[i].name@ == x;
                if i < d.len() {
                    assert(d[i] == c[i]);
                    assert(md.contains(x));
                    let k = choose|k: int| 0 <= k < md.len() && md[k] == x;
                    assert(m[k] == x);
                } else {
                    assert(m[md.len() as int] == x);
                }
            }
        }
    }
}

/// The modules reported for a source directory are exactly the names of its
/// subdirectories other than `middleware`, `config`, `common` and `utils`,
/// in name order.
pub proof fn lemma_module_names(c: Seq<FsEntry>)
    ensures
        forall|x: Seq<char>| #[trigger] module_names(c).contains(x) <==> exists|i: int|
            0 <= i < c.len() && is_module_dir(c[i]) && c[i].name@ == x,
        forall|j: int, k: int|
            0 <= j < k < module_names(c).len() ==> lex_le(
                encode_utf8(#[trigger] module_names(c)[j]),
                encode_utf8(#[trigger] module_names(c)[k]),
            ),
{
    lemma_module_dir_names(c);
    lemma_sorted_names(module_dir_names(c));
}


/// `t` with `pad` put at the start of each of its lines, continuing a text
/// that is at the start of a line when `at_start` holds.
pub open spec fn pad_from(t: Seq<char>, pad: Seq<char>, at_start: bool) -> Seq<char>
    decreases t.len(),
{
    if t.len() == 0 {
        Seq::empty()
    } else {
        (if at_start {
            pad
        } else {
            Seq::empty()
        }) + seq![t[0]] + pad_from(t.drop_first(), pad, t[0] == '\n')
    }
}

/// `t` with `pad` put at the start of every line.
pub open spec fn pad_lines(t: Seq<char>, pad: Seq<char>) -> Seq<char> {
    pad_from(t, pad, true)
}

/// `s` holds no newline.
pub open spec fn no_newline(s: Seq<char>) -> bool {
    forall|i: int| 0 <= i < s.len() ==> s[i] != '\n'
}

/// The entry is listed: it is a directory or a Rust source file.
pub open spec fn is_listed(e: FsEntry) -> bool {
    e.is_dir || ends_with(e.name@, ".rs"@)
}

/// No name that the listing of the tree `c` shows holds a newline.
pub open spec fn single_line_names(c: Seq<FsEntry>) -> bool
    decreases c,
{
    forall|i: int|
        0 <= i < c.len() ==> (is_listed(#[trigger] c[i]) ==> no_newline(c[i].name@)) && (c[i].is_dir
            ==> single_line_names(c[i].children@))
}

/// `t` is empty or ends a line.
pub open spec fn ends_line(t: Seq<char>) -> bool {
    t.len() == 0 || t.last() == '\n'
}

proof fn lemma_pad_from_append(a: Seq<char>, b: Seq<char>, pad: Seq<char>, s: bool)
    ensures
        pad_from(a + b, pad, s) == pad_from(a, pad, s) + pad_from(
            b,
            pad,
            if a.len() == 0 {
                s
            } else {
                a.last() == '\n'
            },
        ),
    decreases a.len(),
{
    if a.len() == 0 {
        assert(a + b =~= b);
    } else {
        assert((a + b).drop_first() =~= a.drop_first() + b);
        lemma_pad_from_append(a.drop_first(), b, pad, a[0] == '\n');
        if a.len() == 1 {
            assert(a.drop_first().len() == 0);
        } else {
            assert(a.drop_first().last() == a.last());
        }
        let head = (if s {
            pad
        } else {
            Seq::empty()
        }) + seq![a[0]];
        assert(pad_from(a + b, pad, s) =~= head + pad_from(a.drop_first() + b, pad, a[0] == '\n'));
        assert(pad_from(a, pad, s) =~= head + pad_from(a.drop_first(), pad, a[0] == '\n'));
    }
}

proof fn lemma_pad_from_no_newline(x: Seq<char>, pad: Seq<char>)
    requires
        no_newline(x),
    ensures
        pad_from(x, pad, false) == x,
    decreases x.len(),
{
    if x.len() > 0 {
        lemma_pad_from_no_newline(x.drop_first(), pad);
        assert(seq![x[0]] + x.drop_first() =~= x);
    }
}

proof fn lemma_pad_line(x: Seq<char>, pad: Seq<char>)
    requires
        x.len() > 0,
        no_newline(x),
    ensures
        pad_lines(x + "\n"@, pad) == pad + x + "\n"@,
{
    reveal_strlit("\n");
    lemma_pad_from_append(x, "\n"@, pad, true);
    lemma_pad_from_no_newline(x.drop_first(), pad);
    assert(pad_from(x, pad, true) =~= pad + seq![x[0]] + x.drop_first());
    assert(seq![x[0]] + x.drop_first() =~= x);
    assert("\n"@.drop_first() =~= Seq::<char>::empty());
    assert(pad_from("\n"@.drop_first(), pad, true) =~= Seq::<char>::empty());
    assert(pad_from("\n"@, pad, false) =~= "\n"@);
}

proof fn lemma_entry_listing_padded(e: FsEntry, indent: Seq<char>, pad: Seq<char>)
    requires
        no_newline(indent),
        is_listed(e) ==> no_newline(e.name@),
        e.is_dir ==> single_line_names(e.children@),
    ensures
        entry_listing(e, pad + indent) == pad_lines(entry_listing(e, indent), pad),
        ends_line(entry_listing(e, indent)),
    decreases e, 0int,
{
    reveal_strlit("- **");
    reveal_strlit("/**\n");
    reveal_strlit("/**");
    reveal_strlit("- ");
    reveal_strlit("\n");
    reveal_strlit("  ");
    if e.is_dir {
        let x = indent + "- **"@ + e.name@ + "/**"@;
        assert(indent + "- **"@ + e.name@ + "/**\n"@ =~= x + "\n"@);
        assert(no_newline(x));
        let deeper = indent + "  "@;
        assert(no_newline(deeper));
        lemma_tree_listing_padded(e.children@, deeper, pad);
        let sub = tree_listing(e.children@, deeper);
        lemma_pad_line(x, pad);
        lemma_pad_from_append(x + "\n"@, sub, pad, true);
        assert((x + "\n"@).last() == '\n');
        assert(entry_listing(e, indent) == x + "\n"@ + sub);
        assert(pad + indent + "  "@ =~= pad + deeper);
        assert(entry_listing(e, pad + indent) =~= pad + x + "\n"@ + tree_listing(e.children@, pad + deeper));
        assert(entry_listing(e, pad + indent) =~= pad_lines(entry_listing(e, indent), pad));
        if sub.len() > 0 {
            assert((x + "\n"@ + sub).last() == sub.last());
        }
    } else if ends_with(e.name@, ".rs"@) {
        let x = indent + "- "@ + e.name@;
        assert(no_newline(x));
        lemma_pad_line(x, pad);
        assert(entry_listing(e, pad + indent) =~= pad + x + "\n"@);
    }
}

proof fn lemma_ordered_listing_padded(c: Seq<FsEntry>, ord: Seq<int>, indent: Seq<char>, pad: Seq<char>)
    requires
        no_newline(indent),
        single_line_names(c),
    ensures
        ordered_listing(c, ord, pad + indent) == pad_lines(ordered_listing(c, ord, indent), pad),
        ends_line(ordered_listing(c, ord, indent)),
    decreases c, ord.len(),
{
    if ord.len() > 0 {
        lemma_ordered_listing_padded(c, ord.drop_last(), indent, pad);
        if 0 <= ord.last() < c.len() {
            let e = c[ord.last()];
            let i = ord.last();
            assert(is_listed(c[i]) ==> no_newline(c[i].name@));
            assert(c[i].is_dir ==> single_line_names(c[i].children@));
            lemma_entry_listing_padded(e, indent, pad);
            let a = ordered_listing(c, ord.drop_last(), indent);
            let b = entry_listing(e, indent);
            lemma_pad_from_append(a, b, pad, true);
            if b.len() > 0 {
                assert((a + b).last() == b.last());
            } else {
                assert(a + b =~= a);
            }
        }
    }
}

proof fn lemma_tree_listing_padded(c: Seq<FsEntry>, indent: Seq<char>, pad: Seq<char>)
    requires
        no_newline(indent),
        single_line_names(c),
    ensures
        tree_listing(c, pad + indent) == pad_lines(tree_listing(c, indent), pad),
        ends_line(tree_listing(c, indent)),
    decreases c, c.len() + 1,
{
    lemma_sort_order_is_stable_sort(entry_keys(c));
    lemma_ordered_listing_padded(c, sort_order(entry_keys(c)), indent, pad);
}

proof fn lemma_indentation(depth: nat)
    ensures
        indentation(depth + 1) == "  "@ + indentation(depth),
        no_newline(indentation(depth)),
    decreases depth,
{
    reveal_strlit("  ");
    if depth > 0 {
        lemma_indentation((depth - 1) as nat);
        assert(indentation(depth) + "  "@ =~= "  "@ + indentation(depth));
    } else {
        assert(indentation(1) =~= "  "@ + indentation(0));
    }
}

/// One level deeper, the listing is the same with two more spaces at the
/// start of every line (for trees whose listed names, those of directories
/// and Rust source files, hold no newline).
pub proof fn lemma_deeper_listing(c: Seq<FsEntry>, depth: nat)
    requires
        single_line_names(c),
    ensures
        tree_listing(c, indentation(depth + 1)) == pad_lines(
            tree_listing(c, indentation(depth)),
            "  "@,
        ),
{
    lemma_indentation(depth);
    lemma_tree_listing_padded(c, indentation(depth), "  "@);
}


proof fn lemma_ordered_listing_holds_entry(c: Seq<FsEntry>, ord: Seq<int>, indent: Seq<char>, k: int)
    requires
        0 <= k < ord.len(),
        0 <= ord[k] < c.len(),
    ensures
        contains_seq(ordered_listing(c, ord, indent), entry_listing(c[ord[k]], indent)),
    decreases ord.len(),
{
    let d = ord.drop_last();
    let a = ordered_listing(c, d, indent);
    let x = entry_listing(c[ord[k]], indent);
    if k == ord.len() - 1 {
        lemma_contains_self(x);
        lemma_contains_extend(a, x, Seq::empty(), x);
        assert(a + x + Seq::<char>::empty() =~= a + x);
    } else {
        assert(d[k] == ord[k]);
        lemma_ordered_listing_holds_entry(c, d, indent, k);
        let last = ord.last();
        if 0 <= last < c.len() {
            lemma_contains_extend(Seq::empty(), a, entry_listing(c[last], indent), x);
            assert(Seq::<char>::empty() + a + entry_listing(c[last], indent) =~= a + entry_listing(
                c[last],
                indent,
            ));
        }
    }
}

/// The listing of a directory shows each of its entries on a line of its own
/// at the listing's indentation: every subdirectory as `- **name/**`, and
/// every file whose name ends in `.rs` as `- name`.
pub proof fn lemma_listing_shows_entries(c: Seq<FsEntry>, indent: Seq<char>)
    ensures
        forall|i: int|
            0 <= i < c.len() && !c[i].is_dir && c[i].name@.len() >= 3 && (#[trigger] c[i]).name@.subrange(
                c[i].name@.len() - 3,
                c[i].name@.len() as int,
            ) == ".rs"@ ==> contains_seq(
                tree_listing(c, indent),
                indent + "- "@ + c[i].name@ + "\n"@,
            ),
        forall|i: int|
            0 <= i < c.len() && (#[trigger] c[i]).is_dir ==> contains_seq(
                tree_listing(c, indent),
                indent + "- **"@ + c[i].name@ + "/**\n"@,
            ),
{
    reveal_strlit(".rs");
    let o = sort_order(entry_keys(c));
    lemma_sort_order_is_stable_sort(entry_keys(c));
    assert forall|i: int|
        0 <= i < c.len() && !c[i].is_dir && c[i].name@.len() >= 3 && (#[trigger] c[i]).name@.subrange(
            c[i].name@.len() - 3,
            c[i].name@.len() as int,
        ) == ".rs"@ implies contains_seq(
        tree_listing(c, indent),
        indent + "- "@ + c[i].name@ + "\n"@,
    ) by {
        assert(o.contains(i));
        let k = choose|k: int| 0 <= k < o.len() && o[k] == i;
        lemma_ordered_listing_holds_entry(c, o, indent, k);
        assert(ends_with(c[i].name@, ".rs"@));
    }
    assert forall|i: int| 0 <= i < c.len() && (#[trigger] c[i]).is_dir implies contains_seq(
        tree_listing(c, indent),
        indent + "- **"@ + c[i].name@ + "/**\n"@,
    ) by {
        assert(o.contains(i));
        let k = choose|k: int| 0 <= k < o.len() && o[k] == i;
        lemma_ordered_listing_holds_entry(c, o, indent, k);
        let h = indent + "- **"@ + c[i].name@ + "/**\n"@;
        let sub = tree_listing(c[i].children@, indent + "  "@);
        assert(entry_listing(c[i], indent) == h + sub);
        let t = tree_listing(c, indent);
        let x = entry_listing(c[i], indent);
        let p = choose|p: int| 0 <= p && p + x.len() <= t.len() && #[trigger] t.subrange(p, p + x.len()) == x;
        assert(t.subrange(p, p + h.len()) =~= h);
    }
}


/// The modules reported for a source directory: each of its subdirectories
/// except exactly `middleware`, `config`, `common` and `utils`, and nothing
/// else.
pub proof fn lemma_modules_are_feature_dirs(c: Seq<FsEntry>)
    ensures
        forall|i: int|
            0 <= i < c.len() && (#[trigger] c[i]).is_dir && c[i].name@ != "middleware"@ && c[i].name@
                != "config"@ && c[i].name@ != "common"@ && c[i].name@ != "utils"@
                ==> module_names(c).contains(c[i].name@),
        forall|x: Seq<char>| #[trigger]
            module_names(c).contains(x) ==> exists|i: int|
                0 <= i < c.len() && c[i].is_dir && c[i].name@ == x && x != "middleware"@ && x
                    != "config"@ && x != "common"@ && x != "utils"@,
{
    lemma_module_names(c);
    assert forall|i: int|
        0 <= i < c.len() && (#[trigger] c[i]).is_dir && c[i].name@ != "middleware"@ && c[i].name@
            != "config"@ && c[i].name@ != "common"@ && c[i].name@ != "utils"@ implies module_names(
        c,
    ).contains(c[i].name@) by {
        assert(is_module_dir(c[i]));
    }
}

} // verus!
