//! The dependencies that a project's manifests declare, as they are written
//! there: no version is resolved, and none is made up.

use crate::documents;
use crate::documents::{Doc, DocValue};
use crate::edges;
use crate::jvm_package::SourceFile;
use crate::paths;
use crate::text;
use vstd::prelude::*;
use vstd::slice::slice_subrange;

verus! {

/// Raised whenever the rules by which manifests are read change.
pub const PACKAGE_GRAPH_VERSION: i64 = 1;

/// One declared dependency.
#[derive(Debug, Clone, PartialEq, Eq)]
pub struct RawPackageDependency {
    pub manifest_path: String,
    pub ecosystem: &'static str,
    pub name: String,
    pub version_spec: Option<String>,
    pub kind: &'static str,
}

/// What a declared dependency says.
pub struct Dependency {
    pub manifest_path: Seq<char>,
    pub ecosystem: Seq<char>,
    pub name: Seq<char>,
    pub version_spec: Option<Seq<char>>,
    pub kind: Seq<char>,
}

impl View for RawPackageDependency {
    type V = Dependency;

    open spec fn view(&self) -> Dependency {
        Dependency {
            manifest_path: self.manifest_path@,
            ecosystem: self.ecosystem@,
            name: self.name@,
            version_spec: edges::opt_text(self.version_spec),
            kind: self.kind@,
        }
    }
}

pub open spec fn views(v: Seq<RawPackageDependency>) -> Seq<Dependency> {
    v.map_values(|d: RawPackageDependency| d@)
}

/// A dependency whose manifest is not filled in yet.
pub open spec fn found(
    name: Seq<char>,
    version: Option<Seq<char>>,
    ecosystem: Seq<char>,
    kind: Seq<char>,
) -> Dependency {
    Dependency { manifest_path: seq![], ecosystem, name, version_spec: version, kind }
}

fn dep(
    name: String,
    version_spec: Option<String>,
    ecosystem: &'static str,
    kind: &'static str,
) -> (r: RawPackageDependency)
    ensures
        r@ == found(name@, edges::opt_text(version_spec), ecosystem@, kind@),
{
    let r = RawPackageDependency {
        manifest_path: String::new(),
        ecosystem,
        name,
        version_spec,
        kind,
    };
    assert(r.manifest_path@ =~= seq![]);
    r
}

// ---------------------------------------------------------------------------
// Tables of dependencies
// ---------------------------------------------------------------------------

/// The version of a table's entry: the entry itself, or its `version`. One that
/// names no version has none.
pub open spec fn version_of(v: Doc) -> Option<Seq<char>> {
    match v {
        Doc::Text(s) => Some(s),
        Doc::Table(t) => match documents::entry(t, "version"@) {
            Some(x) => documents::as_text(x),
            None => None,
        },
        _ => None,
    }
}

/// How a table of dependencies is read.
pub struct Reading {
    pub ecosystem: &'static str,
    pub kind: &'static str,
    /// An entry can be a table with a `version`.
    pub nested: bool,
    /// The key `python` constrains the interpreter and is no dependency.
    pub skip_python: bool,
}

/// The dependencies of a table's entries, in order.
pub open spec fn table_dependencies(entries: Seq<(Seq<char>, Doc)>, how: Reading) -> Seq<Dependency>
    decreases entries.len(),
{
    if entries.len() == 0 {
        seq![]
    } else {
        let init = table_dependencies(entries.drop_last(), how);
        let (name, value) = entries.last();
        if how.skip_python && name == "python"@ {
            init
        } else {
            init.push(
                found(
                    name,
                    if how.nested {
                        version_of(value)
                    } else {
                        documents::as_text(value)
                    },
                    how.ecosystem@,
                    how.kind@,
                ),
            )
        }
    }
}

/// The dependencies of the table at the end of a path; none where there is no
/// table.
pub open spec fn section(d: Doc, path: Seq<Seq<char>>, how: Reading) -> Seq<Dependency> {
    match documents::at(d, path) {
        Some(Doc::Table(t)) => table_dependencies(t, how),
        _ => seq![],
    }
}

fn read_version(v: &DocValue) -> (r: Option<String>)
    ensures
        edges::opt_text(r) == version_of(v@),
{
    match v {
        DocValue::Text(s) => Some(s.clone()),
        DocValue::Table(_) => match v.get("version") {
            Some(x) => match x.text() {
                Some(s) => Some(s.clone()),
                None => None,
            },
            None => None,
        },
        DocValue::List(_) => None,
        DocValue::Other => None,
    }
}

fn push_table(out: &mut Vec<RawPackageDependency>, table: &DocValue, how: &Reading)
    ensures
        views(final(out)@) == views(old(out)@) + (match table@ {
            Doc::Table(t) => table_dependencies(t, *how),
            _ => seq![],
        }),
{
    let entries = match table {
        DocValue::Table(v) => v,
        _ => {
            assert(views(out@) + seq![] =~= views(out@));
            return ;
        },
    };
    let ghost start = views(out@);
    let ghost all = table@->Table_0;
    let mut i: usize = 0;
    assert(start + table_dependencies(all.take(0), *how) =~= start);
    while i < entries.len()
        invariant
            i <= entries@.len(),
            *table == DocValue::Table(*entries),
            all == table@->Table_0,
            all.len() == entries@.len(),
            views(out@) == start + table_dependencies(all.take(i as int), *how),
        decreases entries@.len() - i,
    {
        let name = &entries[i].0;
        let value = &entries[i].1;
        let ghost before = out@;
        proof {
            assert(all[i as int] == (name@, value@));
            assert(all.take(i + 1).drop_last() =~= all.take(i as int));
            assert(all.take(i + 1).last() == all[i as int]);
        }
        if !(how.skip_python && text::str_eq(name.as_str(), "python")) {
            let version = if how.nested {
                read_version(value)
            } else {
                match value.text() {
                    Some(s) => Some(s.clone()),
                    None => None,
                }
            };
            let d = dep(name.clone(), version, how.ecosystem, how.kind);
            out.push(d);
            proof {
                assert(views(out@) =~= views(before).push(d@));
                let init = table_dependencies(all.take(i as int), *how);
                assert((start + init).push(d@) =~= start + init.push(d@));
            }
        }
        i += 1;
    }
    assert(all.take(all.len() as int) =~= all);
}

fn push_section(
    out: &mut Vec<RawPackageDependency>,
    doc: &DocValue,
    path: Vec<&'static str>,
    how: &Reading,
)
    ensures
        views(final(out)@) == views(old(out)@) + section(doc@, documents::lits(path@), *how),
{
    match doc.walk(&path) {
        Some(v) => {
            push_table(out, v, how);
        },
        None => {
            assert(views(out@) + seq![] =~= views(out@));
        },
    }
}

// ---------------------------------------------------------------------------
// Cargo.toml and package.json
// ---------------------------------------------------------------------------

pub open spec fn reading(
    ecosystem: &'static str,
    kind: &'static str,
    nested: bool,
    skip_python: bool,
) -> Reading {
    Reading { ecosystem, kind, nested, skip_python }
}

/// The dependencies of a `Cargo.toml`: of its three tables, and the versions
/// that a workspace's root pins for its members.
pub open spec fn cargo_dependencies(d: Doc) -> Seq<Dependency> {
    section(d, seq!["dependencies"@], reading("cargo", "runtime", true, false)) + section(
        d,
        seq!["dev-dependencies"@],
        reading("cargo", "dev", true, false),
    ) + section(d, seq!["build-dependencies"@], reading("cargo", "build", true, false)) + section(
        d,
        seq!["workspace"@, "dependencies"@],
        reading("cargo", "runtime", true, false),
    )
}

/// The dependencies of a parsed `Cargo.toml`.
pub fn read_cargo(doc: &DocValue) -> (r: Vec<RawPackageDependency>)
    ensures
        views(r@) == cargo_dependencies(doc@),
{
    let mut out: Vec<RawPackageDependency> = Vec::new();
    let runtime = Reading { ecosystem: "cargo", kind: "runtime", nested: true, skip_python: false };
    let dev = Reading { ecosystem: "cargo", kind: "dev", nested: true, skip_python: false };
    let build = Reading { ecosystem: "cargo", kind: "build", nested: true, skip_python: false };
    proof {
        assert(views(out@) =~= seq![]);
        assert(documents::lits(seq!["dependencies"]) =~= seq!["dependencies"@]);
        assert(documents::lits(seq!["dev-dependencies"]) =~= seq!["dev-dependencies"@]);
        assert(documents::lits(seq!["build-dependencies"]) =~= seq!["build-dependencies"@]);
        assert(documents::lits(seq!["workspace", "dependencies"]) =~= seq![
            "workspace"@,
            "dependencies"@,
        ]);
    }
    let a: Vec<&'static str> = vec!["dependencies"];
    assert(a@ =~= seq!["dependencies"]);
    push_section(&mut out, doc, a, &runtime);
    let b: Vec<&'static str> = vec!["dev-dependencies"];
    assert(b@ =~= seq!["dev-dependencies"]);
    push_section(&mut out, doc, b, &dev);
    let c: Vec<&'static str> = vec!["build-dependencies"];
    assert(c@ =~= seq!["build-dependencies"]);
    push_section(&mut out, doc, c, &build);
    let d: Vec<&'static str> = vec!["workspace", "dependencies"];
    assert(d@ =~= seq!["workspace", "dependencies"]);
    push_section(&mut out, doc, d, &runtime);
    assert(views(out@) =~= cargo_dependencies(doc@));
    out
}

/// The dependencies that a `Cargo.toml` declares; none where it is malformed.
pub fn parse_cargo_toml(content: &str) -> (r: Vec<RawPackageDependency>)
    ensures
        views(r@) == (match documents::toml_document(content@) {
            Some(d) => cargo_dependencies(d),
            None => seq![],
        }),
{
    match documents::read_toml(content) {
        Some(doc) => read_cargo(&doc),
        None => {
            let none: Vec<RawPackageDependency> = Vec::new();
            assert(views(none@) =~= seq![]);
            none
        },
    }
}

/// The dependencies of a `package.json`.
pub open spec fn npm_dependencies(d: Doc) -> Seq<Dependency> {
    section(d, seq!["dependencies"@], reading("npm", "runtime", false, false)) + section(
        d,
        seq!["devDependencies"@],
        reading("npm", "dev", false, false),
    ) + section(d, seq!["peerDependencies"@], reading("npm", "peer", false, false)) + section(
        d,
        seq!["optionalDependencies"@],
        reading("npm", "optional", false, false),
    )
}

/// The dependencies of a parsed `package.json`.
pub fn read_npm(doc: &DocValue) -> (r: Vec<RawPackageDependency>)
    ensures
        views(r@) == npm_dependencies(doc@),
{
    let mut out: Vec<RawPackageDependency> = Vec::new();
    let runtime = Reading { ecosystem: "npm", kind: "runtime", nested: false, skip_python: false };
    let dev = Reading { ecosystem: "npm", kind: "dev", nested: false, skip_python: false };
    let peer = Reading { ecosystem: "npm", kind: "peer", nested: false, skip_python: false };
    let optional = Reading {
        ecosystem: "npm",
        kind: "optional",
        nested: false,
        skip_python: false,
    };
    proof {
        assert(views(out@) =~= seq![]);
        assert(documents::lits(seq!["dependencies"]) =~= seq!["dependencies"@]);
        assert(documents::lits(seq!["devDependencies"]) =~= seq!["devDependencies"@]);
        assert(documents::lits(seq!["peerDependencies"]) =~= seq!["peerDependencies"@]);
        assert(documents::lits(seq!["optionalDependencies"]) =~= seq!["optionalDependencies"@]);
    }
    let a: Vec<&'static str> = vec!["dependencies"];
    assert(a@ =~= seq!["dependencies"]);
    push_section(&mut out, doc, a, &runtime);
    let b: Vec<&'static str> = vec!["devDependencies"];
    assert(b@ =~= seq!["devDependencies"]);
    push_section(&mut out, doc, b, &dev);
    let c: Vec<&'static str> = vec!["peerDependencies"];
    assert(c@ =~= seq!["peerDependencies"]);
    push_section(&mut out, doc, c, &peer);
    let d: Vec<&'static str> = vec!["optionalDependencies"];
    assert(d@ =~= seq!["optionalDependencies"]);
    push_section(&mut out, doc, d, &optional);
    assert(views(out@) =~= npm_dependencies(doc@));
    out
}

/// The dependencies that a `package.json` declares; none where it is malformed.
pub fn parse_package_json(content: &str) -> (r: Vec<RawPackageDependency>)
    ensures
        views(r@) == (match documents::json_document(content@) {
            Some(d) => npm_dependencies(d),
            None => seq![],
        }),
{
    match documents::read_json(content) {
        Some(doc) => read_npm(&doc),
        None => {
            let none: Vec<RawPackageDependency> = Vec::new();
            assert(views(none@) =~= seq![]);
            none
        },
    }
}

// ---------------------------------------------------------------------------
// go.mod
// ---------------------------------------------------------------------------

/// The requirement that an entry of a `go.mod` names: a module and a version;
/// a comment behind them is not read.
pub open spec fn go_requirement(entry: Seq<char>) -> Option<Dependency> {
    let words = text::words_of(text::trimmed(text::up_to_text(entry, "//"@)));
    if words.len() < 2 {
        None
    } else {
        Some(found(words[0], Some(words[1]), "go"@, "runtime"@))
    }
}

/// After some lines of a `go.mod`: are we inside of a `require` block, and what
/// was required?
pub open spec fn go_read(lines: Seq<Seq<char>>) -> (bool, Seq<Dependency>)
    decreases lines.len(),
{
    if lines.len() == 0 {
        (false, seq![])
    } else {
        let (block, deps) = go_read(lines.drop_last());
        let line = text::trimmed(lines.last());
        let entry = if block {
            Some(line)
        } else {
            match text::after_prefix(line, "require "@) {
                Some(rest) => Some(text::trimmed(rest)),
                None => None,
            }
        };
        if line == "require ("@ {
            (true, deps)
        } else if block && line == ")"@ {
            (false, deps)
        } else {
            match entry {
                Some(e) => match go_requirement(e) {
                    Some(d) => (block, deps.push(d)),
                    None => (block, deps),
                },
                None => (block, deps),
            }
        }
    }
}

fn read_go_requirement(entry: &[char]) -> (r: Option<RawPackageDependency>)
    ensures
        match r {
            Some(d) => go_requirement(entry@) == Some(d@),
            None => go_requirement(entry@) is None,
        },
{
    let ws = text::words(text::trim(text::before_text(entry, "//")));
    assert(text::slices(ws@).len() == ws@.len());
    if ws.len() < 2 {
        return None;
    }
    assert(text::slices(ws@)[0] == ws@[0]@);
    assert(text::slices(ws@)[1] == ws@[1]@);
    Some(dep(text::string_of(ws[0]), Some(text::string_of(ws[1])), "go", "runtime"))
}

/// The modules that a `go.mod` requires, on single lines and in blocks.
pub fn parse_go_mod(content: &str) -> (r: Vec<RawPackageDependency>)
    ensures
        views(r@) == go_read(text::lines_of(content@)).1,
{
    let cs = text::chars_of(content);
    let lines = text::lines(cs.as_slice());
    let ghost all = text::lines_of(content@);
    assert(text::slices(lines@).len() == lines@.len());
    let mut out: Vec<RawPackageDependency> = Vec::new();
    let mut block = false;
    let mut i: usize = 0;
    assert(views(out@) =~= seq![]);
    assert(all.take(0) =~= seq![]);
    while i < lines.len()
        invariant
            i <= lines@.len(),
            text::slices(lines@) == all,
            all.len() == lines@.len(),
            (block, views(out@)) == go_read(all.take(i as int)),
        decreases lines@.len() - i,
    {
        proof {
            assert(all[i as int] == lines@[i as int]@);
            assert(all.take(i + 1).drop_last() =~= all.take(i as int));
            assert(all.take(i + 1).last() == all[i as int]);
        }
        let line = text::trim(lines[i]);
        i += 1;
        if text::is(line, "require (") {
            block = true;
            continue;
        }
        if block && text::is(line, ")") {
            block = false;
            continue;
        }
        let entry: Option<&[char]> = if block {
            Some(line)
        } else {
            match text::strip_prefix(line, "require ") {
                Some(rest) => Some(text::trim(rest)),
                None => None,
            }
        };
        if let Some(e) = entry {
            if let Some(d) = read_go_requirement(e) {
                let ghost before = out@;
                out.push(d);
                assert(views(out@) =~= views(before).push(d@));
            }
        }
    }
    assert(all.take(all.len() as int) =~= all);
    out
}

// ---------------------------------------------------------------------------
// requirements.txt and pyproject.toml
// ---------------------------------------------------------------------------

/// The requirement on one line: the name up to the first comparison, without
/// extras, and what follows it as the version. Blank lines, comments and
/// options are no requirements.
pub open spec fn requirement_on(line: Seq<char>) -> Option<Dependency> {
    let full = text::trimmed(line);
    let bare = text::trimmed(text::up_to(full, '#'));
    let raw = text::up_to_any(bare, "=<>!~;"@);
    let rest = text::trimmed(bare.skip(raw.len() as int));
    let name = text::trimmed(text::up_to(raw, '['));
    if full.len() == 0 || full[0] == '#' || full[0] == '-' || name.len() == 0 {
        None
    } else {
        Some(
            found(
                name,
                if rest.len() == 0 {
                    None
                } else {
                    Some(rest)
                },
                "pypi"@,
                "runtime"@,
            ),
        )
    }
}

/// The requirements on some lines, in order.
pub open spec fn requirements_on(lines: Seq<Seq<char>>) -> Seq<Dependency>
    decreases lines.len(),
{
    if lines.len() == 0 {
        seq![]
    } else {
        let init = requirements_on(lines.drop_last());
        match requirement_on(lines.last()) {
            Some(d) => init.push(d),
            None => init,
        }
    }
}

proof fn lemma_requirements_split(a: Seq<Seq<char>>, b: Seq<Seq<char>>)
    ensures
        requirements_on(a + b) == requirements_on(a) + requirements_on(b),
    decreases b.len(),
{
    if b.len() == 0 {
        assert(a + b =~= a);
        assert(requirements_on(a) + requirements_on(b) =~= requirements_on(a));
    } else {
        lemma_requirements_split(a, b.drop_last());
        assert((a + b).drop_last() =~= a + b.drop_last());
        assert((a + b).last() == b.last());
        let x = requirements_on(a);
        let y = requirements_on(b.drop_last());
        if let Some(d) = requirement_on(b.last()) {
            assert((x + y).push(d) =~= x + y.push(d));
        }
    }
}

proof fn lemma_requirements_of_one(line: Seq<char>)
    ensures
        requirements_on(seq![line]) == (match requirement_on(line) {
            Some(d) => seq![d],
            None => seq![],
        }),
{
    let one = seq![line];
    assert(one.drop_last() =~= seq![]);
    assert(requirements_on(one.drop_last()) =~= seq![]);
    if let Some(d) = requirement_on(line) {
        assert(Seq::<Dependency>::empty().push(d) =~= seq![d]);
    }
}

/// A carriage return at the end of a line is trimmed with the rest.
proof fn lemma_line_end_is_trimmed(piece: Seq<char>)
    ensures
        requirement_on(text::line_text(piece, true)) == requirement_on(piece),
{
    if piece.len() > 0 && piece.last() == '\r' {
        lemma_trimmed_return(piece.drop_last());
        assert(piece.drop_last().push('\r') =~= piece);
    }
}

proof fn lemma_trimmed_return(s: Seq<char>)
    ensures
        text::trimmed(s.push('\r')) == text::trimmed(s),
    decreases s.len(),
{
    let t = s.push('\r');
    if s.len() == 0 {
        assert(t.drop_first() =~= s);
        assert(text::trimmed_front(t) == text::trimmed_front(s));
    } else if text::is_space(s[0]) {
        assert(t[0] == s[0]);
        assert(t.drop_first() =~= s.drop_first().push('\r'));
        lemma_trimmed_return(s.drop_first());
    } else {
        assert(t[0] == s[0]);
        assert(t.drop_last() =~= s);
    }
}

proof fn lemma_joined_from(a: Seq<char>, b: Seq<char>, from: int)
    requires
        0 <= from <= a.len(),
    ensures
        requirements_on(text::lines_from(a + seq!['\n'] + b, from)) == requirements_on(
            text::lines_from(a, from),
        ) + requirements_on(text::lines_of(b)),
    decreases a.len() - from,
{
    let s = a + seq!['\n'] + b;
    let q = seq!['\n'] + b;
    assert(s =~= a + q);
    let e = text::find_from(a, '\n', from);
    text::lemma_find_from(a, '\n', from);
    text::lemma_find_from_prefix(a, q, '\n', from);
    let piece = a.subrange(from, e);
    assert(s.subrange(from, e) =~= piece);
    let line = text::line_text(piece, true);
    lemma_requirements_split(seq![line], text::lines_from(s, e + 1));
    lemma_requirements_of_one(line);
    if e < a.len() {
        lemma_joined_from(a, b, e + 1);
        lemma_requirements_split(seq![line], text::lines_from(a, e + 1));
        let x = requirements_on(seq![line]);
        let y = requirements_on(text::lines_from(a, e + 1));
        assert(x + (y + requirements_on(text::lines_of(b))) =~= (x + y) + requirements_on(
            text::lines_of(b),
        ));
    } else {
        let p = a + seq!['\n'];
        assert(s =~= p + b);
        text::lemma_lines_shift(p, b, 0);
        lemma_line_end_is_trimmed(piece);
        if from < a.len() {
            assert(text::lines_from(a, from) =~= seq![piece]);
            lemma_requirements_of_one(piece);
        } else {
            assert(piece =~= seq![]);
            assert(requirement_on(piece) is None);
            assert(text::lines_from(a, from) =~= seq![]);
        }
    }
}

/// The requirements of two texts that a line break joins are those of the first
/// and then those of the second.
pub proof fn lemma_requirements_join(a: Seq<char>, b: Seq<char>)
    ensures
        requirements_on(text::lines_of(a + seq!['\n'] + b)) == requirements_on(text::lines_of(a))
            + requirements_on(text::lines_of(b)),
{
    lemma_joined_from(a, b, 0);
}

/// A character that begins a version, a marker, extras or a comment.
pub open spec fn ends_a_name(c: char) -> bool {
    "=<>!~;[#"@.contains(c)
}

proof fn lemma_trimmed_front_sub(s: Seq<char>)
    ensures
        forall|i: int|
            0 <= i < text::trimmed_front(s).len() ==> s.contains(
                #[trigger] text::trimmed_front(s)[i],
            ),
        text::trimmed_front(s).len() > 0 ==> !text::is_space(text::trimmed_front(s)[0]),
        s.len() > 0 && !text::is_space(s[0]) ==> text::trimmed_front(s) == s,
    decreases s.len(),
{
    if s.len() > 0 && text::is_space(s[0]) {
        let rest = s.drop_first();
        lemma_trimmed_front_sub(rest);
        assert forall|i: int| 0 <= i < text::trimmed_front(s).len() implies s.contains(
            #[trigger] text::trimmed_front(s)[i],
        ) by {
            let c = text::trimmed_front(rest)[i];
            let k = choose|k: int| 0 <= k < rest.len() && rest[k] == c;
            assert(s[k + 1] == c);
        }
    }
}

proof fn lemma_trimmed_back_sub(s: Seq<char>)
    ensures
        text::trimmed_back(s).len() <= s.len(),
        text::trimmed_back(s) == s.take(text::trimmed_back(s).len() as int),
    decreases s.len(),
{
    if s.len() > 0 && text::is_space(s.last()) {
        lemma_trimmed_back_sub(s.drop_last());
        let n = text::trimmed_back(s).len() as int;
        assert(s.drop_last().take(n) =~= s.take(n));
    } else {
        assert(s.take(s.len() as int) =~= s);
    }
}

proof fn lemma_trimmed_sub(s: Seq<char>)
    ensures
        forall|i: int|
            0 <= i < text::trimmed(s).len() ==> s.contains(#[trigger] text::trimmed(s)[i]),
        s.len() > 0 && !text::is_space(s[0]) ==> text::trimmed(s).len() == 0 || text::trimmed(s)[0]
            == s[0],
{
    let f = text::trimmed_front(s);
    lemma_trimmed_front_sub(s);
    lemma_trimmed_back_sub(f);
    assert forall|i: int| 0 <= i < text::trimmed(s).len() implies s.contains(
        #[trigger] text::trimmed(s)[i],
    ) by {
        assert(text::trimmed(s)[i] == f[i]);
    }
}

proof fn lemma_up_to_any_stops(s: Seq<char>, set: Seq<char>)
    ensures
        forall|i: int|
            0 <= i < text::up_to_any(s, set).len() ==> !set.contains(
                #[trigger] text::up_to_any(s, set)[i],
            ) && s.contains(text::up_to_any(s, set)[i]),
        text::up_to_any(s, set).len() < s.len() ==> set.contains(
            s[text::up_to_any(s, set).len() as int],
        ),
    decreases s.len(),
{
    if s.len() > 0 && !set.contains(s[0]) {
        let rest = s.drop_first();
        lemma_up_to_any_stops(rest, set);
        let u = text::up_to_any(s, set);
        let v = text::up_to_any(rest, set);
        assert forall|i: int| 0 <= i < u.len() implies !set.contains(#[trigger] u[i])
            && s.contains(u[i]) by {
            if i == 0 {
                assert(s[0] == u[0]);
            } else {
                assert(u[i] == v[i - 1]);
                let k = choose|k: int| 0 <= k < rest.len() && rest[k] == v[i - 1];
                assert(s[k + 1] == u[i]);
            }
        }
    }
}

/// The name of a requirement is never empty and holds nothing that belongs to
/// its extras, its version or a comment, and its version, where it has one,
/// begins with a comparison or a marker.
pub open spec fn is_requirement(d: Dependency) -> bool {
    &&& d.name.len() > 0
    &&& forall|i: int| 0 <= i < d.name.len() ==> !ends_a_name(#[trigger] d.name[i])
    &&& d.version_spec matches Some(v) ==> v.len() > 0 && "=<>!~;"@.contains(v[0])
}

proof fn lemma_requirement_shape(line: Seq<char>)
    requires
        requirement_on(line) is Some,
    ensures
        is_requirement(requirement_on(line)->Some_0),
{
    reveal_strlit("=<>!~;[#");
    reveal_strlit("=<>!~;");
    let full = text::trimmed(line);
    let cut = text::up_to(full, '#');
    let bare = text::trimmed(cut);
    let set = "=<>!~;"@;
    let raw = text::up_to_any(bare, set);
    let tail = bare.skip(raw.len() as int);
    let open = text::up_to(raw, '[');
    let name = text::trimmed(open);
    text::lemma_find_from(full, '#', 0);
    text::lemma_find_from(raw, '[', 0);
    lemma_trimmed_sub(cut);
    lemma_trimmed_sub(open);
    lemma_trimmed_sub(tail);
    lemma_up_to_any_stops(bare, set);
    lemma_up_to_any_len(bare, set);
    assert forall|i: int| 0 <= i < name.len() implies !ends_a_name(#[trigger] name[i]) by {
        let c = name[i];
        assert(open.contains(c));
        let k = choose|k: int| 0 <= k < open.len() && open[k] == c;
        assert(raw[k] == c && c != '[');
        assert(bare.contains(c) && !set.contains(c));
        let m = choose|m: int| 0 <= m < bare.len() && bare[m] == c;
        assert(cut.contains(bare[m]));
        let n = choose|n: int| 0 <= n < cut.len() && cut[n] == c;
        assert(full[n] == c && c != '#');
        if ends_a_name(c) {
            let x = choose|x: int| 0 <= x < 8 && "=<>!~;[#"@[x] == c;
            assert(x < 6);
            assert(set[x] == c);
        }
    }
    if tail.len() > 0 {
        assert(tail[0] == bare[raw.len() as int]);
        let x = choose|x: int| 0 <= x < set.len() && set[x] == tail[0];
        assert(!text::is_space(tail[0]));
    }
}

/// Every requirement that is read has that form.
pub proof fn lemma_requirements_shape(lines: Seq<Seq<char>>, k: int)
    requires
        0 <= k < requirements_on(lines).len(),
    ensures
        is_requirement(requirements_on(lines)[k]),
    decreases lines.len(),
{
    if k < requirements_on(lines.drop_last()).len() {
        lemma_requirements_shape(lines.drop_last(), k);
    } else {
        lemma_requirement_shape(lines.last());
    }
}

proof fn lemma_up_to_any_len(s: Seq<char>, set: Seq<char>)
    ensures
        text::up_to_any(s, set).len() <= s.len(),
        text::up_to_any(s, set) == s.take(text::up_to_any(s, set).len() as int),
    decreases s.len(),
{
    if s.len() > 0 && !set.contains(s[0]) {
        lemma_up_to_any_len(s.drop_first(), set);
        let r = text::up_to_any(s, set);
        assert(r =~= s.take(r.len() as int));
    } else {
        assert(s.take(0) =~= seq![]);
    }
}

fn read_requirement(line: &[char]) -> (r: Option<RawPackageDependency>)
    ensures
        match r {
            Some(d) => requirement_on(line@) == Some(d@),
            None => requirement_on(line@) is None,
        },
{
    let full = text::trim(line);
    if full.len() == 0 || full[0] == '#' || full[0] == '-' {
        return None;
    }
    let bare = text::trim(text::before_char(full, '#'));
    let raw = text::before_any(bare, "=<>!~;");
    proof {
        lemma_up_to_any_len(bare@, "=<>!~;"@);
    }
    let tail = slice_subrange(bare, raw.len(), bare.len());
    assert(tail@ =~= bare@.skip(raw@.len() as int));
    let rest = text::trim(tail);
    let name = text::trim(text::before_char(raw, '['));
    if name.len() == 0 {
        return None;
    }
    let version = if rest.len() == 0 {
        None
    } else {
        Some(text::string_of(rest))
    };
    Some(dep(text::string_of(name), version, "pypi", "runtime"))
}

fn push_requirements(out: &mut Vec<RawPackageDependency>, content: &str)
    ensures
        views(final(out)@) == views(old(out)@) + requirements_on(text::lines_of(content@)),
{
    let cs = text::chars_of(content);
    let lines = text::lines(cs.as_slice());
    let ghost all = text::lines_of(content@);
    let ghost start = views(out@);
    assert(text::slices(lines@).len() == lines@.len());
    let mut i: usize = 0;
    assert(start + requirements_on(all.take(0)) =~= start);
    while i < lines.len()
        invariant
            i <= lines@.len(),
            text::slices(lines@) == all,
            all.len() == lines@.len(),
            views(out@) == start + requirements_on(all.take(i as int)),
        decreases lines@.len() - i,
    {
        let ghost before = out@;
        let ghost init = requirements_on(all.take(i as int));
        proof {
            assert(all[i as int] == lines@[i as int]@);
            assert(all.take(i + 1).drop_last() =~= all.take(i as int));
            assert(all.take(i + 1).last() == all[i as int]);
        }
        if let Some(d) = read_requirement(lines[i]) {
            out.push(d);
            assert(views(out@) =~= views(before).push(d@));
            assert((start + init).push(d@) =~= start + init.push(d@));
        }
        i += 1;
    }
    assert(all.take(all.len() as int) =~= all);
}

/// The requirements that a `requirements.txt` lists.
pub fn parse_requirements_txt(content: &str) -> (r: Vec<RawPackageDependency>)
    ensures
        views(r@) == requirements_on(text::lines_of(content@)),
{
    let mut out: Vec<RawPackageDependency> = Vec::new();
    assert(views(out@) =~= seq![]);
    push_requirements(&mut out, content);
    assert(views(out@) =~= requirements_on(text::lines_of(content@)));
    out
}

/// The requirements that the texts of a list spell, in order.
pub open spec fn listed_requirements(items: Seq<Doc>) -> Seq<Dependency>
    decreases items.len(),
{
    if items.len() == 0 {
        seq![]
    } else {
        let init = listed_requirements(items.drop_last());
        match documents::as_text(items.last()) {
            Some(s) => init + requirements_on(text::lines_of(s)),
            None => init,
        }
    }
}

/// The requirements of a project's own list.
pub open spec fn project_requirements(d: Doc) -> Seq<Dependency> {
    match documents::at(d, seq!["project"@, "dependencies"@]) {
        Some(Doc::List(items)) => listed_requirements(items),
        _ => seq![],
    }
}

/// The dependencies of all groups, in order.
pub open spec fn group_dependencies(groups: Seq<(Seq<char>, Doc)>) -> Seq<Dependency>
    decreases groups.len(),
{
    if groups.len() == 0 {
        seq![]
    } else {
        group_dependencies(groups.drop_last()) + section(
            groups.last().1,
            seq!["dependencies"@],
            reading("pypi", "dev", true, true),
        )
    }
}

/// The dependencies of Poetry's groups; every group is for development.
pub open spec fn poetry_groups(d: Doc) -> Seq<Dependency> {
    match documents::at(d, seq!["tool"@, "poetry"@, "group"@]) {
        Some(Doc::Table(groups)) => group_dependencies(groups),
        _ => seq![],
    }
}

/// The dependencies of a `pyproject.toml`.
pub open spec fn pyproject_dependencies(d: Doc) -> Seq<Dependency> {
    project_requirements(d) + section(
        d,
        seq!["tool"@, "poetry"@, "dependencies"@],
        reading("pypi", "runtime", true, true),
    ) + section(
        d,
        seq!["tool"@, "poetry"@, "dev-dependencies"@],
        reading("pypi", "dev", true, true),
    ) + poetry_groups(d)
}

fn push_listed(out: &mut Vec<RawPackageDependency>, items: &Vec<DocValue>, list: &DocValue)
    requires
        *list == DocValue::List(*items),
    ensures
        views(final(out)@) == views(old(out)@) + listed_requirements(list@->List_0),
{
    let ghost start = views(out@);
    let ghost all = list@->List_0;
    let mut i: usize = 0;
    assert(start + listed_requirements(all.take(0)) =~= start);
    while i < items.len()
        invariant
            i <= items@.len(),
            *list == DocValue::List(*items),
            all == list@->List_0,
            all.len() == items@.len(),
            views(out@) == start + listed_requirements(all.take(i as int)),
        decreases items@.len() - i,
    {
        let ghost init = listed_requirements(all.take(i as int));
        proof {
            assert(all[i as int] == items@[i as int]@);
            assert(all.take(i + 1).drop_last() =~= all.take(i as int));
            assert(all.take(i + 1).last() == all[i as int]);
        }
        if let Some(s) = items[i].text() {
            push_requirements(out, s.as_str());
            assert(start + init + requirements_on(text::lines_of(s@)) =~= start + (init
                + requirements_on(text::lines_of(s@))));
        }
        i += 1;
    }
    assert(all.take(all.len() as int) =~= all);
}

fn push_groups(
    out: &mut Vec<RawPackageDependency>,
    groups: &Vec<(String, DocValue)>,
    table: &DocValue,
)
    requires
        *table == DocValue::Table(*groups),
    ensures
        views(final(out)@) == views(old(out)@) + group_dependencies(table@->Table_0),
{
    let ghost start = views(out@);
    let ghost all = table@->Table_0;
    let how = Reading { ecosystem: "pypi", kind: "dev", nested: true, skip_python: true };
    let mut i: usize = 0;
    assert(start + group_dependencies(all.take(0)) =~= start);
    while i < groups.len()
        invariant
            i <= groups@.len(),
            *table == DocValue::Table(*groups),
            all == table@->Table_0,
            all.len() == groups@.len(),
            how == reading("pypi", "dev", true, true),
            views(out@) == start + group_dependencies(all.take(i as int)),
        decreases groups@.len() - i,
    {
        let ghost init = group_dependencies(all.take(i as int));
        let path: Vec<&'static str> = vec!["dependencies"];
        proof {
            assert(all[i as int] == (groups@[i as int].0@, groups@[i as int].1@));
            assert(all.take(i + 1).drop_last() =~= all.take(i as int));
            assert(all.take(i + 1).last() == all[i as int]);
            assert(documents::lits(path@) =~= seq!["dependencies"@]);
        }
        push_section(out, &groups[i].1, path, &how);
        proof {
            let own = section(all[i as int].1, seq!["dependencies"@], how);
            assert(start + init + own =~= start + (init + own));
        }
        i += 1;
    }
    assert(all.take(all.len() as int) =~= all);
}

/// The dependencies of a parsed `pyproject.toml`.
pub fn read_pyproject(doc: &DocValue) -> (r: Vec<RawPackageDependency>)
    ensures
        views(r@) == pyproject_dependencies(doc@),
{
    let mut out: Vec<RawPackageDependency> = Vec::new();
    let runtime = Reading { ecosystem: "pypi", kind: "runtime", nested: true, skip_python: true };
    let dev = Reading { ecosystem: "pypi", kind: "dev", nested: true, skip_python: true };
    let own: Vec<&'static str> = vec!["project", "dependencies"];
    let main: Vec<&'static str> = vec!["tool", "poetry", "dependencies"];
    let old_dev: Vec<&'static str> = vec!["tool", "poetry", "dev-dependencies"];
    let group: Vec<&'static str> = vec!["tool", "poetry", "group"];
    proof {
        assert(views(out@) =~= seq![]);
        assert(documents::lits(own@) =~= seq!["project"@, "dependencies"@]);
        assert(documents::lits(main@) =~= seq!["tool"@, "poetry"@, "dependencies"@]);
        assert(documents::lits(old_dev@) =~= seq!["tool"@, "poetry"@, "dev-dependencies"@]);
        assert(documents::lits(group@) =~= seq!["tool"@, "poetry"@, "group"@]);
    }
    if let Some(list) = doc.walk(&own) {
        if let DocValue::List(items) = list {
            push_listed(&mut out, items, list);
        }
    }
    assert(views(out@) =~= project_requirements(doc@));
    push_section(&mut out, doc, main, &runtime);
    push_section(&mut out, doc, old_dev, &dev);
    let ghost so_far = views(out@);
    if let Some(table) = doc.walk(&group) {
        if let DocValue::Table(groups) = table {
            push_groups(&mut out, groups, table);
        }
    }
    assert(views(out@) =~= so_far + poetry_groups(doc@));
    out
}

/// The dependencies that a `pyproject.toml` declares; none where it is
/// malformed.
pub fn parse_pyproject_toml(content: &str) -> (r: Vec<RawPackageDependency>)
    ensures
        views(r@) == (match documents::toml_document(content@) {
            Some(d) => pyproject_dependencies(d),
            None => seq![],
        }),
{
    match documents::read_toml(content) {
        Some(doc) => read_pyproject(&doc),
        None => {
            let none: Vec<RawPackageDependency> = Vec::new();
            assert(views(none@) =~= seq![]);
            none
        },
    }
}

// ---------------------------------------------------------------------------
// A whole project
// ---------------------------------------------------------------------------

/// What a manifest declares, by its file name; other files declare nothing.
pub open spec fn declared_in(f: SourceFile) -> Seq<Dependency> {
    match paths::file_name(f.path@) {
        Some(n) => if n == "Cargo.toml"@ {
            match documents::toml_document(f.source@) {
                Some(d) => cargo_dependencies(d),
                None => seq![],
            }
        } else if n == "package.json"@ {
            match documents::json_document(f.source@) {
                Some(d) => npm_dependencies(d),
                None => seq![],
            }
        } else if n == "go.mod"@ {
            go_read(text::lines_of(f.source@)).1
        } else if n == "requirements.txt"@ {
            requirements_on(text::lines_of(f.source@))
        } else if n == "pyproject.toml"@ {
            match documents::toml_document(f.source@) {
                Some(d) => pyproject_dependencies(d),
                None => seq![],
            }
        } else {
            seq![]
        },
        None => seq![],
    }
}

/// The dependencies of one file, with the file as their manifest.
pub open spec fn filed(deps: Seq<Dependency>, path: Seq<char>) -> Seq<Dependency> {
    deps.map_values(|d: Dependency| (Dependency { manifest_path: path, ..d }))
}

/// The dependencies of all files, in order.
pub open spec fn project_dependencies(files: Seq<SourceFile>) -> Seq<Dependency>
    decreases files.len(),
{
    if files.len() == 0 {
        seq![]
    } else {
        project_dependencies(files.drop_last()) + filed(
            declared_in(files.last()),
            files.last().path@,
        )
    }
}

fn read_manifest(f: &SourceFile) -> (r: Vec<RawPackageDependency>)
    ensures
        views(r@) == declared_in(*f),
{
    let cs = text::chars_of(f.path.as_str());
    let content = f.source.as_str();
    if let Some(n) = paths::name_of(cs.as_slice()) {
        if text::is(n, "Cargo.toml") {
            return parse_cargo_toml(content);
        }
        if text::is(n, "package.json") {
            return parse_package_json(content);
        }
        if text::is(n, "go.mod") {
            return parse_go_mod(content);
        }
        if text::is(n, "requirements.txt") {
            return parse_requirements_txt(content);
        }
        if text::is(n, "pyproject.toml") {
            return parse_pyproject_toml(content);
        }
    }
    let none: Vec<RawPackageDependency> = Vec::new();
    assert(views(none@) =~= seq![]);
    none
}

/// The dependencies that the manifests among a project's files declare.
pub fn scan_project(files: &Vec<SourceFile>) -> (r: Vec<RawPackageDependency>)
    ensures
        views(r@) == project_dependencies(files@),
{
    let mut out: Vec<RawPackageDependency> = Vec::new();
    let mut i: usize = 0;
    assert(views(out@) =~= project_dependencies(files@.take(0)));
    while i < files.len()
        invariant
            i <= files@.len(),
            views(out@) == project_dependencies(files@.take(i as int)),
        decreases files@.len() - i,
    {
        let f = &files[i];
        let mut deps = read_manifest(f);
        let ghost start = views(out@);
        let ghost raw = views(deps@);
        let ghost want = filed(raw, f.path@);
        proof {
            assert(files@.take(i + 1).drop_last() =~= files@.take(i as int));
            assert(files@.take(i + 1).last() == *f);
            assert(raw.len() == deps@.len());
        }
        let mut n: usize = 0;
        while n < deps.len()
            invariant
                n <= deps@.len(),
                deps@.len() == raw.len(),
                want == filed(raw, f.path@),
                forall|k: int| n <= k < raw.len() ==> (#[trigger] deps@[k])@ == raw[k],
                forall|k: int| 0 <= k < n ==> (#[trigger] deps@[k])@ == want[k],
            decreases deps@.len() - n,
        {
            deps[n].manifest_path = f.path.clone();
            assert(deps@[n as int]@ == want[n as int]);
            n += 1;
        }
        let ghost before = out@;
        let ghost own = deps@;
        out.append(&mut deps);
        assert(out@ =~= before + own);
        assert(views(own) =~= want);
        assert(views(out@) =~= start + want);
        i += 1;
    }
    assert(files@.take(files@.len() as int) =~= files@);
    out
}

// ---------------------------------------------------------------------------
// Laws
// ---------------------------------------------------------------------------

/// Where the interpreter's constraint is skipped, no dependency is called
/// `python`.
pub proof fn lemma_python_is_skipped(entries: Seq<(Seq<char>, Doc)>, how: Reading, i: int)
    requires
        how.skip_python,
        0 <= i < table_dependencies(entries, how).len(),
    ensures
        table_dependencies(entries, how)[i].name != "python"@,
    decreases entries.len(),
{
    let init = table_dependencies(entries.drop_last(), how);
    if i < init.len() {
        lemma_python_is_skipped(entries.drop_last(), how, i);
    }
}

/// A table's dependencies are its entries: each is the name of an entry, with
/// the version that this entry spells, or with none.
pub proof fn lemma_nothing_made_up(entries: Seq<(Seq<char>, Doc)>, how: Reading, i: int)
    requires
        0 <= i < table_dependencies(entries, how).len(),
    ensures
        exists|k: int|
            0 <= k < entries.len() && (#[trigger] entries[k]).0 == table_dependencies(
                entries,
                how,
            )[i].name && table_dependencies(entries, how)[i].version_spec == (if how.nested {
                version_of(entries[k].1)
            } else {
                documents::as_text(entries[k].1)
            }),
    decreases entries.len(),
{
    let init = table_dependencies(entries.drop_last(), how);
    if i < init.len() {
        lemma_nothing_made_up(entries.drop_last(), how, i);
        let rest = entries.drop_last();
        let k = choose|k: int|
            0 <= k < rest.len() && (#[trigger] rest[k]).0 == init[i].name && init[i].version_spec
                == (if how.nested {
                version_of(rest[k].1)
            } else {
                documents::as_text(rest[k].1)
            });
        assert(entries[k] == rest[k]);
    } else {
        assert(entries[entries.len() - 1] == entries.last());
    }
}

/// Every dependency of a project names the file that declares it.
pub proof fn lemma_dependency_names_its_manifest(files: Seq<SourceFile>, i: int)
    requires
        0 <= i < project_dependencies(files).len(),
    ensures
        exists|k: int|
            0 <= k < files.len() && (#[trigger] files[k]).path@ == project_dependencies(
                files,
            )[i].manifest_path,
    decreases files.len(),
{
    let init = project_dependencies(files.drop_last());
    if i < init.len() {
        lemma_dependency_names_its_manifest(files.drop_last(), i);
        let rest = files.drop_last();
        let k = choose|k: int|
            0 <= k < rest.len() && (#[trigger] rest[k]).path@ == init[i].manifest_path;
        assert(files[k] == rest[k]);
    } else {
        assert(files[files.len() - 1] == files.last());
    }
}

} // verus!
