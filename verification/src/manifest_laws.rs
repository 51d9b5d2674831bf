//! What the manifests of a project declare, said of their own text and tables.

use vstd::prelude::*;

use crate::documents;
use crate::documents::Doc;
use crate::go_module;
use crate::import_laws;
use crate::jvm_package;
use crate::jvm_package::SourceFile;
use crate::package_deps;
use crate::package_deps::{Dependency, Reading};
use crate::path_laws;
use crate::paths;
use crate::text;

verus! {

// ---------------------------------------------------------------------------
// Lines and words
// ---------------------------------------------------------------------------

/// A line with a line feed behind it is the first line, and what follows has
/// the others.
pub proof fn lemma_first_line(a: Seq<char>, b: Seq<char>)
    requires
        !a.contains('\n'),
        a.len() == 0 || a.last() != '\r',
    ensures
        text::lines_of(a + seq!['\n'] + b) == seq![a] + text::lines_of(b),
        a.len() > 0 ==> text::lines_of(a) == seq![a],
{
    let s = a + seq!['\n'] + b;
    let at = a.len() as int;
    assert(s[at] == '\n');
    text::lemma_find_from(s, '\n', 0);
    let e = text::find_from(s, '\n', 0);
    if e < at {
        assert(a[e] == '\n');
        assert(a.contains('\n'));
    }
    assert(e == at);
    assert(s.subrange(0, at) =~= a);
    assert(s =~= (a + seq!['\n']) + b);
    text::lemma_lines_shift(a + seq!['\n'], b, 0);
    assert(text::lines_from(s, at + 1) == text::lines_from(b, 0));
    assert(text::line_text(a, true) =~= a);
    assert(text::lines_of(s) =~= seq![a] + text::lines_of(b));
    if a.len() > 0 {
        text::lemma_find_from(a, '\n', 0);
        let f = text::find_from(a, '\n', 0);
        if f < a.len() {
            assert(a.contains('\n'));
        }
        assert(a.subrange(0, at) =~= a);
        assert(text::lines_of(a) =~= seq![a]);
    }
}

pub open spec fn has_space(s: Seq<char>) -> bool {
    exists|i: int| 0 <= i < s.len() && text::is_space(#[trigger] s[i])
}

proof fn lemma_space_from(a: Seq<char>, b: Seq<char>, from: int)
    requires
        0 <= from <= a.len(),
        !has_space(a),
        b.len() > 0 ==> text::is_space(b[0]),
    ensures
        text::space_from(a + b, from) == a.len(),
    decreases a.len() - from,
{
    let s = a + b;
    if from < a.len() {
        assert(s[from] == a[from]);
        lemma_space_from(a, b, from + 1);
    } else if b.len() > 0 {
        assert(s[from] == b[0]);
    }
}

proof fn lemma_words_shift(p: Seq<char>, s: Seq<char>, from: int)
    requires
        0 <= from <= s.len(),
    ensures
        text::words_from(p + s, p.len() + from) == text::words_from(s, from),
    decreases s.len() - from,
{
    let q = p + s;
    if from < s.len() {
        assert(q[p.len() + from] == s[from]);
        if text::is_space(s[from]) {
            lemma_words_shift(p, s, from + 1);
        } else {
            lemma_space_shift(p, s, from);
            let e = text::space_from(s, from);
            lemma_space_bounds(s, from);
            assert(q.subrange(p.len() + from, p.len() + e) =~= s.subrange(from, e));
            if from < e <= s.len() {
                lemma_words_shift(p, s, e);
            }
        }
    }
}

proof fn lemma_space_shift(p: Seq<char>, s: Seq<char>, from: int)
    requires
        0 <= from <= s.len(),
    ensures
        text::space_from(p + s, p.len() + from) == p.len() + text::space_from(s, from),
    decreases s.len() - from,
{
    if from < s.len() {
        assert((p + s)[p.len() + from] == s[from]);
        if !text::is_space(s[from]) {
            lemma_space_shift(p, s, from + 1);
        }
    }
}

proof fn lemma_space_bounds(s: Seq<char>, from: int)
    requires
        0 <= from <= s.len(),
    ensures
        from <= text::space_from(s, from) <= s.len(),
        from < s.len() && !text::is_space(s[from]) ==> from < text::space_from(s, from),
    decreases s.len() - from,
{
    if from < s.len() && !text::is_space(s[from]) {
        lemma_space_bounds(s, from + 1);
    }
}

/// A word is everything up to the next space; the space itself is no part of
/// any word.
pub proof fn lemma_words(w: Seq<char>, c: char, rest: Seq<char>)
    requires
        w.len() > 0,
        !has_space(w),
        text::is_space(c),
    ensures
        text::words_of(w) == seq![w],
        text::words_of(w + seq![c] + rest) == seq![w] + text::words_of(rest),
        text::words_of(seq![c] + rest) == text::words_of(rest),
{
    let none = Seq::<char>::empty();
    assert(!text::is_space(w[0]));
    assert(w + none =~= w);
    lemma_space_from(w, none, 0);
    assert(w.subrange(0, w.len() as int) =~= w);
    assert(text::words_from(w, w.len() as int) =~= seq![]);
    assert(text::words_of(w) =~= seq![w]);
    let s = w + seq![c] + rest;
    assert(s =~= w + (seq![c] + rest));
    lemma_space_from(w, seq![c] + rest, 0);
    assert(s[0] == w[0]);
    assert(s.subrange(0, w.len() as int) =~= w);
    let p = w + seq![c];
    assert(s =~= p + rest);
    lemma_words_shift(p, rest, 0);
    assert(s[w.len() as int] == c);
    assert(text::words_from(s, w.len() as int) == text::words_from(s, w.len() as int + 1));
    assert(text::words_of(s) =~= seq![w] + text::words_of(rest));
    let t = seq![c] + rest;
    lemma_words_shift(seq![c], rest, 0);
    assert(t[0] == c);
    assert(text::words_from(t, 0) == text::words_from(t, 1));
}

// ---------------------------------------------------------------------------
// Tables
// ---------------------------------------------------------------------------

/// The entry at `i` is the first one with that key.
pub open spec fn is_first_entry(t: Seq<(Seq<char>, Doc)>, i: int, key: Seq<char>) -> bool {
    &&& 0 <= i < t.len()
    &&& t[i].0 == key
    &&& forall|k: int| 0 <= k < i ==> (#[trigger] t[k]).0 != key
}

/// What a table has for a key is its first entry with it, and nothing where
/// there is none.
pub proof fn lemma_entry(t: Seq<(Seq<char>, Doc)>, key: Seq<char>)
    ensures
        forall|i: int| #[trigger]
            is_first_entry(t, i, key) ==> documents::entry(t, key) == Some(t[i].1),
        (forall|k: int| 0 <= k < t.len() ==> (#[trigger] t[k]).0 != key) ==> documents::entry(
            t,
            key,
        ) is None,
    decreases t.len(),
{
    if t.len() > 0 {
        let rest = t.drop_first();
        lemma_entry(rest, key);
        assert(forall|k: int| 0 <= k < rest.len() ==> rest[k] == t[k + 1]);
        assert forall|i: int| #[trigger] is_first_entry(t, i, key) implies documents::entry(t, key)
            == Some(t[i].1) by {
            if i > 0 {
                assert(t[0].0 != key);
                assert(is_first_entry(rest, i - 1, key));
            }
        }
        if forall|k: int| 0 <= k < t.len() ==> (#[trigger] t[k]).0 != key {
            assert(t[0].0 != key);
            assert forall|k: int| 0 <= k < rest.len() implies (#[trigger] rest[k]).0 != key by {
                assert(rest[k] == t[k + 1]);
            }
        }
    }
}

/// A path of keys is followed one key after the other, through tables alone.
pub proof fn lemma_at(d: Doc, key: Seq<char>, rest: Seq<Seq<char>>)
    ensures
        documents::at(d, seq![]) == Some(d),
        d matches Doc::Table(t) ==> (forall|i: int| #[trigger]
            is_first_entry(t, i, key) ==> documents::at(d, seq![key] + rest) == documents::at(
                t[i].1,
                rest,
            )),
        d !is Table ==> documents::at(d, seq![key] + rest) is None,
{
    let path = seq![key] + rest;
    assert(path[0] == key);
    assert(path.drop_first() =~= rest);
    if d is Table {
        lemma_entry(d->Table_0, key);
    }
}

/// The version of an entry: the text that it is, or, where entries can be
/// tables, the text that its `version` is.
pub open spec fn has_version(value: Doc, nested: bool, v: Option<Seq<char>>) -> bool {
    match value {
        Doc::Text(s) => v == Some(s),
        Doc::Table(t) => if nested {
            &&& forall|i: int| #[trigger]
                is_first_entry(t, i, "version"@) ==> (t[i].1 matches Doc::Text(s) ==> v == Some(s))
                    && (t[i].1 !is Text ==> v is None)
            &&& (forall|k: int| 0 <= k < t.len() ==> (#[trigger] t[k]).0 != "version"@) ==> v
                is None
        } else {
            v is None
        },
        _ => v is None,
    }
}

/// The table has an entry of the dependency's name and version.
pub open spec fn table_gives(
    t: Seq<(Seq<char>, Doc)>,
    nested: bool,
    skip_python: bool,
    name: Seq<char>,
    v: Option<Seq<char>>,
) -> bool {
    !(skip_python && name == "python"@) && exists|i: int|
        0 <= i < t.len() && (#[trigger] t[i]).0 == name && v == (if nested {
            package_deps::version_of(t[i].1)
        } else {
            documents::as_text(t[i].1)
        })
}

/// The version of an entry is read off the entry itself.
pub proof fn lemma_version(value: Doc)
    ensures
        has_version(value, true, package_deps::version_of(value)),
        has_version(value, false, documents::as_text(value)),
{
    if value is Table {
        lemma_entry(value->Table_0, "version"@);
    }
}

#[verifier::rlimit(40)]
proof fn lemma_table(t: Seq<(Seq<char>, Doc)>, how: Reading, x: Dependency)
    ensures
        package_deps::table_dependencies(t, how).contains(x) <==> (x.manifest_path.len() == 0
            && x.ecosystem == how.ecosystem@ && x.kind == how.kind@ && table_gives(
            t,
            how.nested,
            how.skip_python,
            x.name,
            x.version_spec,
        )),
    decreases t.len(),
{
    let all = package_deps::table_dependencies(t, how);
    if t.len() > 0 {
        let less = t.drop_last();
        let init = package_deps::table_dependencies(less, how);
        let (name, value) = t.last();
        lemma_table(less, how, x);
        let v = if how.nested {
            package_deps::version_of(value)
        } else {
            documents::as_text(value)
        };
        assert(forall|i: int| 0 <= i < less.len() ==> less[i] == t[i]);
        if all.contains(x) {
            let k = choose|k: int| 0 <= k < all.len() && all[k] == x;
            if k < init.len() {
                assert(init[k] == x);
                let i = choose|i: int|
                    0 <= i < less.len() && (#[trigger] less[i]).0 == x.name && x.version_spec == (
                    if how.nested {
                        package_deps::version_of(less[i].1)
                    } else {
                        documents::as_text(less[i].1)
                    });
                assert(t[i].0 == x.name);
            } else {
                assert(t[t.len() - 1].0 == x.name);
            }
        }
        if x.manifest_path.len() == 0 && x.ecosystem == how.ecosystem@ && x.kind == how.kind@
            && table_gives(t, how.nested, how.skip_python, x.name, x.version_spec) {
            let i = choose|i: int|
                0 <= i < t.len() && (#[trigger] t[i]).0 == x.name && x.version_spec == (
                if how.nested {
                    package_deps::version_of(t[i].1)
                } else {
                    documents::as_text(t[i].1)
                });
            if i < less.len() {
                assert(less[i].0 == x.name);
                let k = choose|k: int| 0 <= k < init.len() && init[k] == x;
                assert(all[k] == x);
            } else {
                let d = package_deps::found(name, v, how.ecosystem@, how.kind@);
                assert(x.manifest_path =~= seq![]);
                assert(d == x);
                assert(all[all.len() - 1] == x);
            }
        }
    } else {
        assert(!all.contains(x));
    }
}

/// The table at the end of the path gives the dependency.
pub open spec fn section_gives(
    d: Doc,
    path: Seq<Seq<char>>,
    nested: bool,
    skip_python: bool,
    name: Seq<char>,
    v: Option<Seq<char>>,
) -> bool {
    documents::at(d, path) matches Some(Doc::Table(t)) && table_gives(
        t,
        nested,
        skip_python,
        name,
        v,
    )
}

proof fn lemma_section(d: Doc, path: Seq<Seq<char>>, how: Reading, x: Dependency)
    ensures
        package_deps::section(d, path, how).contains(x) <==> (x.manifest_path.len() == 0
            && x.ecosystem == how.ecosystem@ && x.kind == how.kind@ && section_gives(
            d,
            path,
            how.nested,
            how.skip_python,
            x.name,
            x.version_spec,
        )),
{
    match documents::at(d, path) {
        Some(Doc::Table(t)) => {
            lemma_table(t, how, x);
        },
        _ => {},
    }
}

proof fn lemma_concat<T>(a: Seq<T>, b: Seq<T>, x: T)
    ensures
        (a + b).contains(x) <==> a.contains(x) || b.contains(x),
{
    let s = a + b;
    if s.contains(x) {
        let k = choose|k: int| 0 <= k < s.len() && s[k] == x;
        if k < a.len() {
            assert(a[k] == x);
        } else {
            assert(b[k - a.len()] == x);
        }
    }
    if a.contains(x) {
        let k = choose|k: int| 0 <= k < a.len() && a[k] == x;
        assert(s[k] == x);
    }
    if b.contains(x) {
        let k = choose|k: int| 0 <= k < b.len() && b[k] == x;
        assert(s[a.len() + k] == x);
    }
}

/// A `Cargo.toml` declares what its dependency tables list: those for running,
/// for development and for building, and for running what the workspace's root
/// pins.
pub proof fn lemma_cargo(d: Doc, x: Dependency)
    ensures
        package_deps::cargo_dependencies(d).contains(x) <==> (x.manifest_path.len() == 0
            && x.ecosystem == "cargo"@ && ((x.kind == "runtime"@ && section_gives(
            d,
            seq!["dependencies"@],
            true,
            false,
            x.name,
            x.version_spec,
        )) || (x.kind == "dev"@ && section_gives(
            d,
            seq!["dev-dependencies"@],
            true,
            false,
            x.name,
            x.version_spec,
        )) || (x.kind == "build"@ && section_gives(
            d,
            seq!["build-dependencies"@],
            true,
            false,
            x.name,
            x.version_spec,
        )) || (x.kind == "runtime"@ && section_gives(
            d,
            seq!["workspace"@, "dependencies"@],
            true,
            false,
            x.name,
            x.version_spec,
        )))),
{
    let run = package_deps::reading("cargo", "runtime", true, false);
    let dev = package_deps::reading("cargo", "dev", true, false);
    let build = package_deps::reading("cargo", "build", true, false);
    let a = package_deps::section(d, seq!["dependencies"@], run);
    let b = package_deps::section(d, seq!["dev-dependencies"@], dev);
    let c = package_deps::section(d, seq!["build-dependencies"@], build);
    let e = package_deps::section(d, seq!["workspace"@, "dependencies"@], run);
    lemma_section(d, seq!["dependencies"@], run, x);
    lemma_section(d, seq!["dev-dependencies"@], dev, x);
    lemma_section(d, seq!["build-dependencies"@], build, x);
    lemma_section(d, seq!["workspace"@, "dependencies"@], run, x);
    lemma_concat(a, b, x);
    lemma_concat(a + b, c, x);
    lemma_concat(a + b + c, e, x);
}

/// A `package.json` declares what its four dependency tables list, each entry
/// with the text that it is.
pub proof fn lemma_npm(d: Doc, x: Dependency)
    ensures
        package_deps::npm_dependencies(d).contains(x) <==> (x.manifest_path.len() == 0
            && x.ecosystem == "npm"@ && ((x.kind == "runtime"@ && section_gives(
            d,
            seq!["dependencies"@],
            false,
            false,
            x.name,
            x.version_spec,
        )) || (x.kind == "dev"@ && section_gives(
            d,
            seq!["devDependencies"@],
            false,
            false,
            x.name,
            x.version_spec,
        )) || (x.kind == "peer"@ && section_gives(
            d,
            seq!["peerDependencies"@],
            false,
            false,
            x.name,
            x.version_spec,
        )) || (x.kind == "optional"@ && section_gives(
            d,
            seq!["optionalDependencies"@],
            false,
            false,
            x.name,
            x.version_spec,
        )))),
{
    let run = package_deps::reading("npm", "runtime", false, false);
    let dev = package_deps::reading("npm", "dev", false, false);
    let peer = package_deps::reading("npm", "peer", false, false);
    let opt = package_deps::reading("npm", "optional", false, false);
    let a = package_deps::section(d, seq!["dependencies"@], run);
    let b = package_deps::section(d, seq!["devDependencies"@], dev);
    let c = package_deps::section(d, seq!["peerDependencies"@], peer);
    let e = package_deps::section(d, seq!["optionalDependencies"@], opt);
    lemma_section(d, seq!["dependencies"@], run, x);
    lemma_section(d, seq!["devDependencies"@], dev, x);
    lemma_section(d, seq!["peerDependencies"@], peer, x);
    lemma_section(d, seq!["optionalDependencies"@], opt, x);
    lemma_concat(a, b, x);
    lemma_concat(a + b, c, x);
    lemma_concat(a + b + c, e, x);
}

/// Some item of the project's own list spells the requirement.
pub open spec fn list_gives(d: Doc, x: Dependency) -> bool {
    documents::at(d, seq!["project"@, "dependencies"@]) matches Some(Doc::List(items)) && exists|
        i: int,
    |
        0 <= i < items.len() && (#[trigger] items[i]) is Text && package_deps::requirements_on(
            text::lines_of(items[i]->Text_0),
        ).contains(x)
}

/// Some group of Poetry lists the dependency.
pub open spec fn group_gives(d: Doc, name: Seq<char>, v: Option<Seq<char>>) -> bool {
    documents::at(d, seq!["tool"@, "poetry"@, "group"@]) matches Some(Doc::Table(groups))
        && exists|i: int|
        0 <= i < groups.len() && section_gives(
            (#[trigger] groups[i]).1,
            seq!["dependencies"@],
            true,
            true,
            name,
            v,
        )
}

#[verifier::rlimit(40)]
proof fn lemma_listed(items: Seq<Doc>, x: Dependency)
    ensures
        package_deps::listed_requirements(items).contains(x) <==> exists|i: int|
            0 <= i < items.len() && (#[trigger] items[i]) is Text && package_deps::requirements_on(
                text::lines_of(items[i]->Text_0),
            ).contains(x),
    decreases items.len(),
{
    let all = package_deps::listed_requirements(items);
    if items.len() > 0 {
        let less = items.drop_last();
        let init = package_deps::listed_requirements(less);
        lemma_listed(less, x);
        assert(forall|i: int| 0 <= i < less.len() ==> less[i] == items[i]);
        let last = items.last();
        if last is Text {
            lemma_concat(
                init,
                package_deps::requirements_on(text::lines_of(last->Text_0)),
                x,
            );
        }
        if all.contains(x) {
            if init.contains(x) {
                let i = choose|i: int|
                    0 <= i < less.len() && (#[trigger] less[i]) is Text
                        && package_deps::requirements_on(
                        text::lines_of(less[i]->Text_0),
                    ).contains(x);
                assert(items[i] is Text);
            } else {
                assert(items[items.len() - 1] is Text);
            }
        }
        if exists|i: int|
            0 <= i < items.len() && (#[trigger] items[i]) is Text && package_deps::requirements_on(
                text::lines_of(items[i]->Text_0),
            ).contains(x) {
            let i = choose|i: int|
                0 <= i < items.len() && (#[trigger] items[i]) is Text
                    && package_deps::requirements_on(text::lines_of(items[i]->Text_0)).contains(x);
            if i < less.len() {
                assert(less[i] is Text);
            }
        }
    } else {
        assert(!all.contains(x));
    }
}

#[verifier::rlimit(40)]
proof fn lemma_groups(groups: Seq<(Seq<char>, Doc)>, x: Dependency)
    ensures
        package_deps::group_dependencies(groups).contains(x) <==> (x.manifest_path.len() == 0
            && x.ecosystem == "pypi"@ && x.kind == "dev"@ && exists|i: int|
            0 <= i < groups.len() && section_gives(
                (#[trigger] groups[i]).1,
                seq!["dependencies"@],
                true,
                true,
                x.name,
                x.version_spec,
            )),
    decreases groups.len(),
{
    let all = package_deps::group_dependencies(groups);
    if groups.len() > 0 {
        let less = groups.drop_last();
        let init = package_deps::group_dependencies(less);
        let how = package_deps::reading("pypi", "dev", true, true);
        let g = groups.last();
        lemma_groups(less, x);
        lemma_section(g.1, seq!["dependencies"@], how, x);
        lemma_concat(init, package_deps::section(g.1, seq!["dependencies"@], how), x);
        assert(forall|i: int| 0 <= i < less.len() ==> less[i] == groups[i]);
        if all.contains(x) {
            if init.contains(x) {
                let i = choose|i: int|
                    0 <= i < less.len() && section_gives(
                        (#[trigger] less[i]).1,
                        seq!["dependencies"@],
                        true,
                        true,
                        x.name,
                        x.version_spec,
                    );
                assert(groups[i] == less[i]);
            } else {
                assert(groups[groups.len() - 1] == g);
            }
        }
        if exists|i: int|
            0 <= i < groups.len() && section_gives(
                (#[trigger] groups[i]).1,
                seq!["dependencies"@],
                true,
                true,
                x.name,
                x.version_spec,
            ) {
            let i = choose|i: int|
                0 <= i < groups.len() && section_gives(
                    (#[trigger] groups[i]).1,
                    seq!["dependencies"@],
                    true,
                    true,
                    x.name,
                    x.version_spec,
                );
            if i < less.len() {
                assert(less[i] == groups[i]);
            }
        }
    } else {
        assert(!all.contains(x));
    }
}

/// A `pyproject.toml` declares the requirements of the project's own list and
/// what Poetry's tables list, the interpreter left out: those for running, those
/// for development, and every group as for development.
pub proof fn lemma_pyproject(d: Doc, x: Dependency)
    ensures
        package_deps::pyproject_dependencies(d).contains(x) <==> (list_gives(d, x) || (
        x.manifest_path.len() == 0 && x.ecosystem == "pypi"@ && ((x.kind == "runtime"@
            && section_gives(
            d,
            seq!["tool"@, "poetry"@, "dependencies"@],
            true,
            true,
            x.name,
            x.version_spec,
        )) || (x.kind == "dev"@ && section_gives(
            d,
            seq!["tool"@, "poetry"@, "dev-dependencies"@],
            true,
            true,
            x.name,
            x.version_spec,
        )) || (x.kind == "dev"@ && group_gives(d, x.name, x.version_spec))))),
{
    let run = package_deps::reading("pypi", "runtime", true, true);
    let dev = package_deps::reading("pypi", "dev", true, true);
    let a = package_deps::project_requirements(d);
    let b = package_deps::section(d, seq!["tool"@, "poetry"@, "dependencies"@], run);
    let c = package_deps::section(d, seq!["tool"@, "poetry"@, "dev-dependencies"@], dev);
    let e = package_deps::poetry_groups(d);
    match documents::at(d, seq!["project"@, "dependencies"@]) {
        Some(Doc::List(items)) => {
            lemma_listed(items, x);
        },
        _ => {},
    }
    match documents::at(d, seq!["tool"@, "poetry"@, "group"@]) {
        Some(Doc::Table(groups)) => {
            lemma_groups(groups, x);
        },
        _ => {},
    }
    lemma_section(d, seq!["tool"@, "poetry"@, "dependencies"@], run, x);
    lemma_section(d, seq!["tool"@, "poetry"@, "dev-dependencies"@], dev, x);
    lemma_concat(a, b, x);
    lemma_concat(a + b, c, x);
    lemma_concat(a + b + c, e, x);
}

// ---------------------------------------------------------------------------
// Requirements
// ---------------------------------------------------------------------------

/// A character with which a version or a marker begins.
pub open spec fn is_mark(c: char) -> bool {
    c == '=' || c == '<' || c == '>' || c == '!' || c == '~' || c == ';'
}

/// No character of a mark, of extras or of a comment.
pub open spec fn is_plain(s: Seq<char>) -> bool {
    forall|i: int| 0 <= i < s.len() ==> !is_mark(#[trigger] s[i]) && s[i] != '[' && s[i] != '#'
}

/// Extras: nothing, or text that begins with a bracket and has no mark and no
/// comment in it.
pub open spec fn is_extras(s: Seq<char>) -> bool {
    (s.len() == 0 || s[0] == '[') && forall|i: int|
        0 <= i < s.len() ==> !is_mark(#[trigger] s[i]) && s[i] != '#'
}

/// A version: nothing, or text that begins with a mark and has no comment in
/// it.
pub open spec fn is_version(s: Seq<char>) -> bool {
    s.len() == 0 || (is_mark(s[0]) && !text::is_space(s.last()) && forall|i: int|
        0 <= i < s.len() ==> #[trigger] s[i] != '#')
}

/// A comment: nothing, or text that begins with a hash.
pub open spec fn is_comment(s: Seq<char>) -> bool {
    s.len() == 0 || s[0] == '#'
}

proof fn lemma_trim_comment(s: Seq<char>, h: Seq<char>)
    requires
        s.len() > 0,
        h.len() > 0,
        h[0] == '#',
    ensures
        text::trimmed_back(s + h).len() > s.len(),
        text::trimmed_back(s + h).take(s.len() as int) == s,
        text::trimmed_back(s + h)[s.len() as int] == '#',
    decreases h.len(),
{
    let all = s + h;
    assert(all[s.len() as int] == '#');
    if text::is_space(all.last()) {
        if h.len() == 1 {
            assert(all.last() == '#');
        }
        let less = h.drop_last();
        assert(all.drop_last() =~= s + less);
        assert(less[0] == h[0]);
        lemma_trim_comment(s, less);
    } else {
        assert(all.take(s.len() as int) =~= s);
    }
}

proof fn lemma_up_to(a: Seq<char>, b: Seq<char>, c: char)
    requires
        !a.contains(c),
        b.len() > 0 ==> b[0] == c,
    ensures
        text::up_to(a + b, c) == a,
{
    let s = a + b;
    text::lemma_find_from(s, c, 0);
    let e = text::find_from(s, c, 0);
    if e < a.len() {
        assert(a[e] == c);
        assert(a.contains(c));
    }
    if b.len() > 0 {
        assert(s[a.len() as int] == c);
    }
    assert(e == a.len());
    assert(s.take(e) =~= a);
}

proof fn lemma_up_to_any(a: Seq<char>, b: Seq<char>, set: Seq<char>)
    requires
        forall|i: int| 0 <= i < a.len() ==> !set.contains(#[trigger] a[i]),
        b.len() > 0 ==> set.contains(b[0]),
    ensures
        text::up_to_any(a + b, set) == a,
    decreases a.len(),
{
    let s = a + b;
    if a.len() == 0 {
        assert(s =~= b);
        assert(text::up_to_any(s, set) =~= a);
    } else {
        assert(s[0] == a[0]);
        assert(!set.contains(a[0]));
        let rest = a.drop_first();
        assert(forall|i: int| 0 <= i < rest.len() ==> rest[i] == a[i + 1]);
        assert(s.drop_first() =~= rest + b);
        lemma_up_to_any(rest, b, set);
        assert(text::up_to_any(s, set) =~= a);
    }
}

/// A line of requirements: the name, extras, a version and a comment, with space
/// between and around them. The name stands alone, the version is what begins
/// with the first mark, and the rest is not read.
#[verifier::rlimit(40)]
pub proof fn lemma_requirement(
    a: Seq<char>,
    name: Seq<char>,
    extras: Seq<char>,
    gap: Seq<char>,
    version: Seq<char>,
    b: Seq<char>,
    comment: Seq<char>,
)
    requires
        import_laws::all_space(a),
        import_laws::all_space(gap),
        import_laws::all_space(b),
        name.len() > 0,
        is_plain(name),
        name[0] != '-' && !text::is_space(name[0]) && !text::is_space(name.last()),
        is_extras(extras),
        extras.len() > 0 ==> !text::is_space(extras.last()),
        is_version(version),
        version.len() == 0 ==> gap.len() == 0,
        is_comment(comment),
    ensures
        package_deps::requirement_on(a + name + extras + gap + version + b + comment) matches Some(d)
            && d.name == name && d.ecosystem == "pypi"@ && d.kind == "runtime"@ && d.version_spec
            == (if version.len() == 0 {
            None
        } else {
            Some(version)
        }) && d.manifest_path.len() == 0,
{
    let head = name + extras + gap;
    let core = head + version;
    let line = a + name + extras + gap + version + b + comment;
    assert(line =~= a + (core + b + comment));
    assert((core + b + comment)[0] == name[0]);
    let full = text::trimmed(line);
    import_laws::lemma_trimmed_front(a, core + b + comment);
    assert(core.len() > 0 && core[0] == name[0]);
    assert(!text::is_space(core.last())) by {
        if version.len() > 0 {
            assert(core.last() == version.last());
        } else if extras.len() > 0 {
            assert(core.last() == extras.last());
        } else {
            assert(core.last() == name.last());
        }
    }
    assert forall|i: int| 0 <= i < head.len() implies !is_mark(#[trigger] head[i]) && head[i]
        != '#' by {
        if i < name.len() {
            assert(head[i] == name[i]);
        } else if i < name.len() + extras.len() {
            assert(head[i] == extras[i - name.len()]);
        } else {
            assert(head[i] == gap[i - name.len() - extras.len()]);
            assert(text::is_space(gap[i - name.len() - extras.len()]));
        }
    }
    assert forall|i: int| 0 <= i < core.len() implies #[trigger] core[i] != '#' by {
        if i < head.len() {
            assert(core[i] == head[i]);
        } else {
            assert(core[i] == version[i - head.len()]);
        }
    }
    let bare = text::trimmed(text::up_to(full, '#'));
    assert(bare == core) by {
        let none = Seq::<char>::empty();
        if comment.len() > 0 {
            lemma_trim_comment(core + b, comment);
            let n = (core + b).len() as int;
            let tail = full.skip(n);
            assert(full =~= full.take(n) + tail);
            assert(tail[0] == full[n]);
            assert(!(core + b).contains('#')) by {
                if (core + b).contains('#') {
                    let k = choose|k: int| 0 <= k < (core + b).len() && (core + b)[k] == '#';
                    if k >= core.len() {
                        assert(text::is_space(b[k - core.len()]));
                    } else {
                        assert(core[k] != '#');
                    }
                }
            }
            lemma_up_to(core + b, tail, '#');
            assert(none + core + b =~= core + b);
            import_laws::lemma_trimmed(none, core, b);
        } else {
            assert(core + b + comment =~= core + b);
            import_laws::lemma_trimmed_back(core, b);
            assert(!core.contains('#')) by {
                if core.contains('#') {
                    let k = choose|k: int| 0 <= k < core.len() && core[k] == '#';
                    assert(core[k] != '#');
                }
            }
            assert(core + none =~= core);
            lemma_up_to(core, none, '#');
            assert(none + core + none =~= core);
            import_laws::lemma_trimmed(none, core, none);
        }
    }
    assert(full.len() > 0 && full[0] == name[0]) by {
        if comment.len() > 0 {
            lemma_trim_comment(core + b, comment);
            assert(full.take((core + b).len() as int)[0] == full[0]);
            assert((core + b)[0] == core[0]);
        } else {
            assert(core + b + comment =~= core + b);
            import_laws::lemma_trimmed_back(core, b);
        }
    }
    reveal_strlit("=<>!~;");
    let set = "=<>!~;"@;
    assert(set[0] == '=' && set[1] == '<' && set[2] == '>' && set[3] == '!' && set[4] == '~'
        && set[5] == ';');
    assert forall|c: char| #[trigger] set.contains(c) <==> is_mark(c) by {
        if is_mark(c) {
            assert(set[0] == c || set[1] == c || set[2] == c || set[3] == c || set[4] == c
                || set[5] == c);
        }
    }
    lemma_up_to_any(head, version, set);
    assert(core.skip(head.len() as int) =~= version);
    lemma_requirement_name(name, extras, gap);
    let none = Seq::<char>::empty();
    if version.len() > 0 {
        assert(none + version + none =~= version);
        assert(!text::is_space(version[0]));
        import_laws::lemma_trimmed(none, version, none);
    } else {
        assert(text::trimmed(version) =~= version);
    }
}

proof fn lemma_requirement_name(name: Seq<char>, extras: Seq<char>, gap: Seq<char>)
    requires
        import_laws::all_space(gap),
        name.len() > 0,
        is_plain(name),
        !text::is_space(name[0]) && !text::is_space(name.last()),
        is_extras(extras),
    ensures
        text::trimmed(text::up_to(name + extras + gap, '[')) == name,
{
    let none = Seq::<char>::empty();
    if extras.len() > 0 {
        assert(!name.contains('[')) by {
            if name.contains('[') {
                let k = choose|k: int| 0 <= k < name.len() && name[k] == '[';
                assert(name[k] != '[');
            }
        }
        assert(name + extras + gap =~= name + (extras + gap));
        lemma_up_to(name, extras + gap, '[');
        assert(none + name + none =~= name);
        import_laws::lemma_trimmed(none, name, none);
    } else {
        let s = name + gap;
        assert(name + extras + gap =~= s);
        assert(!s.contains('[')) by {
            if s.contains('[') {
                let k = choose|k: int| 0 <= k < s.len() && s[k] == '[';
                if k < name.len() {
                    assert(name[k] != '[');
                } else {
                    assert(text::is_space(gap[k - name.len()]));
                }
            }
        }
        assert(s + none =~= s);
        lemma_up_to(s, none, '[');
        assert(none + name + gap =~= s);
        import_laws::lemma_trimmed(none, name, gap);
    }
}

/// A comment and an option are no requirements.
pub proof fn lemma_no_requirement(a: Seq<char>, s: Seq<char>)
    requires
        import_laws::all_space(a),
        s.len() > 0,
        s[0] == '#' || s[0] == '-',
    ensures
        package_deps::requirement_on(a + s) is None,
{
    import_laws::lemma_trimmed_front(a, s);
    lemma_trim_keeps_first(s);
}

proof fn lemma_trim_keeps_first(s: Seq<char>)
    requires
        s.len() > 0,
        !text::is_space(s[0]),
    ensures
        text::trimmed_back(s).len() > 0,
        text::trimmed_back(s)[0] == s[0],
    decreases s.len(),
{
    if text::is_space(s.last()) {
        lemma_trim_keeps_first(s.drop_last());
    }
}

/// A file of requirements has those that its lines have, and no other.
#[verifier::rlimit(40)]
pub proof fn lemma_requirements(lines: Seq<Seq<char>>, x: Dependency)
    ensures
        package_deps::requirements_on(lines).contains(x) <==> exists|i: int|
            0 <= i < lines.len() && package_deps::requirement_on(#[trigger] lines[i]) == Some(x),
    decreases lines.len(),
{
    let all = package_deps::requirements_on(lines);
    if lines.len() > 0 {
        let less = lines.drop_last();
        let init = package_deps::requirements_on(less);
        lemma_requirements(less, x);
        assert(forall|i: int| 0 <= i < less.len() ==> less[i] == lines[i]);
        if all.contains(x) {
            let k = choose|k: int| 0 <= k < all.len() && all[k] == x;
            if k < init.len() {
                assert(init[k] == x);
                let i = choose|i: int|
                    0 <= i < less.len() && package_deps::requirement_on(#[trigger] less[i]) == Some(
                        x,
                    );
                assert(lines[i] == less[i]);
            } else {
                assert(lines[lines.len() - 1] == lines.last());
            }
        }
        if exists|i: int|
            0 <= i < lines.len() && package_deps::requirement_on(#[trigger] lines[i]) == Some(x) {
            let i = choose|i: int|
                0 <= i < lines.len() && package_deps::requirement_on(#[trigger] lines[i]) == Some(
                    x,
                );
            if i < less.len() {
                assert(less[i] == lines[i]);
                let k = choose|k: int| 0 <= k < init.len() && init[k] == x;
                assert(all[k] == x);
            } else {
                assert(all[all.len() - 1] == x);
            }
        }
    } else {
        assert(!all.contains(x));
    }
}

// ---------------------------------------------------------------------------
// Go
// ---------------------------------------------------------------------------

pub open spec fn opens_block(line: Seq<char>) -> bool {
    text::trimmed(line) == "require ("@
}

pub open spec fn closes_block(line: Seq<char>) -> bool {
    text::trimmed(line) == ")"@
}

/// The line at `k` stands in a block: one was opened before it and not closed
/// since.
pub open spec fn in_block(lines: Seq<Seq<char>>, k: int) -> bool {
    exists|i: int|
        0 <= i < k && opens_block(#[trigger] lines[i]) && forall|j: int|
            i < j < k ==> !closes_block(#[trigger] lines[j])
}

/// The line at `k` requires the dependency: in a block it is the requirement
/// itself, elsewhere it says `require` first.
pub open spec fn go_line_gives(lines: Seq<Seq<char>>, k: int, x: Dependency) -> bool {
    let line = text::trimmed(lines[k]);
    &&& !opens_block(lines[k])
    &&& in_block(lines, k) ==> !closes_block(lines[k]) && package_deps::go_requirement(line)
        == Some(x)
    &&& !in_block(lines, k) ==> text::begins_with(line, "require "@)
        && package_deps::go_requirement(text::trimmed(line.skip(8))) == Some(x)
}

#[verifier::rlimit(40)]
proof fn lemma_block_step(lines: Seq<Seq<char>>)
    requires
        lines.len() > 0,
    ensures
        in_block(lines, lines.len() as int) <==> (opens_block(lines.last()) || (in_block(
            lines.drop_last(),
            lines.len() - 1,
        ) && !closes_block(lines.last()))),
        in_block(lines, lines.len() - 1) <==> in_block(lines.drop_last(), lines.len() - 1),
{
    let less = lines.drop_last();
    let n = lines.len() - 1;
    assert(forall|i: int| 0 <= i < n ==> less[i] == lines[i]);
    if in_block(lines, n + 1) && !opens_block(lines.last()) {
        let i = choose|i: int|
            0 <= i < n + 1 && opens_block(#[trigger] lines[i]) && forall|j: int|
                i < j < n + 1 ==> !closes_block(#[trigger] lines[j]);
        assert(i < n);
        assert(opens_block(less[i]));
        assert forall|j: int| i < j < n implies !closes_block(#[trigger] less[j]) by {
            assert(less[j] == lines[j]);
        }
        assert(!closes_block(lines[n]));
    }
    if opens_block(lines.last()) {
        assert(opens_block(lines[n]));
    }
    if in_block(less, n) {
        let i = choose|i: int|
            0 <= i < n && opens_block(#[trigger] less[i]) && forall|j: int|
                i < j < n ==> !closes_block(#[trigger] less[j]);
        assert(opens_block(lines[i]));
        assert forall|j: int| i < j < n implies !closes_block(#[trigger] lines[j]) by {
            assert(less[j] == lines[j]);
        }
    }
    if in_block(lines, n) {
        let i = choose|i: int|
            0 <= i < n && opens_block(#[trigger] lines[i]) && forall|j: int|
                i < j < n ==> !closes_block(#[trigger] lines[j]);
        assert(opens_block(less[i]));
        assert forall|j: int| i < j < n implies !closes_block(#[trigger] less[j]) by {
            assert(less[j] == lines[j]);
        }
    }
}

proof fn lemma_gives_prefix(lines: Seq<Seq<char>>, k: int, x: Dependency)
    requires
        0 <= k < lines.len() - 1,
    ensures
        go_line_gives(lines, k, x) <==> go_line_gives(lines.drop_last(), k, x),
{
    let less = lines.drop_last();
    assert(less[k] == lines[k]);
    if in_block(lines, k) {
        let i = choose|i: int|
            0 <= i < k && opens_block(#[trigger] lines[i]) && forall|j: int|
                i < j < k ==> !closes_block(#[trigger] lines[j]);
        assert(opens_block(less[i]));
        assert forall|j: int| i < j < k implies !closes_block(#[trigger] less[j]) by {
            assert(less[j] == lines[j]);
        }
    }
    if in_block(less, k) {
        let i = choose|i: int|
            0 <= i < k && opens_block(#[trigger] less[i]) && forall|j: int|
                i < j < k ==> !closes_block(#[trigger] less[j]);
        assert(opens_block(lines[i]));
        assert forall|j: int| i < j < k implies !closes_block(#[trigger] lines[j]) by {
            assert(less[j] == lines[j]);
        }
    }
}

/// A `go.mod` requires what its `require` lines and the lines of its `require`
/// blocks say.
#[verifier::rlimit(40)]
pub proof fn lemma_go_mod(lines: Seq<Seq<char>>, x: Dependency)
    ensures
        package_deps::go_read(lines).0 <==> in_block(lines, lines.len() as int),
        package_deps::go_read(lines).1.contains(x) <==> exists|k: int|
            0 <= k < lines.len() && #[trigger] go_line_gives(lines, k, x),
    decreases lines.len(),
{
    reveal_strlit("require (");
    reveal_strlit(")");
    reveal_strlit("require ");
    assert("require ("@.len() != ")"@.len());
    let all = package_deps::go_read(lines).1;
    if lines.len() > 0 {
        let less = lines.drop_last();
        let n = lines.len() - 1;
        let init = package_deps::go_read(less).1;
        lemma_go_mod(less, x);
        lemma_block_step(lines);
        let line = text::trimmed(lines.last());
        assert(lines[n] == lines.last());
        if all.contains(x) {
            let k = choose|k: int| 0 <= k < all.len() && all[k] == x;
            if k < init.len() {
                assert(init[k] == x);
                let m = choose|m: int| 0 <= m < less.len() && #[trigger] go_line_gives(less, m, x);
                lemma_gives_prefix(lines, m, x);
                assert(go_line_gives(lines, m, x));
            } else {
                assert(go_line_gives(lines, n, x));
            }
        }
        if exists|k: int| 0 <= k < lines.len() && #[trigger] go_line_gives(lines, k, x) {
            let m = choose|m: int| 0 <= m < lines.len() && #[trigger] go_line_gives(lines, m, x);
            if m < n {
                lemma_gives_prefix(lines, m, x);
                assert(go_line_gives(less, m, x));
                let k = choose|k: int| 0 <= k < init.len() && init[k] == x;
                assert(all[k] == x);
            } else {
                assert(all[all.len() - 1] == x);
            }
        }
    } else {
        assert(!all.contains(x));
    }
}

/// No `//` stands in the text.
pub open spec fn no_comment(s: Seq<char>) -> bool {
    forall|i: int| !#[trigger] text::stands_at(s, "//"@, i)
}

/// A requirement is a module and a version, with a space between; a comment
/// behind them is not read.
#[verifier::rlimit(40)]
pub proof fn lemma_go_requirement(m: Seq<char>, v: Seq<char>, rest: Seq<char>)
    requires
        m.len() > 0 && v.len() > 0,
        !has_space(m) && !has_space(v),
        no_comment(m + seq![' '] + v + seq![' ']),
    ensures
        package_deps::go_requirement(m + seq![' '] + v) matches Some(d) && d.name == m
            && d.version_spec == Some(v) && d.ecosystem == "go"@ && d.kind == "runtime"@,
        package_deps::go_requirement(m + seq![' '] + v + seq![' ', '/', '/'] + rest) matches Some(d)
            && d.name == m && d.version_spec == Some(v) && d.ecosystem == "go"@ && d.kind
            == "runtime"@,
{
    reveal_strlit("//");
    let none = Seq::<char>::empty();
    let s = m + seq![' '] + v;
    let t = s + seq![' '];
    let full = s + seq![' ', '/', '/'] + rest;
    assert(t =~= m + seq![' '] + v + seq![' ']);
    assert(!text::is_space(m[0]) && !text::is_space(v[v.len() - 1]));
    assert(s[0] == m[0] && s.last() == v[v.len() - 1]);
    text::lemma_seek_from(s, "//"@, 0);
    if text::seek_from(s, "//"@, 0) is Some {
        let i = text::seek_from(s, "//"@, 0)->Some_0;
        assert(t.subrange(i, i + 2) =~= s.subrange(i, i + 2));
        assert(text::stands_at(t, "//"@, i));
    }
    assert(none + s + none =~= s);
    import_laws::lemma_trimmed(none, s, none);
    lemma_words(m, ' ', v);
    lemma_words(v, ' ', none);
    assert(seq![m] + seq![v] =~= seq![m, v]);
    let at = t.len() as int;
    assert(full.subrange(at, at + 2) =~= "//"@);
    assert(text::stands_at(full, "//"@, at));
    text::lemma_seek_from(full, "//"@, 0);
    let e = text::seek_from(full, "//"@, 0)->Some_0;
    if e < at {
        if e + 2 <= at {
            assert(t.subrange(e, e + 2) =~= full.subrange(e, e + 2));
            assert(text::stands_at(t, "//"@, e));
        } else {
            assert(full.subrange(e, e + 2)[0] == full[e]);
            assert(full[e] == ' ');
        }
    }
    assert(e == at);
    assert(full.take(at) =~= none + s + seq![' ']);
    assert(import_laws::all_space(seq![' ']));
    import_laws::lemma_trimmed(none, s, seq![' ']);
}

/// The module's own path is what stands behind `module` on the first line that
/// has it.
pub proof fn lemma_go_module_line(a: Seq<char>, name: Seq<char>, b: Seq<char>)
    requires
        import_laws::all_space(a),
        import_laws::all_space(b),
        name.len() > 0,
        !text::is_space(name[0]) && !text::is_space(name.last()),
        no_comment(name + b),
    ensures
        go_module::declared_on(a + "module "@ + name + b) == Some(name),
{
    reveal_strlit("module ");
    let s = "module "@ + name + b;
    assert(a + "module "@ + name + b =~= a + s);
    assert(s[0] == 'm');
    import_laws::lemma_trimmed_front(a, s);
    assert(s.take(7) =~= "module "@);
    assert(s.skip(7) =~= name + b);
    text::lemma_seek_from(name + b, "//"@, 0);
    let none = Seq::<char>::empty();
    assert(none + name + b =~= name + b);
    import_laws::lemma_trimmed(none, name, b);
}

/// The first line that declares a path decides.
pub proof fn lemma_go_module(lines: Seq<Seq<char>>, i: int)
    requires
        0 <= i < lines.len(),
        go_module::declared_on(lines[i]) is Some,
        forall|k: int| 0 <= k < i ==> go_module::declared_on(#[trigger] lines[k]) is None,
    ensures
        go_module::first_declared(lines) == go_module::declared_on(lines[i]),
    decreases lines.len(),
{
    if i > 0 {
        assert(go_module::declared_on(lines[0]) is None);
        let rest = lines.drop_first();
        assert(forall|k: int| 0 <= k < rest.len() ==> rest[k] == lines[k + 1]);
        lemma_go_module(rest, i - 1);
    }
}

/// A package of the module lies inside of it and has its directory below it; a
/// path whose first element has no dot is of the standard library, unless it is
/// the module's own.
pub proof fn lemma_go_packages(p: Seq<char>, dir: Seq<char>, first: Seq<char>, rest: Seq<char>)
    requires
        first.len() > 0 && !first.contains('/'),
        rest.len() == 0 || rest[0] == '/',
    ensures
        go_module::inside(Some(p), p),
        go_module::directory(Some(p), p) == Some(Seq::<char>::empty()),
        go_module::inside(Some(p), p + seq!['/'] + dir),
        go_module::directory(Some(p), p + seq!['/'] + dir) == Some(dir),
        !go_module::inside(None, first + rest),
        go_module::standard(None, first + rest) <==> !first.contains('.'),
        !go_module::inside(Some(p), first + rest) ==> (go_module::standard(Some(p), first + rest)
            <==> !first.contains('.')),
        go_module::inside(Some(p), first + rest) ==> !go_module::standard(Some(p), first + rest),
{
    reveal_strlit("/");
    assert("/"@ =~= seq!['/']);
    let lead = p + "/"@;
    let s = p + seq!['/'] + dir;
    assert(s.take(lead.len() as int) =~= lead);
    assert(s.skip(lead.len() as int) =~= dir);
    assert(s != p);
    lemma_up_to(first, rest, '/');
}

// ---------------------------------------------------------------------------
// The packages of the JVM
// ---------------------------------------------------------------------------

proof fn lemma_leading_name(a: Seq<char>, b: Seq<char>)
    requires
        forall|i: int| 0 <= i < a.len() ==> jvm_package::in_package_name(#[trigger] a[i]),
        b.len() > 0 ==> !jvm_package::in_package_name(b[0]),
    ensures
        jvm_package::leading_name(a + b) == a,
    decreases a.len(),
{
    let s = a + b;
    if a.len() == 0 {
        assert(s =~= b);
        assert(jvm_package::leading_name(s) =~= a);
    } else {
        assert(s[0] == a[0]);
        assert(jvm_package::in_package_name(a[0]));
        let rest = a.drop_first();
        assert(forall|i: int| 0 <= i < rest.len() ==> rest[i] == a[i + 1]);
        assert(s.drop_first() =~= rest + b);
        lemma_leading_name(rest, b);
        assert(jvm_package::leading_name(s) =~= a);
    }
}

/// A package's name: letters, digits, dots, underscores and dollar signs.
pub open spec fn is_package_name(n: Seq<char>) -> bool {
    n.len() > 0 && forall|i: int|
        0 <= i < n.len() ==> {
            let c = #[trigger] n[i];
            ('0' <= c <= '9') || ('a' <= c <= 'z') || ('A' <= c <= 'Z') || c == '_' || c == '.' || c
                == '$'
        }
}

/// A line that says `package` declares the name behind it, with or without a
/// semicolon.
pub proof fn lemma_package_line(a: Seq<char>, name: Seq<char>, b: Seq<char>)
    requires
        import_laws::all_space(a),
        import_laws::all_space(b),
        is_package_name(name),
    ensures
        jvm_package::package_on(a + "package "@ + name + b) == name,
        jvm_package::package_on(a + "package "@ + name + seq![';'] + b) == name,
{
    reveal_strlit("package ");
    reveal_strlit(";");
    let none = Seq::<char>::empty();
    assert forall|i: int| 0 <= i < name.len() implies jvm_package::in_package_name(
        #[trigger] name[i],
    ) && !text::is_space(name[i]) && name[i] != ';' by {}
    lemma_leading_name(name, none);
    assert(name + none =~= name);
    assert(none + name + none =~= name);
    import_laws::lemma_trimmed(none, name, none);
    let s = "package "@ + name + b;
    assert(a + "package "@ + name + b =~= a + s);
    assert(s[0] == 'p');
    import_laws::lemma_trimmed_front(a, s);
    assert(s.take(8) =~= "package "@);
    assert(s.skip(8) =~= none + name + b);
    import_laws::lemma_trimmed(none, name, b);
    lemma_drop_semicolon(name, none);
    let t = "package "@ + name + seq![';'] + b;
    let inner = name + seq![';'];
    assert(a + "package "@ + name + seq![';'] + b =~= a + t);
    assert(t[0] == 'p');
    import_laws::lemma_trimmed_front(a, t);
    assert(t.take(8) =~= "package "@);
    assert(t.skip(8) =~= none + inner + b);
    assert(inner[0] == name[0] && inner.last() == ';');
    import_laws::lemma_trimmed(none, inner, b);
    lemma_drop_semicolon(name, seq![';']);
}

proof fn lemma_drop_semicolon(name: Seq<char>, tail: Seq<char>)
    requires
        name.len() > 0,
        name.last() != ';',
        tail == Seq::<char>::empty() || tail == seq![';'],
    ensures
        text::drop_back(name + tail, ";"@) == name,
{
    reveal_strlit(";");
    let set = ";"@;
    assert(set[0] == ';');
    assert(!set.contains(name.last()));
    reveal_with_fuel(text::drop_back, 2);
    if tail.len() > 0 {
        let s = name + tail;
        assert(s.last() == ';');
        assert(set.contains(s.last()));
        assert(s.drop_last() =~= name);
    } else {
        assert(name + tail =~= name);
    }
}

/// The packages of a file are those that its header lines declare, each once.
#[verifier::rlimit(40)]
pub proof fn lemma_packages(lines: Seq<Seq<char>>, p: Seq<char>)
    ensures
        jvm_package::packages_on(lines).contains(p) <==> (p.len() > 0 && exists|i: int|
            0 <= i < lines.len() && jvm_package::package_on(#[trigger] lines[i]) == p),
        jvm_package::packages_on(lines).no_duplicates(),
    decreases lines.len(),
{
    let all = jvm_package::packages_on(lines);
    if lines.len() > 0 {
        let less = lines.drop_last();
        let init = jvm_package::packages_on(less);
        lemma_packages(less, p);
        assert(forall|i: int| 0 <= i < less.len() ==> less[i] == lines[i]);
        if all.contains(p) {
            let k = choose|k: int| 0 <= k < all.len() && all[k] == p;
            if k < init.len() {
                assert(init[k] == p);
                let i = choose|i: int|
                    0 <= i < less.len() && jvm_package::package_on(#[trigger] less[i]) == p;
                assert(lines[i] == less[i]);
            } else {
                assert(jvm_package::package_on(lines[lines.len() - 1]) == p);
            }
        }
        if p.len() > 0 && exists|i: int|
            0 <= i < lines.len() && jvm_package::package_on(#[trigger] lines[i]) == p {
            let i = choose|i: int|
                0 <= i < lines.len() && jvm_package::package_on(#[trigger] lines[i]) == p;
            if i < less.len() {
                assert(jvm_package::package_on(less[i]) == p);
                let k = choose|k: int| 0 <= k < init.len() && init[k] == p;
                assert(all[k] == p);
            } else if init.contains(p) {
                let k = choose|k: int| 0 <= k < init.len() && init[k] == p;
                assert(all[k] == p);
            } else {
                assert(all[all.len() - 1] == p);
            }
        }
    } else {
        assert(!all.contains(p));
    }
}

/// Only the first two hundred lines are looked at.
pub proof fn lemma_header(source: Seq<char>)
    ensures
        jvm_package::header(source).len() <= 200,
        forall|i: int|
            0 <= i < jvm_package::header(source).len() ==> #[trigger] jvm_package::header(source)[i]
                == text::lines_of(source)[i],
        text::lines_of(source).len() <= 200 ==> jvm_package::header(source) == text::lines_of(
            source,
        ),
        text::lines_of(source).len() > 200 ==> jvm_package::header(source).len() == 200,
{
}

/// Every file of a JVM language contributes the packages that it declares, and
/// no other file contributes any.
#[verifier::rlimit(40)]
pub proof fn lemma_declarations(files: Seq<SourceFile>, p: Seq<char>, f: Seq<char>)
    ensures
        jvm_package::all_declarations(files).contains((p, f)) <==> exists|i: int|
            0 <= i < files.len() && (#[trigger] files[i]).path@ == f && jvm_package::is_jvm_file(f)
                && jvm_package::packages_on(jvm_package::header(files[i].source@)).contains(p),
    decreases files.len(),
{
    let all = jvm_package::all_declarations(files);
    if files.len() > 0 {
        let less = files.drop_last();
        let init = jvm_package::all_declarations(less);
        let x = files.last();
        let own = jvm_package::declarations(x);
        lemma_declarations(less, p, f);
        lemma_concat(init, own, (p, f));
        assert(forall|i: int| 0 <= i < less.len() ==> less[i] == files[i]);
        let ps = jvm_package::packages_on(jvm_package::header(x.source@));
        if own.contains((p, f)) {
            let k = choose|k: int| 0 <= k < own.len() && own[k] == (p, f);
            assert(ps[k] == p);
            assert(files[files.len() - 1].path@ == f);
        }
        if x.path@ == f && jvm_package::is_jvm_file(f) && ps.contains(p) {
            let k = choose|k: int| 0 <= k < ps.len() && ps[k] == p;
            assert(own[k] == (p, f));
        }
        if init.contains((p, f)) {
            let i = choose|i: int|
                0 <= i < less.len() && (#[trigger] less[i]).path@ == f && jvm_package::is_jvm_file(
                    f,
                ) && jvm_package::packages_on(jvm_package::header(less[i].source@)).contains(p);
            assert(files[i] == less[i]);
        }
        if exists|i: int|
            0 <= i < files.len() && (#[trigger] files[i]).path@ == f && jvm_package::is_jvm_file(f)
                && jvm_package::packages_on(jvm_package::header(files[i].source@)).contains(p) {
            let i = choose|i: int|
                0 <= i < files.len() && (#[trigger] files[i]).path@ == f
                    && jvm_package::is_jvm_file(f) && jvm_package::packages_on(
                    jvm_package::header(files[i].source@),
                ).contains(p);
            if i < less.len() {
                assert(less[i] == files[i]);
            }
        }
    } else {
        assert(!all.contains((p, f)));
    }
}

// ---------------------------------------------------------------------------
// Whole projects
// ---------------------------------------------------------------------------

proof fn lemma_manifest_names()
    ensures
        "Cargo.toml"@ != "package.json"@ && "Cargo.toml"@ != "go.mod"@ && "Cargo.toml"@
            != "requirements.txt"@ && "Cargo.toml"@ != "pyproject.toml"@,
        "package.json"@ != "go.mod"@ && "package.json"@ != "requirements.txt"@ && "package.json"@
            != "pyproject.toml"@,
        "go.mod"@ != "requirements.txt"@ && "go.mod"@ != "pyproject.toml"@,
        "requirements.txt"@ != "pyproject.toml"@,
{
    reveal_strlit("Cargo.toml");
    reveal_strlit("package.json");
    reveal_strlit("go.mod");
    reveal_strlit("requirements.txt");
    reveal_strlit("pyproject.toml");
    assert("Cargo.toml"@.len() == 10 && "package.json"@.len() == 12 && "go.mod"@.len() == 6);
    assert("requirements.txt"@.len() == 16 && "pyproject.toml"@.len() == 14);
}

/// A manifest is told by its file name, in whatever directory it stands; a file
/// of another name declares nothing.
pub proof fn lemma_declared_in(dir: Seq<Seq<char>>, n: Seq<char>, f: SourceFile)
    requires
        path_laws::all_clean(dir),
        path_laws::is_clean(n),
        f.path@ == path_laws::slashes(dir.push(n)),
    ensures
        n == "Cargo.toml"@ ==> package_deps::declared_in(f) == (match documents::toml_document(
            f.source@,
        ) {
            Some(d) => package_deps::cargo_dependencies(d),
            None => seq![],
        }),
        n == "package.json"@ ==> package_deps::declared_in(f) == (match documents::json_document(
            f.source@,
        ) {
            Some(d) => package_deps::npm_dependencies(d),
            None => seq![],
        }),
        n == "go.mod"@ ==> package_deps::declared_in(f) == package_deps::go_read(
            text::lines_of(f.source@),
        ).1,
        n == "requirements.txt"@ ==> package_deps::declared_in(f) == package_deps::requirements_on(
            text::lines_of(f.source@),
        ),
        n == "pyproject.toml"@ ==> package_deps::declared_in(f) == (match documents::toml_document(
            f.source@,
        ) {
            Some(d) => package_deps::pyproject_dependencies(d),
            None => seq![],
        }),
        n != "Cargo.toml"@ && n != "package.json"@ && n != "go.mod"@ && n != "requirements.txt"@ && n
            != "pyproject.toml"@ ==> package_deps::declared_in(f).len() == 0,
{
    let parts = dir.push(n);
    assert(path_laws::all_clean(parts));
    path_laws::lemma_file_name(parts);
    lemma_manifest_names();
}

/// A project's dependencies are those of all of its files, each with its file as
/// the manifest.
#[verifier::rlimit(40)]
pub proof fn lemma_project(files: Seq<SourceFile>, x: Dependency)
    ensures
        package_deps::project_dependencies(files).contains(x) <==> exists|i: int, k: int|
            0 <= i < files.len() && 0 <= k < package_deps::declared_in(files[i]).len()
                && #[trigger] files_as(files[i], package_deps::declared_in(files[i])[k], x),
    decreases files.len(),
{
    let all = package_deps::project_dependencies(files);
    if files.len() > 0 {
        let less = files.drop_last();
        let init = package_deps::project_dependencies(less);
        let f = files.last();
        let n = files.len() - 1;
        let deps = package_deps::declared_in(f);
        let own = package_deps::filed(deps, f.path@);
        lemma_project(less, x);
        lemma_concat(init, own, x);
        assert(forall|i: int| 0 <= i < less.len() ==> less[i] == files[i]);
        if own.contains(x) {
            let k = choose|k: int| 0 <= k < own.len() && own[k] == x;
            assert(files_as(files[n], deps[k], x));
        }
        if init.contains(x) {
            let (i, k) = choose|i: int, k: int|
                0 <= i < less.len() && 0 <= k < package_deps::declared_in(less[i]).len()
                    && #[trigger] files_as(less[i], package_deps::declared_in(less[i])[k], x);
            assert(files_as(files[i], package_deps::declared_in(files[i])[k], x));
        }
        if exists|i: int, k: int|
            0 <= i < files.len() && 0 <= k < package_deps::declared_in(files[i]).len()
                && #[trigger] files_as(files[i], package_deps::declared_in(files[i])[k], x) {
            let (i, k) = choose|i: int, k: int|
                0 <= i < files.len() && 0 <= k < package_deps::declared_in(files[i]).len()
                    && #[trigger] files_as(files[i], package_deps::declared_in(files[i])[k], x);
            if i < n {
                assert(files_as(less[i], package_deps::declared_in(less[i])[k], x));
            } else {
                assert(own[k] == x);
            }
        }
    } else {
        assert(!all.contains(x));
    }
}

/// The dependency is the one that the file declares, filed under it.
pub open spec fn files_as(f: SourceFile, d: Dependency, x: Dependency) -> bool {
    &&& x.manifest_path == f.path@
    &&& x.ecosystem == d.ecosystem
    &&& x.name == d.name
    &&& x.version_spec == d.version_spec
    &&& x.kind == d.kind
}

} // verus!
