//! Which files declare which JVM packages, and the file that a qualified type
//! name stands for.

use crate::edges;
use crate::names;
use crate::names::KeyIndex;
use crate::paths;
use crate::text;
use vstd::prelude::*;

verus! {

/// A `package` declaration stands in a file's header: no later line is read.
pub const HEADER_SCAN_LINES: usize = 200;

/// One source file: its path in the project, and its text.
pub struct SourceFile {
    pub path: String,
    pub source: String,
}

/// Is a character alphanumeric, as `char::is_alphanumeric` tells it?
pub uninterp spec fn alphanumeric(c: char) -> bool;

/// `char::is_alphanumeric`: trusted to depend on the character alone, and to hold
/// of exactly the digits and letters among the ASCII characters.
pub assume_specification[ char::is_alphanumeric ](c: char) -> (r: bool)
    ensures
        r == alphanumeric(c),
        c <= '\u{7f}' ==> r == ('0' <= c <= '9' || 'a' <= c <= 'z' || 'A' <= c <= 'Z'),
;

/// A letter or a digit. Beyond ASCII, what these are is `char`'s to say.
pub open spec fn is_letter_or_digit(c: char) -> bool {
    if c <= '\u{7f}' {
        '0' <= c <= '9' || 'a' <= c <= 'z' || 'A' <= c <= 'Z'
    } else {
        alphanumeric(c)
    }
}

/// Can the character stand in a package's name?
pub open spec fn in_package_name(c: char) -> bool {
    is_letter_or_digit(c) || c == '_' || c == '.' || c == '$'
}

/// The leading part of `s` that can be a package's name.
pub open spec fn leading_name(s: Seq<char>) -> Seq<char>
    decreases s.len(),
{
    if s.len() == 0 || !in_package_name(s[0]) {
        seq![]
    } else {
        seq![s[0]] + leading_name(s.drop_first())
    }
}

/// The package that one line declares; empty where it declares none.
pub open spec fn package_on(line: Seq<char>) -> Seq<char> {
    match text::after_prefix(text::trimmed_front(line), "package "@) {
        Some(rest) => leading_name(
            text::trimmed(text::drop_back(text::trimmed(rest), ";"@)),
        ),
        None => seq![],
    }
}

/// The packages that `lines` declare, each once, in order.
pub open spec fn packages_on(lines: Seq<Seq<char>>) -> Seq<Seq<char>>
    decreases lines.len(),
{
    if lines.len() == 0 {
        seq![]
    } else {
        let init = packages_on(lines.drop_last());
        let p = package_on(lines.last());
        if p.len() > 0 && !init.contains(p) {
            init.push(p)
        } else {
            init
        }
    }
}

/// The lines of a file's header.
pub open spec fn header(source: Seq<char>) -> Seq<Seq<char>> {
    let lines = text::lines_of(source);
    if lines.len() <= HEADER_SCAN_LINES {
        lines
    } else {
        lines.take(HEADER_SCAN_LINES as int)
    }
}

/// Does the file's extension belong to a JVM language?
pub open spec fn is_jvm_file(path: Seq<char>) -> bool {
    match paths::extension(path) {
        Some(e) => e == "java"@ || e == "kt"@ || e == "kts"@ || e == "groovy"@ || e == "scala"@,
        None => false,
    }
}

pub fn has_jvm_extension(path: &str) -> (r: bool)
    ensures
        r == is_jvm_file(path@),
{
    let cs = text::chars_of(path);
    match paths::ext(cs.as_slice()) {
        Some(e) => text::is(e, "java") || text::is(e, "kt") || text::is(e, "kts") || text::is(
            e,
            "groovy",
        ) || text::is(e, "scala"),
        None => false,
    }
}

fn read_name(s: &[char]) -> (r: String)
    ensures
        r@ == leading_name(s@),
{
    let mut out = String::new();
    let mut i: usize = 0;
    assert(s@.skip(0) =~= s@);
    assert(out@ + leading_name(s@) =~= leading_name(s@));
    while i < s.len() && (s[i].is_alphanumeric() || s[i] == '_' || s[i] == '.' || s[i] == '$')
        invariant
            i <= s@.len(),
            out@ + leading_name(s@.skip(i as int)) == leading_name(s@),
        decreases s@.len() - i,
    {
        let ghost before = out@;
        out.push(s[i]);
        proof {
            let rest = s@.skip(i as int);
            assert(rest.drop_first() =~= s@.skip(i + 1));
            assert(before + leading_name(rest) =~= out@ + leading_name(s@.skip(i + 1)));
        }
        i += 1;
    }
    assert(out@ + seq![] =~= out@);
    out
}

fn read_line(line: &[char]) -> (r: String)
    ensures
        r@ == package_on(line@),
{
    match text::strip_prefix(text::trim_start(line), "package ") {
        Some(rest) => read_name(text::trim(text::trim_back_set(text::trim(rest), ";"))),
        None => {
            let none = String::new();
            assert(none@ =~= seq![]);
            none
        },
    }
}

/// The packages that a file's header declares, each once, in order.
pub fn packages_declared_in(source: &str) -> (r: Vec<String>)
    ensures
        text::texts(r@) == packages_on(header(source@)),
{
    let cs = text::chars_of(source);
    let lines = text::lines(cs.as_slice());
    let ghost all = text::lines_of(source@);
    assert(text::slices(lines@).len() == lines@.len());
    let mut out: Vec<String> = Vec::new();
    let mut i: usize = 0;
    assert(text::texts(out@) =~= packages_on(all.take(0)));
    while i < lines.len() && i < HEADER_SCAN_LINES
        invariant
            i <= lines@.len(),
            i <= HEADER_SCAN_LINES,
            text::slices(lines@) == all,
            all.len() == lines@.len(),
            text::texts(out@) == packages_on(all.take(i as int)),
        decreases lines@.len() - i,
    {
        proof {
            assert(all[i as int] == lines@[i as int]@);
            assert(all.take(i + 1).drop_last() =~= all.take(i as int));
            assert(all.take(i + 1).last() == all[i as int]);
        }
        let name = read_line(lines[i]);
        let ghost before = out@;
        if !name.as_str().is_empty() && !text::has_text(&out, name.as_str()) {
            out.push(name);
            assert(text::texts(out@) =~= text::texts(before).push(name@));
        }
        i += 1;
    }
    assert(all.take(i as int) =~= header(source@));
    out
}

/// Every package declared in the project, with the file that declares it.
pub struct JvmPackageMap {
    packages: KeyIndex,
    files: Vec<String>,
}

impl Default for JvmPackageMap {
    fn default() -> (r: Self)
        ensures
            r.wf(),
            r@ == Seq::<(Seq<char>, Seq<char>)>::empty(),
    {
        let r = JvmPackageMap { packages: KeyIndex::new(), files: Vec::new() };
        assert(r@ =~= Seq::<(Seq<char>, Seq<char>)>::empty());
        r
    }
}

impl Clone for JvmPackageMap {
    fn clone(&self) -> (r: Self)
        ensures
            r@ == self@,
            self.wf() ==> r.wf(),
    {
        let r = JvmPackageMap {
            packages: self.packages.clone(),
            files: text::copy_texts(&self.files),
        };
        proof {
            assert(text::texts(r.files@).len() == r.files@.len());
            assert forall|i: int| 0 <= i < self.files@.len() implies r.files@[i]@
                == self.files@[i]@ by {
                assert(text::texts(r.files@)[i] == text::texts(self.files@)[i]);
            }
            assert(r@ =~= self@);
        }
        r
    }
}

/// The declarations of one file.
pub open spec fn declarations(f: SourceFile) -> Seq<(Seq<char>, Seq<char>)> {
    if is_jvm_file(f.path@) {
        packages_on(header(f.source@)).map_values(|p: Seq<char>| (p, f.path@))
    } else {
        seq![]
    }
}

/// The declarations of a list of files, in order.
pub open spec fn all_declarations(files: Seq<SourceFile>) -> Seq<(Seq<char>, Seq<char>)>
    decreases files.len(),
{
    if files.len() == 0 {
        seq![]
    } else {
        all_declarations(files.drop_last()) + declarations(files.last())
    }
}

pub open spec fn in_package(p: Seq<char>) -> spec_fn((Seq<char>, Seq<char>)) -> bool {
    |d: (Seq<char>, Seq<char>)| d.0 == p
}

/// The first file among the declarations whose stem is `name`.
pub open spec fn first_with_stem(ds: Seq<(Seq<char>, Seq<char>)>, name: Seq<char>) -> Option<
    Seq<char>,
>
    decreases ds.len(),
{
    if ds.len() == 0 {
        None
    } else if paths::file_stem(ds[0].1) == Some(name) {
        Some(ds[0].1)
    } else {
        first_with_stem(ds.drop_first(), name)
    }
}

/// The file of the type `dotted`: one that declares its package and is named
/// after it. A wildcard names no type.
pub open spec fn file_of_type(ds: Seq<(Seq<char>, Seq<char>)>, dotted: Seq<char>) -> Option<
    Seq<char>,
> {
    match text::cut_at_last(dotted, '.') {
        Some((package, name)) => if name.len() == 0 || name == "*"@ {
            None
        } else {
            first_with_stem(ds.filter(in_package(package)), name)
        },
        None => None,
    }
}

/// Does `dotted` name all of a package, or all members of a type?
pub open spec fn is_wildcard(dotted: Seq<char>) -> bool {
    match text::cut_at_last(dotted, '.') {
        Some((_, name)) => name == "*"@,
        None => false,
    }
}

/// The file of the type `dotted`, or of the type that it names a member of. A
/// wildcard has no single target.
pub open spec fn file_of_import(ds: Seq<(Seq<char>, Seq<char>)>, dotted: Seq<char>) -> Option<
    Seq<char>,
> {
    if is_wildcard(dotted) {
        None
    } else {
        match file_of_type(ds, dotted) {
            Some(f) => Some(f),
            None => match text::cut_at_last(dotted, '.') {
                Some((head, _)) => file_of_type(ds, head),
                None => None,
            },
        }
    }
}

impl JvmPackageMap {
    /// The declarations, as pairs of a package and a file.
    pub closed spec fn view(&self) -> Seq<(Seq<char>, Seq<char>)> {
        Seq::new(self.files@.len(), |i: int| (self.packages@[i], self.files@[i]@))
    }

    pub closed spec fn wf(&self) -> bool {
        self.packages.wf() && self.packages@.len() == self.files@.len()
    }

    /// Read the headers of the project's JVM files.
    pub fn build(files: &Vec<SourceFile>) -> (r: Self)
        ensures
            r.wf(),
            r@ == all_declarations(files@),
    {
        let mut r = JvmPackageMap { packages: KeyIndex::new(), files: Vec::new() };
        let mut i: usize = 0;
        assert(r@ =~= all_declarations(files@.take(0)));
        while i < files.len()
            invariant
                i <= files@.len(),
                r.wf(),
                r@ == all_declarations(files@.take(i as int)),
            decreases files@.len() - i,
        {
            let f = &files[i];
            let ghost so_far = r@;
            assert(files@.take(i + 1).drop_last() =~= files@.take(i as int));
            if has_jvm_extension(f.path.as_str()) {
                let found = packages_declared_in(f.source.as_str());
                let ghost own = declarations(*f);
                let mut j: usize = 0;
                assert(text::texts(found@).len() == found@.len());
                assert(so_far + own.take(0) =~= so_far);
                while j < found.len()
                    invariant
                        j <= found@.len(),
                        i < files@.len(),
                        *f == files@[i as int],
                        r.wf(),
                        is_jvm_file(f.path@),
                        own == declarations(*f),
                        text::texts(found@) == packages_on(header(f.source@)),
                        own.len() == found@.len(),
                        r@ == so_far + own.take(j as int),
                    decreases found@.len() - j,
                {
                    let ghost before = r@;
                    let n = r.files.len();
                    r.packages.push(found[j].as_str(), n);
                    r.files.push(f.path.clone());
                    proof {
                        assert(r@ =~= before.push((found@[j as int]@, f.path@)));
                        assert(text::texts(found@)[j as int] == found@[j as int]@);
                        assert(own[j as int] == (found@[j as int]@, f.path@));
                        assert(so_far + own.take(j + 1) =~= (so_far + own.take(j as int)).push(
                            own[j as int],
                        ));
                    }
                    j += 1;
                }
                assert(own.take(own.len() as int) =~= own);
            } else {
                assert(so_far + declarations(*f) =~= so_far);
            }
            i += 1;
        }
        assert(files@.take(files@.len() as int) =~= files@);
        r
    }

    pub fn is_empty(&self) -> (r: bool)
        ensures
            r == (self@.len() == 0),
    {
        self.files.len() == 0
    }

    /// The file that declares the type `dotted`, or the type it is a member of;
    /// none for a wildcard.
    pub fn resolve_type(&self, dotted: &str) -> (r: Option<String>)
        requires
            self.wf(),
        ensures
            edges::opt_text(r) == file_of_import(self@, dotted@),
    {
        let cs = text::chars_of(dotted);
        let (head, name) = match text::rsplit_once(cs.as_slice(), '.') {
            Some(x) => x,
            None => {
                return None;
            },
        };
        if text::is(name, "*") {
            return None;
        }
        let found = self.lookup(cs.as_slice());
        if found.is_some() {
            return found;
        }
        self.lookup(head)
    }

    fn lookup(&self, dotted: &[char]) -> (r: Option<String>)
        requires
            self.wf(),
        ensures
            edges::opt_text(r) == file_of_type(self@, dotted@),
    {
        let (package, name) = match text::rsplit_once(dotted, '.') {
            Some(x) => x,
            None => {
                return None;
            },
        };
        if name.len() == 0 || text::is(name, "*") {
            return None;
        }
        let p = text::string_of(package);
        let n = text::string_of(name);
        let hits = self.packages.get(p.as_str());
        let ghost own = names::pick(self@, names::at(hits@));
        proof {
            names::lemma_pick_positions(self@, self.packages@, p@, in_package(p@));
            assert(own.skip(0) =~= own);
        }
        let mut i: usize = 0;
        while i < hits.len()
            invariant
                i <= hits@.len(),
                self.wf(),
                names::within(hits@, self.packages@.len()),
                own == names::pick(self@, names::at(hits@)),
                own.len() == hits@.len(),
                own == self@.filter(in_package(p@)),
                text::cut_at_last(dotted@, '.') == Some((p@, n@)),
                n@.len() > 0 && n@ != "*"@,
                first_with_stem(own, n@) == first_with_stem(own.skip(i as int), n@),
            decreases hits@.len() - i,
        {
            let f = &self.files[hits[i]];
            proof {
                assert(own[i as int] == self@[hits@[i as int] as int]);
                assert(own.skip(i as int).drop_first() =~= own.skip(i + 1));
            }
            if paths::stem_is(f.as_str(), n.as_str()) {
                return Some(f.clone());
            }
            i += 1;
        }
        None
    }
}

/// An import of everything in a package or a type is left unresolved, whatever
/// the files are called.
pub proof fn lemma_wildcard_has_no_target(ds: Seq<(Seq<char>, Seq<char>)>, package: Seq<char>)
    ensures
        file_of_import(ds, package + ".*"@) is None,
{
    reveal_strlit(".*");
    reveal_strlit("*");
    let dotted = package + ".*"@;
    reveal_with_fuel(text::last_before, 3);
    assert(dotted[package.len() as int] == '.' && dotted[package.len() as int + 1] == '*');
    assert(text::last_before(dotted, '.', dotted.len() as int) == package.len());
    assert(dotted.skip(package.len() as int + 1) =~= "*"@);
}

/// A type is only ever found in a file that declares its package and bears its
/// name.
pub proof fn lemma_type_found_where_declared(ds: Seq<(Seq<char>, Seq<char>)>, dotted: Seq<char>)
    requires
        file_of_type(ds, dotted) is Some,
    ensures
        ({
            let cut = text::cut_at_last(dotted, '.')->Some_0;
            let file = file_of_type(ds, dotted)->Some_0;
            ds.contains((cut.0, file)) && paths::file_stem(file) == Some(cut.1)
        }),
{
    let cut = text::cut_at_last(dotted, '.')->Some_0;
    let own = ds.filter(in_package(cut.0));
    lemma_first_with_stem(own, cut.1);
    let file = file_of_type(ds, dotted)->Some_0;
    let i = choose|i: int| 0 <= i < own.len() && (#[trigger] own[i]).1 == file;
    ds.lemma_filter_pred(in_package(cut.0), i);
    assert(own.contains(own[i]));
    ds.lemma_filter_contains_rev(in_package(cut.0), own[i]);
    assert(own[i] == (cut.0, file));
}

proof fn lemma_first_with_stem(ds: Seq<(Seq<char>, Seq<char>)>, name: Seq<char>)
    requires
        first_with_stem(ds, name) is Some,
    ensures
        paths::file_stem(first_with_stem(ds, name)->Some_0) == Some(name),
        exists|i: int| 0 <= i < ds.len() && (#[trigger] ds[i]).1 == first_with_stem(ds, name)->Some_0,
    decreases ds.len(),
{
    if paths::file_stem(ds[0].1) != Some(name) {
        let rest = ds.drop_first();
        lemma_first_with_stem(rest, name);
        let i = choose|i: int|
            0 <= i < rest.len() && (#[trigger] rest[i]).1 == first_with_stem(rest, name)->Some_0;
        assert(ds[i + 1] == rest[i]);
    }
}

/// A package that no file declares resolves nothing.
pub proof fn lemma_undeclared_package(ds: Seq<(Seq<char>, Seq<char>)>, dotted: Seq<char>)
    requires
        text::cut_at_last(dotted, '.') is Some,
        forall|i: int|
            0 <= i < ds.len() ==> (#[trigger] ds[i]).0 != text::cut_at_last(
                dotted,
                '.',
            )->Some_0.0,
    ensures
        file_of_type(ds, dotted) is None,
{
    if file_of_type(ds, dotted) is Some {
        lemma_type_found_where_declared(ds, dotted);
    }
}

} // verus!
