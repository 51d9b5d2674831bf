//! The path of a Go module, and the rule that tells the standard library's
//! packages from the module's own.

use crate::edges;
use crate::text;
use vstd::prelude::*;

verus! {

/// The module a `go.mod` file declares.
pub struct GoModule {
    declared: Option<String>,
}

impl Default for GoModule {
    fn default() -> (r: Self)
        ensures
            r@ is None,
    {
        GoModule { declared: None }
    }
}

impl Clone for GoModule {
    fn clone(&self) -> (r: Self)
        ensures
            r@ == self@,
    {
        GoModule {
            declared: match &self.declared {
                Some(p) => Some(p.clone()),
                None => None,
            },
        }
    }
}

/// The path that one line of a `go.mod` file declares.
pub open spec fn declared_on(line: Seq<char>) -> Option<Seq<char>> {
    match text::after_prefix(text::trimmed_front(line), "module "@) {
        Some(rest) => {
            let name = text::trimmed(text::up_to_text(rest, "//"@));
            if name.len() > 0 {
                Some(name)
            } else {
                None
            }
        },
        None => None,
    }
}

/// The path that the first of `lines` to declare one declares.
pub open spec fn first_declared(lines: Seq<Seq<char>>) -> Option<Seq<char>>
    decreases lines.len(),
{
    if lines.len() == 0 {
        None
    } else {
        match declared_on(lines[0]) {
            Some(p) => Some(p),
            None => first_declared(lines.drop_first()),
        }
    }
}

/// Is `spec` the module `m` or a package below it?
pub open spec fn inside(m: Option<Seq<char>>, spec: Seq<char>) -> bool {
    match m {
        Some(p) => spec == p || text::begins_with(spec, p + "/"@),
        None => false,
    }
}

/// The directory of the package `spec` of the module `m`.
pub open spec fn directory(m: Option<Seq<char>>, spec: Seq<char>) -> Option<Seq<char>> {
    match m {
        Some(p) => if spec == p {
            Some(seq![])
        } else {
            text::after_prefix(spec, p + "/"@)
        },
        None => None,
    }
}

/// Is `spec` a package of the standard library? Everywhere else the first
/// element of an import path is a domain name.
pub open spec fn standard(m: Option<Seq<char>>, spec: Seq<char>) -> bool {
    let first = text::up_to(spec, '/');
    !inside(m, spec) && first.len() > 0 && !first.contains('.')
}

fn read_line(line: &[char]) -> (r: Option<String>)
    ensures
        edges::opt_text(r) == declared_on(line@),
{
    match text::strip_prefix(text::trim_start(line), "module ") {
        Some(rest) => {
            let name = text::trim(text::before_text(rest, "//"));
            if name.len() > 0 {
                Some(text::string_of(name))
            } else {
                None
            }
        },
        None => None,
    }
}

impl GoModule {
    /// The declared module path.
    pub closed spec fn view(&self) -> Option<Seq<char>> {
        edges::opt_text(self.declared)
    }

    /// Read the text of a project's `go.mod`; without one there is no module.
    pub fn build(go_mod: Option<&str>) -> (r: Self)
        ensures
            r@ == match go_mod {
                Some(t) => first_declared(text::lines_of(t@)),
                None => None,
            },
    {
        let content = match go_mod {
            Some(t) => t,
            None => {
                return GoModule::default();
            },
        };
        let cs = text::chars_of(content);
        let lines = text::lines(cs.as_slice());
        let ghost all = text::lines_of(content@);
        assert(text::slices(lines@).len() == lines@.len());
        let mut i: usize = 0;
        assert(all.skip(0) =~= all);
        while i < lines.len()
            invariant
                i <= lines@.len(),
                go_mod == Some(content),
                all == text::lines_of(content@),
                text::slices(lines@) == all,
                all.len() == lines@.len(),
                first_declared(all) == first_declared(all.skip(i as int)),
            decreases lines@.len() - i,
        {
            assert(all[i as int] == lines@[i as int]@);
            assert(all.skip(i as int).drop_first() =~= all.skip(i + 1));
            let found = read_line(lines[i]);
            if found.is_some() {
                return GoModule { declared: found };
            }
            i += 1;
        }
        GoModule { declared: None }
    }

    /// Does `spec` name a package of the standard library?
    pub fn is_stdlib(&self, spec: &str) -> (r: bool)
        ensures
            r == standard(self@, spec@),
    {
        if self.owns(spec) {
            return false;
        }
        let cs = text::chars_of(spec);
        let first = text::before_char(cs.as_slice(), '/');
        first.len() > 0 && !text::has_char(first, '.')
    }

    /// Does `spec` name a package of this module?
    pub fn owns(&self, spec: &str) -> (r: bool)
        ensures
            r == inside(self@, spec@),
    {
        let m = match &self.declared {
            Some(m) => m,
            None => {
                return false;
            },
        };
        if text::str_eq(spec, m.as_str()) {
            return true;
        }
        let mut below: String = m.clone();
        text::push_text(&mut below, "/");
        let cs = text::chars_of(spec);
        text::starts_with(cs.as_slice(), below.as_str())
    }

    /// The directory in the tree that a package of this module has: empty for
    /// the module's root, none for a package of another module.
    pub fn package_dir(&self, spec: &str) -> (r: Option<String>)
        ensures
            edges::opt_text(r) == directory(self@, spec@),
    {
        let m = match &self.declared {
            Some(m) => m,
            None => {
                return None;
            },
        };
        if text::str_eq(spec, m.as_str()) {
            let root = String::new();
            assert(root@ =~= seq![]);
            return Some(root);
        }
        let mut below: String = m.clone();
        text::push_text(&mut below, "/");
        let cs = text::chars_of(spec);
        match text::strip_prefix(cs.as_slice(), below.as_str()) {
            Some(rest) => Some(text::string_of(rest)),
            None => None,
        }
    }
}

/// A package has a directory in the tree exactly where the module owns it.
pub proof fn lemma_owned_has_directory(m: Option<Seq<char>>, spec: Seq<char>)
    ensures
        inside(m, spec) <==> directory(m, spec) is Some,
{
}

/// No package of the module is taken for one of the standard library, whatever
/// the module is called.
pub proof fn lemma_owned_is_not_standard(m: Option<Seq<char>>, spec: Seq<char>)
    requires
        inside(m, spec),
    ensures
        !standard(m, spec),
{
}

/// A domain-qualified import is not one of the standard library.
pub proof fn lemma_domain_is_not_standard(m: Option<Seq<char>>, spec: Seq<char>)
    requires
        text::up_to(spec, '/').contains('.'),
    ensures
        !standard(m, spec),
{
}

/// A package's directory below the module's path gives its import path back.
pub proof fn lemma_directory_round_trip(p: Seq<char>, dir: Seq<char>)
    ensures
        directory(Some(p), p + "/"@ + dir) == Some(dir),
{
    reveal_strlit("/");
    let base = p + "/"@;
    let spec = base + dir;
    assert(spec.take(base.len() as int) =~= base);
    assert(spec.skip(base.len() as int) =~= dir);
    assert(spec.len() > p.len());
}

} // verus!
