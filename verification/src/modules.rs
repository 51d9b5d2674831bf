//! Which indexed file an import names, by the module conventions of the
//! importing file's language.

use crate::edges;
use crate::go_module;
use crate::jvm_package;
use crate::maps::{CrateMap, ResolutionMaps};
use crate::names::NameTable;
use crate::paths;
use crate::text;
use vstd::prelude::*;
use vstd::slice::slice_subrange;

verus! {

// ---------------------------------------------------------------------------
// Directories
// ---------------------------------------------------------------------------

/// The directory of a path, with forward slashes.
pub open spec fn dir_of(p: Seq<char>) -> Seq<char> {
    text::swapped(paths::parent_text(p), '\\', '/')
}

/// The directory `n` levels above `dir`.
pub open spec fn up(dir: Seq<char>, n: nat) -> Seq<char>
    decreases n,
{
    if n == 0 {
        dir
    } else {
        up(dir_of(dir), (n - 1) as nat)
    }
}

fn parent_of(p: &[char]) -> (r: Vec<char>)
    ensures
        r@ == dir_of(p@),
        p@.len() > 0 ==> r@.len() < p@.len(),
{
    text::replace_char(paths::parent(p), '\\', '/')
}

fn climb(dir: &[char], n: usize) -> (r: Vec<char>)
    ensures
        r@ == up(dir@, n as nat),
{
    let mut cur: Vec<char> = text::replace_char(dir, '/', '/');
    let mut i: usize = n;
    assert(cur@ =~= dir@);
    while i > 0
        invariant
            up(cur@, i as nat) == up(dir@, n as nat),
        decreases i,
    {
        cur = parent_of(cur.as_slice());
        i -= 1;
    }
    cur
}

/// Walk `seg` from the directory with these parts.
pub open spec fn stepped(parts: Seq<Seq<char>>, seg: Seq<char>) -> Seq<Seq<char>> {
    if seg.len() == 0 || seg == "."@ {
        parts
    } else if seg == ".."@ {
        if parts.len() == 0 {
            parts
        } else {
            parts.drop_last()
        }
    } else {
        parts.push(seg)
    }
}

/// Walk all of `segs`.
pub open spec fn walked(parts: Seq<Seq<char>>, segs: Seq<Seq<char>>) -> Seq<Seq<char>>
    decreases segs.len(),
{
    if segs.len() == 0 {
        parts
    } else {
        stepped(walked(parts, segs.drop_last()), segs.last())
    }
}

pub open spec fn non_empty() -> spec_fn(Seq<char>) -> bool {
    |s: Seq<char>| s.len() > 0
}

/// The relative path `rel`, resolved against `base_dir`.
pub open spec fn resolved_rel(base_dir: Seq<char>, rel: Seq<char>) -> Seq<char> {
    text::joined(
        walked(text::split_on(base_dir, '/').filter(non_empty()), text::split_on(rel, '/')),
        "/"@,
    )
}

fn keep_non_empty<'a>(v: &Vec<&'a [char]>) -> (r: Vec<&'a [char]>)
    ensures
        text::slices(r@) == text::slices(v@).filter(non_empty()),
{
    let ghost all = text::slices(v@);
    let mut out: Vec<&'a [char]> = Vec::new();
    let mut i: usize = 0;
    proof {
        reveal(Seq::filter);
        assert(text::slices(out@) =~= all.take(0).filter(non_empty()));
    }
    while i < v.len()
        invariant
            i <= v@.len(),
            all == text::slices(v@),
            text::slices(out@) == all.take(i as int).filter(non_empty()),
        decreases v@.len() - i,
    {
        let ghost before = out@;
        proof {
            reveal(Seq::filter);
            assert(all.take(i + 1).drop_last() =~= all.take(i as int));
            assert(all.take(i + 1).last() == v@[i as int]@);
        }
        if v[i].len() > 0 {
            out.push(v[i]);
            assert(text::slices(out@) =~= text::slices(before).push(v@[i as int]@));
        }
        i += 1;
    }
    assert(all.take(all.len() as int) =~= all);
    out
}

fn normalize_rel(base_dir: &[char], rel: &[char]) -> (r: String)
    ensures
        r@ == resolved_rel(base_dir@, rel@),
{
    let start = text::split(base_dir, '/');
    let mut parts = keep_non_empty(&start);
    let segs = text::split(rel, '/');
    let ghost p0 = text::slices(parts@);
    let ghost all = text::slices(segs@);
    let mut i: usize = 0;
    assert(text::slices(parts@) =~= walked(p0, all.take(0)));
    while i < segs.len()
        invariant
            i <= segs@.len(),
            all == text::slices(segs@),
            text::slices(parts@) == walked(p0, all.take(i as int)),
        decreases segs@.len() - i,
    {
        let ghost before = parts@;
        let seg = segs[i];
        proof {
            assert(all.take(i + 1).drop_last() =~= all.take(i as int));
            assert(all.take(i + 1).last() == seg@);
            assert(text::slices(before).len() == before.len());
        }
        if seg.len() == 0 || text::is(seg, ".") {
        } else if text::is(seg, "..") {
            if parts.len() > 0 {
                let _last = parts.pop();
                assert(text::slices(parts@) =~= text::slices(before).drop_last());
            }
        } else {
            parts.push(seg);
            assert(text::slices(parts@) =~= text::slices(before).push(seg@));
        }
        i += 1;
    }
    assert(all.take(all.len() as int) =~= all);
    text::join(parts.as_slice(), "/")
}

// ---------------------------------------------------------------------------
// Candidates
// ---------------------------------------------------------------------------

/// The first of `base` with one of the suffixes that is an indexed file.
pub open spec fn first_known(
    known: Seq<Seq<char>>,
    base: Seq<char>,
    suffixes: Seq<Seq<char>>,
) -> Option<Seq<char>>
    decreases suffixes.len(),
{
    if suffixes.len() == 0 {
        None
    } else if known.contains(base + suffixes[0]) {
        Some(base + suffixes[0])
    } else {
        first_known(known, base, suffixes.drop_first())
    }
}

/// The first hit among the bases, in order. Repetitions of `lead` at the front
/// of a base are dropped.
pub open spec fn first_of(
    known: Seq<Seq<char>>,
    bases: Seq<Seq<char>>,
    lead: Seq<char>,
    suffixes: Seq<Seq<char>>,
) -> Option<Seq<char>>
    decreases bases.len(),
{
    if bases.len() == 0 {
        None
    } else {
        match first_known(known, text::without_leading(bases[0], lead), suffixes) {
            Some(hit) => Some(hit),
            None => first_of(known, bases.drop_first(), lead, suffixes),
        }
    }
}

pub open spec fn lits(v: Seq<&'static str>) -> Seq<Seq<char>> {
    v.map_values(|s: &'static str| s@)
}

fn find_known(known: &NameTable, base: &[char], suffixes: &Vec<&'static str>) -> (r: Option<String>)
    requires
        known.wf(),
    ensures
        edges::opt_text(r) == first_known(known@, base@, lits(suffixes@)),
{
    let ghost all = lits(suffixes@);
    let mut i: usize = 0;
    assert(all.skip(0) =~= all);
    while i < suffixes.len()
        invariant
            i <= suffixes@.len(),
            known.wf(),
            all == lits(suffixes@),
            first_known(known@, base@, all) == first_known(known@, base@, all.skip(i as int)),
        decreases suffixes@.len() - i,
    {
        let mut c: String = text::string_of(base);
        text::push_text(&mut c, suffixes[i]);
        assert(all.skip(i as int)[0] == suffixes@[i as int]@);
        assert(all.skip(i as int).drop_first() =~= all.skip(i + 1));
        if known.contains(c.as_str()) {
            return Some(c);
        }
        i += 1;
    }
    None
}

fn find_first(
    known: &NameTable,
    bases: &Vec<String>,
    lead: &str,
    suffixes: &Vec<&'static str>,
) -> (r: Option<String>)
    requires
        known.wf(),
        lead@.len() > 0,
    ensures
        edges::opt_text(r) == first_of(known@, text::texts(bases@), lead@, lits(suffixes@)),
{
    let ghost all = text::texts(bases@);
    let mut i: usize = 0;
    assert(all.skip(0) =~= all);
    while i < bases.len()
        invariant
            i <= bases@.len(),
            known.wf(),
            lead@.len() > 0,
            all == text::texts(bases@),
            first_of(known@, all, lead@, lits(suffixes@)) == first_of(
                known@,
                all.skip(i as int),
                lead@,
                lits(suffixes@),
            ),
        decreases bases@.len() - i,
    {
        assert(all.skip(i as int)[0] == bases@[i as int]@);
        assert(all.skip(i as int).drop_first() =~= all.skip(i + 1));
        let cs = text::chars_of(bases[i].as_str());
        let base = text::trim_start_matches(cs.as_slice(), lead);
        let hit = find_known(known, base, suffixes);
        if hit.is_some() {
            return hit;
        }
        i += 1;
    }
    None
}

// ---------------------------------------------------------------------------
// Rust
// ---------------------------------------------------------------------------

/// What a Rust module's file can be called, behind the module's path.
pub open spec fn rust_suffixes() -> Seq<Seq<char>> {
    seq![".rs"@, "/mod.rs"@, "/lib.rs"@, ""@]
}

/// Where the module path `rest` below `base_dir` can lead: to itself, or to the
/// module that holds it as an item. With `root_item` a single segment can be an
/// item of `base_dir`'s own file.
pub open spec fn rust_bases(
    base_dir: Seq<char>,
    rest: Seq<Seq<char>>,
    root_item: bool,
) -> Seq<Seq<char>> {
    let path = text::joined(rest, "/"@);
    if path.len() == 0 {
        seq![base_dir]
    } else {
        match text::cut_at_last(path, '/') {
            Some((parent, _)) => seq![
                paths::below(base_dir, path),
                paths::below(base_dir, parent),
            ],
            None => if root_item {
                seq![paths::below(base_dir, path), base_dir]
            } else {
                seq![paths::below(base_dir, path)]
            },
        }
    }
}

/// The indexed file of the module path `rest` below `base_dir`.
pub open spec fn rust_file(
    known: Seq<Seq<char>>,
    base_dir: Seq<char>,
    rest: Seq<Seq<char>>,
    root_item: bool,
) -> Option<Seq<char>> {
    first_of(known, rust_bases(base_dir, rest, root_item), "/"@, rust_suffixes())
}

/// The directory that holds a Rust file's submodules; none for the files that
/// stand for their directory themselves.
pub open spec fn own_dir(from_path: Seq<char>) -> Option<Seq<char>> {
    match paths::file_stem(from_path) {
        Some(stem) => if stem == "mod"@ || stem == "lib"@ || stem == "main"@ {
            None
        } else {
            Some(paths::below(dir_of(from_path), stem))
        },
        None => None,
    }
}

/// The segments of a Rust path.
pub open spec fn rust_segments(module: Seq<char>) -> Seq<Seq<char>> {
    text::split_on_text(module, "::"@).filter(non_empty())
}

/// How many leading segments are `super`.
pub open spec fn supers(segs: Seq<Seq<char>>) -> nat
    decreases segs.len(),
{
    if segs.len() == 0 || segs[0] != "super"@ {
        0
    } else {
        1 + supers(segs.drop_first())
    }
}

/// `super::x`: in the file's own directory, else in its own module directory
/// (the path may stand inside of an inline module), else one level up. Further
/// levels climb a directory each.
pub open spec fn super_file(
    known: Seq<Seq<char>>,
    from_path: Seq<char>,
    segs: Seq<Seq<char>>,
) -> Option<Seq<char>> {
    let here = dir_of(from_path);
    let n = supers(segs);
    let climbed = rust_file(known, up(here, n), segs.skip(n as int), false);
    if n == 1 {
        match rust_file(known, here, segs.skip(1), false) {
            Some(hit) => Some(hit),
            None => match own_dir(from_path) {
                Some(own) => match rust_file(known, own, segs.skip(1), false) {
                    Some(hit) => Some(hit),
                    None => climbed,
                },
                None => climbed,
            },
        }
    } else {
        climbed
    }
}

/// A path that begins with a name: of a crate, or of a module in scope in the
/// file, or of one at the root of the file's crate.
pub open spec fn named_file(
    crates: CrateMap,
    known: Seq<Seq<char>>,
    from_path: Seq<char>,
    segs: Seq<Seq<char>>,
) -> Option<Seq<char>> {
    match crates.roots.at(text::swapped(segs[0], '-', '_')) {
        Some(root) => rust_file(known, root, segs.skip(1), true),
        None => {
            let scope = match own_dir(from_path) {
                Some(own) => own,
                None => dir_of(from_path),
            };
            match rust_file(known, scope, segs, false) {
                Some(hit) => Some(hit),
                None => match crates.homes.at(from_path) {
                    Some(root) => rust_file(known, root, segs, false),
                    None => None,
                },
            }
        },
    }
}

/// The indexed file that a Rust path names.
pub open spec fn rust_target(
    crates: CrateMap,
    known: Seq<Seq<char>>,
    from_path: Seq<char>,
    module: Seq<char>,
) -> Option<Seq<char>> {
    let segs = rust_segments(module);
    if segs.len() == 0 {
        None
    } else if segs[0] == "crate"@ {
        match crates.homes.at(from_path) {
            Some(root) => rust_file(known, root, segs.skip(1), true),
            None => None,
        }
    } else if segs[0] == "self"@ {
        rust_file(known, dir_of(from_path), segs.skip(1), false)
    } else if segs[0] == "super"@ {
        super_file(known, from_path, segs)
    } else {
        named_file(crates, known, from_path, segs)
    }
}

fn resolve_candidates(
    base_dir: &[char],
    rest: &[&[char]],
    allow_root_fallback: bool,
    known: &NameTable,
) -> (r: Option<String>)
    requires
        known.wf(),
    ensures
        edges::opt_text(r) == rust_file(
            known@,
            base_dir@,
            text::slices(rest@),
            allow_root_fallback,
        ),
{
    let path = text::join(rest, "/");
    let cs = text::chars_of(path.as_str());
    let mut bases: Vec<String> = Vec::new();
    if cs.len() == 0 {
        bases.push(text::string_of(base_dir));
        assert(text::texts(bases@) =~= seq![base_dir@]);
    } else {
        let full = paths::join_rel(base_dir, cs.as_slice());
        let ghost f = full@;
        bases.push(full);
        match text::rsplit_once(cs.as_slice(), '/') {
            Some((parent, _)) => {
                let p = paths::join_rel(base_dir, parent);
                bases.push(p);
                assert(text::texts(bases@) =~= seq![f, p@]);
            },
            None => {
                if allow_root_fallback {
                    bases.push(text::string_of(base_dir));
                    assert(text::texts(bases@) =~= seq![f, base_dir@]);
                } else {
                    assert(text::texts(bases@) =~= seq![f]);
                }
            },
        }
    }
    let suffixes: Vec<&'static str> = vec![".rs", "/mod.rs", "/lib.rs", ""];
    assert(lits(suffixes@) =~= rust_suffixes());
    proof {
        reveal_strlit("/");
    }
    find_first(known, &bases, "/", &suffixes)
}

fn own_module_dir(from_path: &[char]) -> (r: Option<Vec<char>>)
    ensures
        match r {
            Some(d) => own_dir(from_path@) == Some(d@),
            None => own_dir(from_path@) is None,
        },
{
    match paths::stem(from_path) {
        Some(stem) => {
            if text::is(stem, "mod") || text::is(stem, "lib") || text::is(stem, "main") {
                None
            } else {
                let dir = parent_of(from_path);
                let joined = paths::join_rel(dir.as_slice(), stem);
                Some(text::chars_of(joined.as_str()))
            }
        },
        None => None,
    }
}

/// The part of `segs` from `from` on.
fn tail<'a, 'b>(segs: &'a Vec<&'b [char]>, from: usize) -> (r: &'a [&'b [char]])
    requires
        from <= segs@.len(),
    ensures
        text::slices(r@) == text::slices(segs@).skip(from as int),
{
    let r = slice_subrange(segs.as_slice(), from, segs.len());
    assert(text::slices(r@) =~= text::slices(segs@).skip(from as int));
    r
}

fn count_supers(segs: &Vec<&[char]>) -> (r: usize)
    ensures
        r == supers(text::slices(segs@)),
        r <= segs@.len(),
{
    let ghost all = text::slices(segs@);
    let mut i: usize = 0;
    assert(all.skip(0) =~= all);
    while i < segs.len() && text::is(segs[i], "super")
        invariant
            i <= segs@.len(),
            all == text::slices(segs@),
            supers(all) == i + supers(all.skip(i as int)),
        decreases segs@.len() - i,
    {
        assert(all.skip(i as int)[0] == segs@[i as int]@);
        assert(all.skip(i as int).drop_first() =~= all.skip(i + 1));
        i += 1;
    }
    proof {
        if i < segs@.len() {
            assert(all.skip(i as int)[0] == segs@[i as int]@);
        }
    }
    i
}

fn resolve_super(from_path: &[char], segs: &Vec<&[char]>, known: &NameTable) -> (r: Option<String>)
    requires
        known.wf(),
    ensures
        edges::opt_text(r) == super_file(known@, from_path@, text::slices(segs@)),
{
    let here = parent_of(from_path);
    let n = count_supers(segs);
    if n == 1 {
        let hit = resolve_candidates(here.as_slice(), tail(segs, 1), false, known);
        if hit.is_some() {
            return hit;
        }
        if let Some(own) = own_module_dir(from_path) {
            let hit = resolve_candidates(own.as_slice(), tail(segs, 1), false, known);
            if hit.is_some() {
                return hit;
            }
        }
    }
    let dir = climb(here.as_slice(), n);
    resolve_candidates(dir.as_slice(), tail(segs, n), false, known)
}

fn resolve_named(
    from_path: &str,
    segs: &Vec<&[char]>,
    crate_map: &CrateMap,
    known: &NameTable,
) -> (r: Option<String>)
    requires
        known.wf(),
        segs@.len() > 0,
    ensures
        edges::opt_text(r) == named_file(
            *crate_map,
            known@,
            from_path@,
            text::slices(segs@),
        ),
{
    let name = text::replace_char(segs[0], '-', '_');
    let key = text::string_of(name.as_slice());
    if let Some(root) = crate_map.root_of(key.as_str()) {
        let dir = text::chars_of(root.as_str());
        return resolve_candidates(dir.as_slice(), tail(segs, 1), true, known);
    }
    let path = text::chars_of(from_path);
    let scope = match own_module_dir(path.as_slice()) {
        Some(own) => own,
        None => parent_of(path.as_slice()),
    };
    let all = tail(segs, 0);
    assert(text::slices(all@) =~= text::slices(segs@));
    let hit = resolve_candidates(scope.as_slice(), all, false, known);
    if hit.is_some() {
        return hit;
    }
    match crate_map.crate_of_file(from_path) {
        Some(root) => {
            let dir = text::chars_of(root.as_str());
            resolve_candidates(dir.as_slice(), all, false, known)
        },
        None => None,
    }
}

/// The indexed file that a Rust path names; none where the path leaves the
/// workspace.
pub fn resolve_rust_module(
    from_path: &str,
    module: &str,
    crate_map: &CrateMap,
    known: &NameTable,
) -> (r: Option<String>)
    requires
        known.wf(),
    ensures
        edges::opt_text(r) == rust_target(*crate_map, known@, from_path@, module@),
{
    proof {
        reveal_strlit("::");
    }
    let cs = text::chars_of(module);
    let pieces = text::split_text(cs.as_slice(), "::");
    let segs = keep_non_empty(&pieces);
    assert(text::slices(segs@).len() == segs@.len());
    if segs.len() == 0 {
        return None;
    }
    assert(text::slices(segs@)[0] == segs@[0]@);
    let path = text::chars_of(from_path);
    if text::is(segs[0], "crate") {
        match crate_map.crate_of_file(from_path) {
            Some(root) => {
                let dir = text::chars_of(root.as_str());
                resolve_candidates(dir.as_slice(), tail(&segs, 1), true, known)
            },
            None => None,
        }
    } else if text::is(segs[0], "self") {
        let dir = parent_of(path.as_slice());
        resolve_candidates(dir.as_slice(), tail(&segs, 1), false, known)
    } else if text::is(segs[0], "super") {
        resolve_super(path.as_slice(), &segs, known)
    } else {
        resolve_named(from_path, &segs, crate_map, known)
    }
}

// ---------------------------------------------------------------------------
// Go
// ---------------------------------------------------------------------------

/// Is `p` a Go file directly in the directory with this prefix?
pub open spec fn go_file_in(prefix: Seq<char>) -> spec_fn(Seq<char>) -> bool {
    |p: Seq<char>|
        text::finishes_with(p, ".go"@) && text::begins_with(p, prefix) && !p.skip(
            prefix.len() as int,
        ).contains('/')
}

/// The first of the texts in the order of texts.
pub open spec fn least(s: Seq<Seq<char>>) -> Option<Seq<char>>
    decreases s.len(),
{
    if s.len() == 0 {
        None
    } else {
        match least(s.drop_last()) {
            None => Some(s.last()),
            Some(x) => if text::before(s.last(), x) {
                Some(s.last())
            } else {
                Some(x)
            },
        }
    }
}

/// The file that stands for the Go package in `dir`: the first one by name.
pub open spec fn go_package_file(known: Seq<Seq<char>>, dir: Seq<char>) -> Option<Seq<char>> {
    let prefix = if dir.len() == 0 {
        seq![]
    } else {
        dir + "/"@
    };
    least(known.filter(go_file_in(prefix)))
}

/// The indexed file of a Go import: none for the standard library and for the
/// packages of other modules.
pub open spec fn go_target(m: Option<Seq<char>>, known: Seq<Seq<char>>, spec: Seq<char>) -> Option<
    Seq<char>,
> {
    if go_module::standard(m, spec) {
        None
    } else {
        match go_module::directory(m, spec) {
            Some(dir) => go_package_file(known, dir),
            None => None,
        }
    }
}

fn find_go_package(known: &NameTable, dir: &str) -> (r: Option<String>)
    requires
        known.wf(),
    ensures
        edges::opt_text(r) == go_package_file(known@, dir@),
{
    let mut prefix: String = dir.to_owned();
    if !dir.is_empty() {
        text::push_text(&mut prefix, "/");
    }
    let ghost px = prefix@;
    assert(px =~= (if dir@.len() == 0 {
        seq![]
    } else {
        dir@ + "/"@
    }));
    let ghost all = known@;
    let ghost q = go_file_in(px);
    let mut best: Option<String> = None;
    let mut i: usize = 0;
    proof {
        reveal(Seq::filter);
        assert(all.take(0).filter(q) =~= seq![]);
    }
    while i < known.len()
        invariant
            i <= all.len(),
            known.wf(),
            all == known@,
            px == prefix@,
            q == go_file_in(px),
            edges::opt_text(best) == least(all.take(i as int).filter(q)),
        decreases all.len() - i,
    {
        let p = known.name(i);
        let cs = text::chars_of(p.as_str());
        let ghost so_far = all.take(i as int).filter(q);
        proof {
            reveal(Seq::filter);
            assert(all.take(i + 1).drop_last() =~= all.take(i as int));
            assert(all.take(i + 1).last() == p@);
            assert(so_far.push(p@).drop_last() =~= so_far);
            assert(so_far.push(p@).last() == p@);
        }
        let fits = text::ends_with(cs.as_slice(), ".go") && match text::strip_prefix(
            cs.as_slice(),
            prefix.as_str(),
        ) {
            Some(rest) => !text::has_char(rest, '/'),
            None => false,
        };
        assert(fits == q(p@));
        if fits {
            let better = match &best {
                None => true,
                Some(b) => text::str_less(p.as_str(), b.as_str()),
            };
            if better {
                best = Some(p.clone());
            }
        }
        i += 1;
    }
    assert(all.take(all.len() as int) =~= all);
    best
}

// ---------------------------------------------------------------------------
// By convention
// ---------------------------------------------------------------------------

/// What a module's file can be called, behind the module's path.
pub open spec fn common_suffixes() -> Seq<Seq<char>> {
    seq![
        ""@,
        ".py"@,
        ".rs"@,
        ".go"@,
        ".ts"@,
        ".tsx"@,
        ".js"@,
        ".jsx"@,
        ".java"@,
        "/__init__.py"@,
        "/mod.rs"@,
        "/index.ts"@,
        "/index.tsx"@,
        "/index.js"@,
    ]
}

/// A specifier without the extension of an emitted JavaScript file.
pub open spec fn without_js_extension(m: Seq<char>) -> Option<Seq<char>> {
    if text::finishes_with(m, ".mjs"@) {
        text::before_suffix(m, ".mjs"@)
    } else if text::finishes_with(m, ".cjs"@) {
        text::before_suffix(m, ".cjs"@)
    } else if text::finishes_with(m, ".jsx"@) {
        text::before_suffix(m, ".jsx"@)
    } else {
        text::before_suffix(m, ".js"@)
    }
}

/// A JavaScript specifier that is relative to the importing file.
pub open spec fn is_relative(m: Seq<char>) -> bool {
    text::begins_with(m, "./"@) || text::begins_with(m, "../"@)
}

pub open spec fn relative_bases(from_dir: Seq<char>, m: Seq<char>) -> Seq<Seq<char>> {
    match without_js_extension(m) {
        Some(s) => seq![resolved_rel(from_dir, m), resolved_rel(from_dir, s)],
        None => seq![resolved_rel(from_dir, m)],
    }
}

/// A Python specifier with leading dots: one dot is the file's own package,
/// each further one is a package up.
pub open spec fn dotted_base(from_dir: Seq<char>, m: Seq<char>) -> Seq<char> {
    let rest = text::drop_front(m, "."@);
    let dir = up(from_dir, (m.len() - rest.len() - 1) as nat);
    let tail = text::swapped(rest, '.', '/');
    if tail.len() == 0 {
        dir
    } else {
        paths::below(dir, tail)
    }
}

/// The directory that the package of a Python file hangs off: the first one up
/// that is not a package itself.
pub open spec fn package_root(dir: Seq<char>, known: Seq<Seq<char>>) -> Seq<char>
    decreases dir.len(),
{
    if dir.len() > 0 && known.contains(dir + "/__init__.py"@) {
        proof {
            paths::lemma_parent_shorter(dir);
        }
        package_root(dir_of(dir), known)
    } else {
        dir
    }
}

/// A module's path, from a specifier with dots or colons.
pub open spec fn slashed(m: Seq<char>) -> Seq<char> {
    let s = text::swapped(text::replaced(m, "::"@, "/"@), '.', '/');
    text::without_leading(
        text::without_leading(text::without_leading(s, "crate/"@), "self/"@),
        "super/"@,
    )
}

/// `norm` below each of the roots.
pub open spec fn below_each(roots: Seq<Seq<char>>, norm: Seq<char>) -> Seq<Seq<char>> {
    roots.map_values(|r: Seq<char>| paths::below(r, norm))
}

/// The roots that a Python file's absolute imports are looked up in first.
pub open spec fn python_roots(
    maps: ResolutionMaps,
    known: Seq<Seq<char>>,
    from_path: Seq<char>,
) -> Seq<Seq<char>> {
    if text::finishes_with(from_path, ".py"@) {
        seq![package_root(dir_of(from_path), known)] + (if maps.pysys@.contains_key(from_path) {
            maps.pysys@[from_path]
        } else {
            seq![]
        })
    } else {
        seq![]
    }
}

/// Where an absolute specifier can lead from the project's root: to itself, to
/// the module that holds it as an item, and to both below `src/`.
pub open spec fn rooted_bases(norm: Seq<char>) -> Seq<Seq<char>> {
    match text::cut_at_last(norm, '/') {
        Some((parent, _)) => seq![norm, parent, "src/"@ + parent, "src/"@ + norm],
        None => seq![norm, "src/"@ + norm],
    }
}

/// Where a specifier can lead, in the order in which it is tried.
pub open spec fn common_bases(
    maps: ResolutionMaps,
    known: Seq<Seq<char>>,
    from_path: Seq<char>,
    m: Seq<char>,
) -> Seq<Seq<char>> {
    if is_relative(m) {
        relative_bases(dir_of(from_path), m)
    } else if text::begins_with(m, "."@) {
        seq![dotted_base(dir_of(from_path), m)]
    } else {
        below_each(python_roots(maps, known, from_path), slashed(m)) + rooted_bases(slashed(m))
    }
}

/// The indexed file that a specifier names by convention.
pub open spec fn common_target(
    maps: ResolutionMaps,
    known: Seq<Seq<char>>,
    from_path: Seq<char>,
    m: Seq<char>,
) -> Option<Seq<char>> {
    first_of(known, common_bases(maps, known, from_path, m), "./"@, common_suffixes())
}

fn strip_js_emit_extension<'a>(m: &'a [char]) -> (r: Option<&'a [char]>)
    ensures
        match r {
            Some(s) => without_js_extension(m@) == Some(s@),
            None => without_js_extension(m@) is None,
        },
{
    if let Some(s) = text::strip_suffix(m, ".mjs") {
        return Some(s);
    }
    if let Some(s) = text::strip_suffix(m, ".cjs") {
        return Some(s);
    }
    if let Some(s) = text::strip_suffix(m, ".jsx") {
        return Some(s);
    }
    text::strip_suffix(m, ".js")
}

fn python_package_root(from_path: &[char], known: &NameTable) -> (r: Vec<char>)
    requires
        known.wf(),
    ensures
        r@ == package_root(dir_of(from_path@), known@),
{
    let mut dir = parent_of(from_path);
    let ghost start = dir@;
    loop
        invariant
            known.wf(),
            package_root(dir@, known@) == package_root(start, known@),
        ensures
            dir@ == package_root(start, known@),
        decreases dir@.len(),
    {
        if dir.len() == 0 {
            break;
        }
        let mut marker: String = text::string_of(dir.as_slice());
        text::push_text(&mut marker, "/__init__.py");
        if !known.contains(marker.as_str()) {
            break;
        }
        dir = parent_of(dir.as_slice());
    }
    dir
}

fn slash(m: &[char]) -> (r: Vec<char>)
    ensures
        r@ == slashed(m@),
{
    proof {
        reveal_strlit("::");
        reveal_strlit("crate/");
        reveal_strlit("self/");
        reveal_strlit("super/");
    }
    let replaced = text::replace_text(m, "::", "/");
    let cs = text::chars_of(replaced.as_str());
    let s = text::replace_char(cs.as_slice(), '.', '/');
    let a = text::trim_start_matches(s.as_slice(), "crate/");
    let b = text::trim_start_matches(a, "self/");
    let c = text::trim_start_matches(b, "super/");
    let r = text::replace_char(c, '/', '/');
    assert(r@ =~= c@);
    r
}

fn list_relative(from_dir: &[char], m: &[char]) -> (r: Vec<String>)
    ensures
        text::texts(r@) == relative_bases(from_dir@, m@),
{
    let first = normalize_rel(from_dir, m);
    let ghost f = first@;
    let mut out: Vec<String> = Vec::new();
    out.push(first);
    match strip_js_emit_extension(m) {
        Some(s) => {
            let second = normalize_rel(from_dir, s);
            out.push(second);
            assert(text::texts(out@) =~= seq![f, second@]);
        },
        None => {
            assert(text::texts(out@) =~= seq![f]);
        },
    }
    out
}

proof fn lemma_drop_front_len(s: Seq<char>, set: Seq<char>)
    ensures
        text::drop_front(s, set).len() <= s.len(),
        s.len() > 0 && set.contains(s[0]) ==> text::drop_front(s, set).len() < s.len(),
    decreases s.len(),
{
    if s.len() > 0 && set.contains(s[0]) {
        lemma_drop_front_len(s.drop_first(), set);
    }
}

fn build_dotted(from_dir: &[char], m: &[char]) -> (r: String)
    requires
        text::begins_with(m@, "."@),
    ensures
        r@ == dotted_base(from_dir@, m@),
{
    proof {
        reveal_strlit(".");
        assert(m@.take(1)[0] == m@[0]);
        assert("."@[0] == '.');
        assert("."@.contains('.'));
        lemma_drop_front_len(m@, "."@);
    }
    let rest = text::trim_front_set(m, ".");
    let ups = m.len() - rest.len();
    let dir = climb(from_dir, ups - 1);
    let tail = text::replace_char(rest, '.', '/');
    if tail.len() == 0 {
        text::string_of(dir.as_slice())
    } else {
        paths::join_rel(dir.as_slice(), tail.as_slice())
    }
}

fn push_rooted(out: &mut Vec<String>, norm: &[char])
    ensures
        text::texts(final(out)@) == text::texts(old(out)@) + rooted_bases(norm@),
{
    let n = text::string_of(norm);
    let src = text::chars_of("src/");
    let below_src = text::concat(src.as_slice(), norm);
    let ghost b = below_src@;
    let ghost start = text::texts(out@);
    out.push(n);
    match text::rsplit_once(norm, '/') {
        Some((parent, _)) => {
            let p = text::string_of(parent);
            let q = text::concat(src.as_slice(), parent);
            let ghost pv = p@;
            let ghost qv = q@;
            out.push(p);
            out.push(q);
            out.push(below_src);
            assert(text::texts(out@) =~= start + seq![norm@, pv, qv, b]);
        },
        None => {
            out.push(below_src);
            assert(text::texts(out@) =~= start + seq![norm@, b]);
        },
    }
}

fn list_absolute(from_path: &str, m: &[char], known: &NameTable, maps: &ResolutionMaps) -> (r: Vec<
    String,
>)
    requires
        known.wf(),
        maps.wf(),
    ensures
        text::texts(r@) == below_each(python_roots(*maps, known@, from_path@), slashed(m@))
            + rooted_bases(slashed(m@)),
{
    let norm = slash(m);
    let path = text::chars_of(from_path);
    let mut out: Vec<String> = Vec::new();
    let ghost roots = python_roots(*maps, known@, from_path@);
    let ghost want = below_each(roots, norm@);
    if text::ends_with(path.as_slice(), ".py") {
        let root = python_package_root(path.as_slice(), known);
        let first = paths::join_rel(root.as_slice(), norm.as_slice());
        let ghost f = first@;
        out.push(first);
        let extra = maps.pysys.roots_for(from_path);
        let mut i: usize = 0;
        assert(text::texts(out@) =~= want.take(1));
        assert(roots =~= seq![root@] + text::texts(extra@));
        while i < extra.len()
            invariant
                i <= extra@.len(),
                want == below_each(roots, norm@),
                roots == seq![root@] + text::texts(extra@),
                text::texts(out@) =~= want.take(i + 1),
            decreases extra@.len() - i,
        {
            let d = text::chars_of(extra[i].as_str());
            let b = paths::join_rel(d.as_slice(), norm.as_slice());
            let ghost before = out@;
            out.push(b);
            proof {
                assert(text::texts(out@) =~= text::texts(before).push(b@));
                assert(roots[i + 1] == text::texts(extra@)[i as int]);
                assert(want[i + 1] == b@);
            }
            i += 1;
        }
        assert(text::texts(out@) =~= want);
    } else {
        assert(text::texts(out@) =~= want);
    }
    push_rooted(&mut out, norm.as_slice());
    out
}

fn resolve_by_convention(
    from_path: &str,
    m: &[char],
    known: &NameTable,
    maps: &ResolutionMaps,
) -> (r: Option<String>)
    requires
        known.wf(),
        maps.wf(),
    ensures
        edges::opt_text(r) == common_target(*maps, known@, from_path@, m@),
{
    let path = text::chars_of(from_path);
    let from_dir = parent_of(path.as_slice());
    let bases: Vec<String> = if text::starts_with(m, "./") || text::starts_with(m, "../") {
        list_relative(from_dir.as_slice(), m)
    } else if text::starts_with(m, ".") {
        let b = build_dotted(from_dir.as_slice(), m);
        let ghost bv = b@;
        let mut one: Vec<String> = Vec::new();
        one.push(b);
        assert(text::texts(one@) =~= seq![bv]);
        one
    } else {
        list_absolute(from_path, m, known, maps)
    };
    let suffixes: Vec<&'static str> = vec![
        "",
        ".py",
        ".rs",
        ".go",
        ".ts",
        ".tsx",
        ".js",
        ".jsx",
        ".java",
        "/__init__.py",
        "/mod.rs",
        "/index.ts",
        "/index.tsx",
        "/index.js",
    ];
    assert(lits(suffixes@) =~= common_suffixes());
    proof {
        reveal_strlit("./");
    }
    find_first(known, &bases, "./", &suffixes)
}

// ---------------------------------------------------------------------------
// Every language
// ---------------------------------------------------------------------------

/// A specifier without surrounding space and quotes.
pub open spec fn unquoted(module: Seq<char>) -> Seq<char> {
    text::drop_back(text::drop_front(text::trimmed(module), "\"'"@), "\"'"@)
}

/// `hit`, where it is an indexed file.
pub open spec fn if_known(known: Seq<Seq<char>>, hit: Option<Seq<char>>) -> Option<Seq<char>> {
    match hit {
        Some(h) => if known.contains(h) {
            Some(h)
        } else {
            None
        },
        None => None,
    }
}

/// What the tables of the importing file's language say: a Rust path, a PHP
/// class, a C# namespace.
pub open spec fn table_target(
    maps: ResolutionMaps,
    known: Seq<Seq<char>>,
    from_path: Seq<char>,
    m: Seq<char>,
) -> Option<Seq<char>> {
    if text::finishes_with(from_path, ".rs"@) {
        rust_target(maps.crate_map, known, from_path, m)
    } else if text::finishes_with(from_path, ".php"@) {
        if m.contains('\\') {
            if_known(known, maps.psr4.targets.at(m))
        } else {
            None
        }
    } else if text::finishes_with(from_path, ".cs"@) {
        if_known(known, maps.namespace_map.sole_file(m))
    } else {
        None
    }
}

/// The indexed file that the import `module` of the file `from_path` names. For
/// the JVM languages and for Go the declared packages alone decide; elsewhere
/// the conventions are tried where the tables know nothing.
pub open spec fn import_target(
    maps: ResolutionMaps,
    known: Seq<Seq<char>>,
    from_path: Seq<char>,
    module: Seq<char>,
) -> Option<Seq<char>> {
    let m = unquoted(module);
    let told = table_target(maps, known, from_path, m);
    if m.len() == 0 {
        None
    } else if told is Some {
        told
    } else if jvm_package::is_jvm_file(from_path) {
        if_known(known, jvm_package::file_of_import(maps.jvm@, m))
    } else if text::finishes_with(from_path, ".go"@) {
        go_target(maps.go@, known, m)
    } else {
        common_target(maps, known, from_path, m)
    }
}

fn check_known(known: &NameTable, hit: Option<String>) -> (r: Option<String>)
    requires
        known.wf(),
    ensures
        edges::opt_text(r) == if_known(known@, edges::opt_text(hit)),
{
    match hit {
        Some(h) => if known.contains(h.as_str()) {
            Some(h)
        } else {
            None
        },
        None => None,
    }
}

fn resolve_by_table(
    from_path: &str,
    m: &[char],
    known: &NameTable,
    maps: &ResolutionMaps,
) -> (r: Option<String>)
    requires
        known.wf(),
        maps.wf(),
    ensures
        edges::opt_text(r) == table_target(*maps, known@, from_path@, m@),
{
    let path = text::chars_of(from_path);
    let name = text::string_of(m);
    if text::ends_with(path.as_slice(), ".rs") {
        return resolve_rust_module(from_path, name.as_str(), &maps.crate_map, known);
    }
    if text::ends_with(path.as_slice(), ".php") {
        if text::has_char(m, '\\') {
            return check_known(known, maps.psr4.resolve(name.as_str()));
        }
        return None;
    }
    if text::ends_with(path.as_slice(), ".cs") {
        return check_known(known, maps.namespace_map.resolve(name.as_str()));
    }
    None
}

/// The indexed file that an import names; none where it names none.
pub fn resolve_module_to_path(
    from_path: &str,
    module: &str,
    known: &NameTable,
    maps: &ResolutionMaps,
) -> (r: Option<String>)
    requires
        known.wf(),
        maps.wf(),
    ensures
        edges::opt_text(r) == import_target(*maps, known@, from_path@, module@),
{
    let cs = text::chars_of(module);
    let m = text::trim_back_set(text::trim_front_set(text::trim(cs.as_slice()), "\"'"), "\"'");
    if m.len() == 0 {
        return None;
    }
    let told = resolve_by_table(from_path, m, known, maps);
    if told.is_some() {
        return told;
    }
    let name = text::string_of(m);
    if jvm_package::has_jvm_extension(from_path) {
        return check_known(known, maps.jvm.resolve_type(name.as_str()));
    }
    let path = text::chars_of(from_path);
    if text::ends_with(path.as_slice(), ".go") {
        if maps.go.is_stdlib(name.as_str()) {
            return None;
        }
        return match maps.go.package_dir(name.as_str()) {
            Some(dir) => find_go_package(known, dir.as_str()),
            None => None,
        };
    }
    resolve_by_convention(from_path, m, known, maps)
}

/// One stored import.
pub struct ImportRow {
    pub id: i64,
    pub from_path: String,
    pub module_name: String,
}

/// A stored import and the indexed file it names.
pub struct ImportTarget {
    pub id: i64,
    pub to_path: String,
}

/// The imports among the first `n` rows that name an indexed file.
pub open spec fn targets_of(
    maps: ResolutionMaps,
    known: Seq<Seq<char>>,
    rows: Seq<ImportRow>,
    n: nat,
) -> Seq<(i64, Seq<char>)>
    decreases n,
{
    if n == 0 || n > rows.len() {
        seq![]
    } else {
        let init = targets_of(maps, known, rows, (n - 1) as nat);
        let row = rows[n - 1];
        match import_target(maps, known, row.from_path@, row.module_name@) {
            Some(t) => init.push((row.id, t)),
            None => init,
        }
    }
}

/// The targets of all stored imports; one that names no indexed file has none.
pub fn resolve_import_targets(
    rows: &Vec<ImportRow>,
    known: &NameTable,
    maps: &ResolutionMaps,
) -> (r: Vec<ImportTarget>)
    requires
        known.wf(),
        maps.wf(),
    ensures
        r@.map_values(|t: ImportTarget| (t.id, t.to_path@)) == targets_of(
            *maps,
            known@,
            rows@,
            rows@.len(),
        ),
{
    let mut out: Vec<ImportTarget> = Vec::new();
    let mut i: usize = 0;
    assert(out@.map_values(|t: ImportTarget| (t.id, t.to_path@)) =~= seq![]);
    while i < rows.len()
        invariant
            i <= rows@.len(),
            known.wf(),
            maps.wf(),
            out@.map_values(|t: ImportTarget| (t.id, t.to_path@)) == targets_of(
                *maps,
                known@,
                rows@,
                i as nat,
            ),
        decreases rows@.len() - i,
    {
        let row = &rows[i];
        let hit = resolve_module_to_path(
            row.from_path.as_str(),
            row.module_name.as_str(),
            known,
            maps,
        );
        let ghost before = out@;
        if let Some(to_path) = hit {
            let t = ImportTarget { id: row.id, to_path };
            out.push(t);
            assert(out@.map_values(|t: ImportTarget| (t.id, t.to_path@)) =~= before.map_values(
                |t: ImportTarget| (t.id, t.to_path@),
            ).push((t.id, t.to_path@)));
        }
        i += 1;
    }
    out
}

// ---------------------------------------------------------------------------
// Laws
// ---------------------------------------------------------------------------

proof fn lemma_first_known(known: Seq<Seq<char>>, base: Seq<char>, suffixes: Seq<Seq<char>>)
    ensures
        first_known(known, base, suffixes) is Some ==> known.contains(
            first_known(known, base, suffixes)->Some_0,
        ),
    decreases suffixes.len(),
{
    if suffixes.len() > 0 {
        lemma_first_known(known, base, suffixes.drop_first());
    }
}

proof fn lemma_first_of(
    known: Seq<Seq<char>>,
    bases: Seq<Seq<char>>,
    lead: Seq<char>,
    suffixes: Seq<Seq<char>>,
)
    ensures
        first_of(known, bases, lead, suffixes) is Some ==> known.contains(
            first_of(known, bases, lead, suffixes)->Some_0,
        ),
    decreases bases.len(),
{
    if bases.len() > 0 {
        lemma_first_known(known, text::without_leading(bases[0], lead), suffixes);
        lemma_first_of(known, bases.drop_first(), lead, suffixes);
    }
}

proof fn lemma_rust_file(
    known: Seq<Seq<char>>,
    base_dir: Seq<char>,
    rest: Seq<Seq<char>>,
    root_item: bool,
)
    ensures
        rust_file(known, base_dir, rest, root_item) is Some ==> known.contains(
            rust_file(known, base_dir, rest, root_item)->Some_0,
        ),
{
    lemma_first_of(known, rust_bases(base_dir, rest, root_item), "/"@, rust_suffixes());
}

proof fn lemma_rust_target(
    crates: CrateMap,
    known: Seq<Seq<char>>,
    from_path: Seq<char>,
    module: Seq<char>,
)
    ensures
        rust_target(crates, known, from_path, module) is Some ==> known.contains(
            rust_target(crates, known, from_path, module)->Some_0,
        ),
{
    assert forall|d: Seq<char>, r: Seq<Seq<char>>, b: bool|
        rust_file(known, d, r, b) is Some implies known.contains(
        (#[trigger] rust_file(known, d, r, b))->Some_0,
    ) by {
        lemma_rust_file(known, d, r, b);
    }
}

/// What `least` gives is one of the texts, and none of them comes before it.
pub proof fn lemma_least(s: Seq<Seq<char>>)
    ensures
        least(s) is None <==> s.len() == 0,
        least(s) is Some ==> s.contains(least(s)->Some_0),
        forall|i: int|
            0 <= i < s.len() ==> !text::before(#[trigger] s[i], least(s)->Some_0),
    decreases s.len(),
{
    if s.len() > 0 {
        let init = s.drop_last();
        lemma_least(init);
        let m = least(s)->Some_0;
        if least(init) is Some {
            let x = least(init)->Some_0;
            let k = choose|k: int| 0 <= k < init.len() && init[k] == x;
            assert(s[k] == x);
        }
        assert(s[s.len() - 1] == s.last());
        assert forall|i: int| 0 <= i < s.len() implies !text::before(#[trigger] s[i], m) by {
            text::lemma_before_irreflexive(m);
            if i < init.len() {
                assert(init[i] == s[i]);
                let x = least(init)->Some_0;
                if m == s.last() && text::before(s[i], m) && least(init) is Some && text::before(
                    s.last(),
                    x,
                ) {
                    text::lemma_before_transitive(s[i], m, x);
                }
            }
        }
    }
}

/// An import only ever names an indexed file.
pub proof fn lemma_target_is_indexed(
    maps: ResolutionMaps,
    known: Seq<Seq<char>>,
    from_path: Seq<char>,
    module: Seq<char>,
)
    ensures
        import_target(maps, known, from_path, module) is Some ==> known.contains(
            import_target(maps, known, from_path, module)->Some_0,
        ),
{
    let m = unquoted(module);
    lemma_rust_target(maps.crate_map, known, from_path, m);
    lemma_first_of(known, common_bases(maps, known, from_path, m), "./"@, common_suffixes());
    if go_module::directory(maps.go@, m) is Some {
        let dir = go_module::directory(maps.go@, m)->Some_0;
        let prefix = if dir.len() == 0 {
            seq![]
        } else {
            dir + "/"@
        };
        let own = known.filter(go_file_in(prefix));
        lemma_least(own);
        if least(own) is Some {
            known.lemma_filter_contains_rev(go_file_in(prefix), least(own)->Some_0);
        }
    }
}

/// A Go import of the standard library, or of another module, names no file of
/// the project.
pub proof fn lemma_foreign_go_import(
    maps: ResolutionMaps,
    known: Seq<Seq<char>>,
    from_path: Seq<char>,
    module: Seq<char>,
)
    requires
        text::finishes_with(from_path, ".go"@),
        !go_module::inside(maps.go@, unquoted(module)),
    ensures
        import_target(maps, known, from_path, module) is None,
{
    go_module::lemma_owned_has_directory(maps.go@, unquoted(module));
    lemma_suffix_excludes(from_path, ".go"@, ".rs"@);
    lemma_suffix_excludes(from_path, ".go"@, ".php"@);
    lemma_suffix_excludes(from_path, ".go"@, ".cs"@);
    lemma_go_is_not_jvm(from_path);
}

proof fn lemma_go_is_not_jvm(p: Seq<char>)
    requires
        text::finishes_with(p, ".go"@),
    ensures
        !jvm_package::is_jvm_file(p),
{
    reveal_strlit(".go");
    reveal_strlit("java");
    reveal_strlit("kt");
    reveal_strlit("kts");
    reveal_strlit("groovy");
    reveal_strlit("scala");
    let ext = seq!['g', 'o'];
    assert(".go"@ =~= seq!['.'] + ext);
    paths::lemma_extension(p, ext);
    assert(ext[0] == 'g' && ext.len() == 2);
    assert("kt"@[0] == 'k');
}

proof fn lemma_suffix_excludes(p: Seq<char>, a: Seq<char>, b: Seq<char>)
    requires
        text::finishes_with(p, a),
        a == ".go"@,
        b == ".rs"@ || b == ".php"@ || b == ".cs"@,
    ensures
        !text::finishes_with(p, b),
{
    reveal_strlit(".go");
    reveal_strlit(".rs");
    reveal_strlit(".php");
    reveal_strlit(".cs");
    if text::finishes_with(p, b) {
        let n = p.len() as int;
        assert(p.skip(n - a.len())[a.len() - 1] == p[n - 1]);
        assert(p.skip(n - b.len())[b.len() - 1] == p[n - 1]);
        assert(a[a.len() - 1] == 'o');
        assert(b[b.len() - 1] == 's' || b[b.len() - 1] == 'p');
    }
}

/// Do two lists hold the same texts?
pub open spec fn same_members(a: Seq<Seq<char>>, b: Seq<Seq<char>>) -> bool {
    forall|n: Seq<char>| #[trigger] a.contains(n) <==> b.contains(n)
}

proof fn lemma_first_known_same(
    a: Seq<Seq<char>>,
    b: Seq<Seq<char>>,
    base: Seq<char>,
    suffixes: Seq<Seq<char>>,
)
    requires
        same_members(a, b),
    ensures
        first_known(a, base, suffixes) == first_known(b, base, suffixes),
    decreases suffixes.len(),
{
    if suffixes.len() > 0 {
        assert(a.contains(base + suffixes[0]) <==> b.contains(base + suffixes[0]));
        lemma_first_known_same(a, b, base, suffixes.drop_first());
    }
}

proof fn lemma_first_of_same(
    a: Seq<Seq<char>>,
    b: Seq<Seq<char>>,
    bases: Seq<Seq<char>>,
    lead: Seq<char>,
    suffixes: Seq<Seq<char>>,
)
    requires
        same_members(a, b),
    ensures
        first_of(a, bases, lead, suffixes) == first_of(b, bases, lead, suffixes),
    decreases bases.len(),
{
    if bases.len() > 0 {
        lemma_first_known_same(a, b, text::without_leading(bases[0], lead), suffixes);
        lemma_first_of_same(a, b, bases.drop_first(), lead, suffixes);
    }
}

proof fn lemma_package_root_same(dir: Seq<char>, a: Seq<Seq<char>>, b: Seq<Seq<char>>)
    requires
        same_members(a, b),
    ensures
        package_root(dir, a) == package_root(dir, b),
    decreases dir.len(),
{
    assert(a.contains(dir + "/__init__.py"@) <==> b.contains(dir + "/__init__.py"@));
    if dir.len() > 0 && a.contains(dir + "/__init__.py"@) {
        paths::lemma_parent_shorter(dir);
        lemma_package_root_same(dir_of(dir), a, b);
    }
}

proof fn lemma_filter_same(
    a: Seq<Seq<char>>,
    b: Seq<Seq<char>>,
    q: spec_fn(Seq<char>) -> bool,
    n: Seq<char>,
)
    requires
        same_members(a, b),
        a.filter(q).contains(n),
    ensures
        b.filter(q).contains(n),
{
    a.lemma_filter_contains_rev(q, n);
    let k = choose|k: int| 0 <= k < a.filter(q).len() && a.filter(q)[k] == n;
    a.lemma_filter_pred(q, k);
    assert(b.contains(n));
    let j = choose|j: int| 0 <= j < b.len() && b[j] == n;
    b.lemma_filter_contains(q, j);
}

proof fn lemma_least_same(a: Seq<Seq<char>>, b: Seq<Seq<char>>, q: spec_fn(Seq<char>) -> bool)
    requires
        same_members(a, b),
    ensures
        least(a.filter(q)) == least(b.filter(q)),
{
    let x = a.filter(q);
    let y = b.filter(q);
    lemma_least(x);
    lemma_least(y);
    if x.len() > 0 {
        let m = least(x)->Some_0;
        lemma_filter_same(a, b, q, m);
        let i = choose|i: int| 0 <= i < y.len() && y[i] == m;
        let n = least(y)->Some_0;
        lemma_filter_same(b, a, q, n);
        let j = choose|j: int| 0 <= j < x.len() && x[j] == n;
        assert(!text::before(y[i], n));
        assert(!text::before(x[j], m));
        text::lemma_before_total(m, n);
    } else if y.len() > 0 {
        lemma_filter_same(b, a, q, y[0]);
    }
}

/// The target of an import depends on which files are indexed, not on the order
/// in which they are listed.
pub proof fn lemma_target_ignores_order(
    maps: ResolutionMaps,
    a: Seq<Seq<char>>,
    b: Seq<Seq<char>>,
    from_path: Seq<char>,
    module: Seq<char>,
)
    requires
        same_members(a, b),
    ensures
        import_target(maps, a, from_path, module) == import_target(maps, b, from_path, module),
{
    let m = unquoted(module);
    assert forall|d: Seq<char>, r: Seq<Seq<char>>, f: bool|
        #[trigger] rust_file(a, d, r, f) == rust_file(b, d, r, f) by {
        lemma_first_of_same(a, b, rust_bases(d, r, f), "/"@, rust_suffixes());
    }
    let hit = maps.psr4.targets.at(m);
    let ns = maps.namespace_map.sole_file(m);
    let jvm = jvm_package::file_of_import(maps.jvm@, m);
    if hit is Some {
        assert(a.contains(hit->Some_0) <==> b.contains(hit->Some_0));
    }
    if ns is Some {
        assert(a.contains(ns->Some_0) <==> b.contains(ns->Some_0));
    }
    if jvm is Some {
        assert(a.contains(jvm->Some_0) <==> b.contains(jvm->Some_0));
    }
    assert(table_target(maps, a, from_path, m) == table_target(maps, b, from_path, m));
    if go_module::directory(maps.go@, m) is Some {
        let dir = go_module::directory(maps.go@, m)->Some_0;
        let prefix = if dir.len() == 0 {
            seq![]
        } else {
            dir + "/"@
        };
        lemma_least_same(a, b, go_file_in(prefix));
    }
    lemma_package_root_same(dir_of(from_path), a, b);
    assert(common_bases(maps, a, from_path, m) == common_bases(maps, b, from_path, m));
    lemma_first_of_same(
        a,
        b,
        common_bases(maps, a, from_path, m),
        "./"@,
        common_suffixes(),
    );
}

} // verus!
