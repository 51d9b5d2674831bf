//! Imports of the languages that have tables of their own: Rust's crates and
//! modules, Go's packages, the packages of the JVM, PHP's classes and C#'s
//! namespaces.

use vstd::prelude::*;

use crate::graph_laws;
use crate::import_laws;
use crate::inheritance_laws;
use crate::jvm_package;
use crate::maps;
use crate::maps::{NamespaceMap, ResolutionMaps};
use crate::modules;
use crate::names;
use crate::path_laws;
use crate::paths;
use crate::text;

verus! {

// ---------------------------------------------------------------------------
// Rust
// ---------------------------------------------------------------------------

/// The segments with double colons between them.
pub open spec fn coloned(segs: Seq<Seq<char>>) -> Seq<char>
    decreases segs.len(),
{
    if segs.len() == 0 {
        seq![]
    } else if segs.len() == 1 {
        segs[0]
    } else {
        coloned(segs.drop_last()) + seq![':', ':'] + segs.last()
    }
}

#[verifier::rlimit(40)]
proof fn lemma_split_colons(p: Seq<char>, n: Seq<char>, from: int)
    requires
        0 <= from <= p.len(),
        p.len() > 0 ==> p.last() != ':',
        !n.contains(':'),
    ensures
        text::split_text_from(p + seq![':', ':'] + n, "::"@, from) == text::split_text_from(
            p,
            "::"@,
            from,
        ).push(n),
    decreases p.len() - from,
{
    reveal_strlit("::");
    let sep = "::"@;
    let q = p + seq![':', ':'] + n;
    let at = p.len() as int;
    assert forall|e: int| 0 <= e && e + 2 <= at implies (#[trigger] text::stands_at(q, sep, e)
        <==> text::stands_at(p, sep, e)) by {
        assert(q.subrange(e, e + 2) =~= p.subrange(e, e + 2));
    }
    assert forall|e: int| e > at implies !#[trigger] text::stands_at(q, sep, e) by {
        if text::stands_at(q, sep, e) {
            assert(q.subrange(e, e + 2)[1] == q[e + 1]);
            assert(q[e + 1] == n[e - at - 1]);
            assert(n.contains(':'));
        }
    }
    if at > 0 && text::stands_at(q, sep, at - 1) {
        assert(q.subrange(at - 1, at + 1)[0] == q[at - 1]);
    }
    assert(q.subrange(at, at + 2) =~= sep);
    assert(text::stands_at(q, sep, at));
    text::lemma_seek_from(q, sep, from);
    text::lemma_seek_from(p, sep, from);
    text::lemma_seek_from(q, sep, at + 2);
    assert(text::seek_from(q, sep, at + 2) is None);
    assert(q.subrange(at + 2, q.len() as int) =~= n);
    assert(text::split_text_from(q, sep, at + 2) =~= seq![n]);
    match text::seek_from(p, sep, from) {
        Some(e) => {
            assert(text::stands_at(q, sep, e));
            assert(text::seek_from(q, sep, from) == Some(e));
            assert(q.subrange(from, e) =~= p.subrange(from, e));
            lemma_split_colons(p, n, e + 2);
            assert(text::split_text_from(q, sep, from) =~= text::split_text_from(
                p,
                sep,
                from,
            ).push(n));
        },
        None => {
            assert(text::seek_from(q, sep, from) == Some(at)) by {
                let e = text::seek_from(q, sep, from)->Some_0;
                if e < at {
                    if e + 2 <= at {
                        assert(text::stands_at(p, sep, e));
                    }
                }
            }
            assert(q.subrange(from, at) =~= p.subrange(from, at));
            assert(text::split_text_from(q, sep, from) =~= text::split_text_from(
                p,
                sep,
                from,
            ).push(n));
        },
    }
}

proof fn lemma_no_colon(n: Seq<char>)
    requires
        import_laws::is_name(n),
    ensures
        !n.contains(':'),
        n.last() != ':',
{
    if n.contains(':') {
        let k = choose|k: int| 0 <= k < n.len() && n[k] == ':';
        assert(n[k] != ':');
    }
    assert(n[n.len() - 1] != ':');
}

proof fn lemma_coloned_split(segs: Seq<Seq<char>>)
    requires
        import_laws::are_names(segs),
        segs.len() > 0,
    ensures
        text::split_on_text(coloned(segs), "::"@) == segs,
        coloned(segs).len() > 0,
        coloned(segs)[0] == segs[0][0],
        coloned(segs).last() == segs.last().last(),
    decreases segs.len(),
{
    reveal_strlit("::");
    let sep = "::"@;
    let m = coloned(segs);
    assert(import_laws::is_name(segs[0]) && import_laws::is_name(segs[segs.len() - 1]));
    lemma_no_colon(segs[0]);
    lemma_no_colon(segs.last());
    if segs.len() == 1 {
        text::lemma_seek_from(m, sep, 0);
        if text::seek_from(m, sep, 0) is Some {
            let e = text::seek_from(m, sep, 0)->Some_0;
            assert(m.subrange(e, e + 2)[0] == m[e]);
            assert(m.contains(':'));
        }
        assert(m.subrange(0, m.len() as int) =~= m);
        assert(text::split_text_from(m, sep, 0) =~= segs);
    } else {
        let less = segs.drop_last();
        assert(import_laws::are_names(less)) by {
            assert(forall|i: int| 0 <= i < less.len() ==> less[i] == segs[i]);
        }
        lemma_coloned_split(less);
        assert(import_laws::is_name(less[less.len() - 1]));
        lemma_no_colon(less.last());
        lemma_split_colons(coloned(less), segs.last(), 0);
        assert(less.push(segs.last()) =~= segs);
    }
}

/// A path written with double colons is read back as its segments.
pub proof fn lemma_rust_segments(segs: Seq<Seq<char>>)
    requires
        import_laws::are_names(segs),
        segs.len() > 0,
    ensures
        modules::rust_segments(coloned(segs)) == segs,
        import_laws::is_bare(coloned(segs)),
{
    lemma_coloned_split(segs);
    assert forall|i: int| 0 <= i < segs.len() implies modules::non_empty()(#[trigger] segs[i]) by {
        assert(import_laws::is_name(segs[i]));
    }
    import_laws::lemma_filter_all(segs, modules::non_empty());
    assert(import_laws::is_name(segs[0]) && import_laws::is_name(segs[segs.len() - 1]));
    let l = segs.last();
    assert(!text::is_space(segs[0][0]) && !text::is_space(l[l.len() - 1]));
}

/// What a Rust module's file can be called, in the order in which it is tried.
pub open spec fn rust_endings() -> Seq<Seq<char>> {
    seq![".rs"@, "/mod.rs"@, "/lib.rs"@, ""@]
}

/// Where the segments below a directory can lead: to themselves, or to the
/// module that holds the last as an item; a single one can be an item of the
/// root itself where `at_root`.
pub open spec fn rust_places(
    root: Seq<Seq<char>>,
    rest: Seq<Seq<char>>,
    at_root: bool,
) -> Seq<Seq<char>> {
    if rest.len() == 0 {
        seq![path_laws::slashes(root)]
    } else if rest.len() > 1 || at_root {
        seq![path_laws::slashes(root + rest), path_laws::slashes(root + rest.drop_last())]
    } else {
        seq![path_laws::slashes(root + rest)]
    }
}

proof fn lemma_rust_file(
    known: Seq<Seq<char>>,
    root: Seq<Seq<char>>,
    rest: Seq<Seq<char>>,
    at_root: bool,
)
    requires
        path_laws::all_clean(root),
        import_laws::are_names(rest),
    ensures
        forall|i: int, j: int| #[trigger]
            import_laws::hits_first(known, rust_places(root, rest, at_root), rust_endings(), i, j)
                ==> modules::rust_file(known, path_laws::slashes(root), rest, at_root) == Some(
                rust_places(root, rest, at_root)[i] + rust_endings()[j],
            ),
        import_laws::misses(known, rust_places(root, rest, at_root), rust_endings())
            ==> modules::rust_file(known, path_laws::slashes(root), rest, at_root) is None,
{
    let places = rust_places(root, rest, at_root);
    let dir = path_laws::slashes(root);
    let less = if rest.len() > 0 {
        rest.drop_last()
    } else {
        rest
    };
    import_laws::lemma_names_clean(rest);
    import_laws::lemma_joined_slashes(rest);
    path_laws::lemma_slashes_len(rest);
    if rest.len() > 0 {
        import_laws::lemma_cut(rest);
        path_laws::lemma_below_all(root, rest);
        if rest.len() > 1 {
            path_laws::lemma_below_all(root, less);
        } else {
            assert(root + less =~= root);
        }
    }
    assert(modules::rust_bases(dir, rest, at_root) =~= places);
    assert(path_laws::all_clean(less)) by {
        assert(forall|i: int| 0 <= i < less.len() ==> less[i] == rest[i]);
    }
    assert(path_laws::all_clean(root + rest));
    assert(path_laws::all_clean(root + less));
    import_laws::lemma_no_lead(root);
    import_laws::lemma_no_lead(root + rest);
    import_laws::lemma_no_lead(root + less);
    assert(import_laws::none_begins(places, "/"@));
    import_laws::lemma_first_of(known, places, "/"@, rust_endings());
    assert(modules::rust_suffixes() =~= rust_endings());
}

proof fn lemma_rust_import(
    maps: ResolutionMaps,
    known: Seq<Seq<char>>,
    dir: Seq<Seq<char>>,
    stem: Seq<char>,
    segs: Seq<Seq<char>>,
)
    requires
        import_laws::is_file(dir, stem, "rs"@),
        import_laws::are_names(segs),
        segs.len() > 0,
        modules::rust_target(
            maps.crate_map,
            known,
            import_laws::file_at(dir, stem, "rs"@),
            coloned(segs),
        ) is Some,
    ensures
        modules::import_target(
            maps,
            known,
            import_laws::file_at(dir, stem, "rs"@),
            coloned(segs),
        ) == modules::rust_target(
            maps.crate_map,
            known,
            import_laws::file_at(dir, stem, "rs"@),
            coloned(segs),
        ),
{
    lemma_rust_segments(segs);
    import_laws::lemma_bare(coloned(segs));
    import_laws::lemma_language_of(dir, stem, "rs"@);
}

proof fn lemma_path_words()
    ensures
        "crate"@ != "self"@ && "crate"@ != "super"@ && "self"@ != "super"@,
        import_laws::is_name("crate"@) && import_laws::is_name("self"@) && import_laws::is_name(
            "super"@,
        ),
{
    reveal_strlit("crate");
    reveal_strlit("self");
    reveal_strlit("super");
    assert("self"@.len() == 4 && "crate"@.len() == 5 && "super"@.len() == 5);
    assert("crate"@[0] == 'c' && "super"@[0] == 's');
}

proof fn lemma_led(w: Seq<char>, rest: Seq<Seq<char>>)
    requires
        import_laws::is_name(w),
        import_laws::are_names(rest),
    ensures
        import_laws::are_names(seq![w] + rest),
        (seq![w] + rest).skip(1) == rest,
        (seq![w] + rest)[0] == w,
{
    assert((seq![w] + rest).skip(1) =~= rest);
}

/// `crate::` starts at the source root of the crate that the file belongs to.
pub proof fn lemma_rust_crate(
    maps: ResolutionMaps,
    known: Seq<Seq<char>>,
    dir: Seq<Seq<char>>,
    stem: Seq<char>,
    root: Seq<Seq<char>>,
    rest: Seq<Seq<char>>,
    i: int,
    j: int,
)
    requires
        import_laws::is_file(dir, stem, "rs"@),
        path_laws::all_clean(root),
        import_laws::are_names(rest),
        maps.crate_map.homes.at(import_laws::file_at(dir, stem, "rs"@)) == Some(
            path_laws::slashes(root),
        ),
        import_laws::hits_first(known, rust_places(root, rest, true), rust_endings(), i, j),
    ensures
        modules::import_target(
            maps,
            known,
            import_laws::file_at(dir, stem, "rs"@),
            coloned(seq!["crate"@] + rest),
        ) == Some(rust_places(root, rest, true)[i] + rust_endings()[j]),
{
    let segs = seq!["crate"@] + rest;
    lemma_path_words();
    lemma_led("crate"@, rest);
    lemma_rust_segments(segs);
    lemma_rust_file(known, root, rest, true);
    lemma_rust_import(maps, known, dir, stem, segs);
}

/// `self::` starts in the file's own directory.
pub proof fn lemma_rust_self(
    maps: ResolutionMaps,
    known: Seq<Seq<char>>,
    dir: Seq<Seq<char>>,
    stem: Seq<char>,
    rest: Seq<Seq<char>>,
    i: int,
    j: int,
)
    requires
        import_laws::is_file(dir, stem, "rs"@),
        import_laws::are_names(rest),
        import_laws::hits_first(known, rust_places(dir, rest, false), rust_endings(), i, j),
    ensures
        modules::import_target(
            maps,
            known,
            import_laws::file_at(dir, stem, "rs"@),
            coloned(seq!["self"@] + rest),
        ) == Some(rust_places(dir, rest, false)[i] + rust_endings()[j]),
{
    let segs = seq!["self"@] + rest;
    lemma_path_words();
    lemma_led("self"@, rest);
    lemma_rust_segments(segs);
    import_laws::lemma_file_at(dir, stem, "rs"@);
    lemma_rust_file(known, dir, rest, false);
    lemma_rust_import(maps, known, dir, stem, segs);
}

/// The files that stand for their directory themselves.
pub open spec fn stands_for_directory(stem: Seq<char>) -> bool {
    stem == "mod"@ || stem == "lib"@ || stem == "main"@
}

proof fn lemma_own_dir(dir: Seq<Seq<char>>, stem: Seq<char>)
    requires
        import_laws::is_file(dir, stem, "rs"@),
    ensures
        stands_for_directory(stem) ==> modules::own_dir(import_laws::file_at(dir, stem, "rs"@))
            is None,
        !stands_for_directory(stem) ==> modules::own_dir(import_laws::file_at(dir, stem, "rs"@))
            == Some(path_laws::slashes(dir.push(stem))),
{
    import_laws::lemma_file_at(dir, stem, "rs"@);
    path_laws::lemma_below(dir, stem);
}

proof fn lemma_supers(k: nat, rest: Seq<Seq<char>>)
    requires
        rest.len() == 0 || rest[0] != "super"@,
    ensures
        modules::supers(supers(k) + rest) == k,
        (supers(k) + rest).skip(k as int) == rest,
    decreases k,
{
    let segs = supers(k) + rest;
    assert(segs.skip(k as int) =~= rest);
    if k == 0 {
        assert(segs =~= rest);
    } else {
        lemma_supers((k - 1) as nat, rest);
        assert(segs.drop_first() =~= supers((k - 1) as nat) + rest);
        assert(segs[0] == "super"@);
    }
}

/// `k` times `super`.
pub open spec fn supers(k: nat) -> Seq<Seq<char>> {
    Seq::new(k, |i: int| "super"@)
}

/// A single `super::` is looked for in the file's own directory first.
pub proof fn lemma_rust_super(
    maps: ResolutionMaps,
    known: Seq<Seq<char>>,
    dir: Seq<Seq<char>>,
    stem: Seq<char>,
    rest: Seq<Seq<char>>,
    i: int,
    j: int,
)
    requires
        import_laws::is_file(dir, stem, "rs"@),
        import_laws::are_names(rest),
        rest.len() == 0 || rest[0] != "super"@,
        import_laws::hits_first(known, rust_places(dir, rest, false), rust_endings(), i, j),
    ensures
        modules::import_target(
            maps,
            known,
            import_laws::file_at(dir, stem, "rs"@),
            coloned(supers(1) + rest),
        ) == Some(rust_places(dir, rest, false)[i] + rust_endings()[j]),
{
    let segs = supers(1) + rest;
    lemma_path_words();
    assert(import_laws::are_names(segs));
    lemma_supers(1, rest);
    lemma_rust_segments(segs);
    assert(segs[0] == "super"@);
    import_laws::lemma_file_at(dir, stem, "rs"@);
    lemma_rust_file(known, dir, rest, false);
    lemma_rust_import(maps, known, dir, stem, segs);
}

/// Next in the directory of the file's own submodules, and then one level up.
pub proof fn lemma_rust_super_further(
    maps: ResolutionMaps,
    known: Seq<Seq<char>>,
    dir: Seq<Seq<char>>,
    stem: Seq<char>,
    rest: Seq<Seq<char>>,
    i: int,
    j: int,
)
    requires
        import_laws::is_file(dir, stem, "rs"@),
        path_laws::is_clean(stem),
        dir.len() > 0,
        import_laws::are_names(rest),
        rest.len() == 0 || rest[0] != "super"@,
        import_laws::misses(known, rust_places(dir, rest, false), rust_endings()),
    ensures
        !stands_for_directory(stem) && import_laws::hits_first(
            known,
            rust_places(dir.push(stem), rest, false),
            rust_endings(),
            i,
            j,
        ) ==> modules::import_target(
            maps,
            known,
            import_laws::file_at(dir, stem, "rs"@),
            coloned(supers(1) + rest),
        ) == Some(rust_places(dir.push(stem), rest, false)[i] + rust_endings()[j]),
        (stands_for_directory(stem) || import_laws::misses(
            known,
            rust_places(dir.push(stem), rest, false),
            rust_endings(),
        )) && import_laws::hits_first(
            known,
            rust_places(dir.drop_last(), rest, false),
            rust_endings(),
            i,
            j,
        ) ==> modules::import_target(
            maps,
            known,
            import_laws::file_at(dir, stem, "rs"@),
            coloned(supers(1) + rest),
        ) == Some(rust_places(dir.drop_last(), rest, false)[i] + rust_endings()[j]),
{
    let segs = supers(1) + rest;
    let from = import_laws::file_at(dir, stem, "rs"@);
    lemma_path_words();
    assert(import_laws::are_names(segs));
    lemma_supers(1, rest);
    lemma_rust_segments(segs);
    assert(segs[0] == "super"@);
    import_laws::lemma_file_at(dir, stem, "rs"@);
    lemma_own_dir(dir, stem);
    let own = dir.push(stem);
    let up = dir.drop_last();
    assert(path_laws::all_clean(own));
    assert(path_laws::all_clean(up)) by {
        assert(forall|x: int| 0 <= x < up.len() ==> up[x] == dir[x]);
    }
    path_laws::lemma_up(dir, 1);
    assert(dir.take(dir.len() - 1) =~= up);
    lemma_rust_file(known, dir, rest, false);
    lemma_rust_file(known, own, rest, false);
    lemma_rust_file(known, up, rest, false);
    if modules::rust_target(maps.crate_map, known, from, coloned(segs)) is Some {
        lemma_rust_import(maps, known, dir, stem, segs);
    }
}

/// `k` times `super::`, more than once, climbs `k` directories from the file's
/// own.
pub proof fn lemma_rust_supers(
    maps: ResolutionMaps,
    known: Seq<Seq<char>>,
    dir: Seq<Seq<char>>,
    stem: Seq<char>,
    k: nat,
    rest: Seq<Seq<char>>,
    i: int,
    j: int,
)
    requires
        import_laws::is_file(dir, stem, "rs"@),
        2 <= k <= dir.len(),
        import_laws::are_names(rest),
        rest.len() == 0 || rest[0] != "super"@,
        import_laws::hits_first(
            known,
            rust_places(dir.take(dir.len() - k), rest, false),
            rust_endings(),
            i,
            j,
        ),
    ensures
        modules::import_target(
            maps,
            known,
            import_laws::file_at(dir, stem, "rs"@),
            coloned(supers(k) + rest),
        ) == Some(rust_places(dir.take(dir.len() - k), rest, false)[i] + rust_endings()[j]),
{
    let segs = supers(k) + rest;
    lemma_path_words();
    assert(import_laws::are_names(segs));
    lemma_supers(k, rest);
    lemma_rust_segments(segs);
    assert(segs[0] == "super"@);
    import_laws::lemma_file_at(dir, stem, "rs"@);
    let up = dir.take(dir.len() - k);
    assert(path_laws::all_clean(up)) by {
        assert(forall|x: int| 0 <= x < up.len() ==> up[x] == dir[x]);
    }
    path_laws::lemma_up(dir, k);
    lemma_rust_file(known, up, rest, false);
    lemma_rust_import(maps, known, dir, stem, segs);
}

/// A path that begins with the name of a crate of the workspace starts at that
/// crate's source root.
pub proof fn lemma_rust_other_crate(
    maps: ResolutionMaps,
    known: Seq<Seq<char>>,
    dir: Seq<Seq<char>>,
    stem: Seq<char>,
    name: Seq<char>,
    root: Seq<Seq<char>>,
    rest: Seq<Seq<char>>,
    i: int,
    j: int,
)
    requires
        import_laws::is_file(dir, stem, "rs"@),
        path_laws::all_clean(root),
        import_laws::is_name(name),
        name != "crate"@ && name != "self"@ && name != "super"@,
        import_laws::are_names(rest),
        maps.crate_map.roots.at(
            Seq::new(
                name.len(),
                |x: int|
                    if name[x] == '-' {
                        '_'
                    } else {
                        name[x]
                    },
            ),
        ) == Some(path_laws::slashes(root)),
        import_laws::hits_first(known, rust_places(root, rest, true), rust_endings(), i, j),
    ensures
        modules::import_target(
            maps,
            known,
            import_laws::file_at(dir, stem, "rs"@),
            coloned(seq![name] + rest),
        ) == Some(rust_places(root, rest, true)[i] + rust_endings()[j]),
{
    let segs = seq![name] + rest;
    lemma_led(name, rest);
    lemma_rust_segments(segs);
    assert(text::swapped(name, '-', '_') =~= Seq::new(
        name.len(),
        |x: int|
            if name[x] == '-' {
                '_'
            } else {
                name[x]
            },
    ));
    lemma_rust_file(known, root, rest, true);
    lemma_rust_import(maps, known, dir, stem, segs);
}

/// Any other path starts with a module in scope in the file, or else at the root
/// of the file's own crate.
pub proof fn lemma_rust_local(
    maps: ResolutionMaps,
    known: Seq<Seq<char>>,
    dir: Seq<Seq<char>>,
    stem: Seq<char>,
    root: Seq<Seq<char>>,
    segs: Seq<Seq<char>>,
    i: int,
    j: int,
)
    requires
        import_laws::is_file(dir, stem, "rs"@),
        path_laws::is_clean(stem),
        path_laws::all_clean(root),
        import_laws::are_names(segs),
        segs.len() > 0,
        segs[0] != "crate"@ && segs[0] != "self"@ && segs[0] != "super"@,
        maps.crate_map.roots.at(text::swapped(segs[0], '-', '_')) is None,
        maps.crate_map.homes.at(import_laws::file_at(dir, stem, "rs"@)) == Some(
            path_laws::slashes(root),
        ),
    ensures
        import_laws::hits_first(known, rust_places(scope_of(dir, stem), segs, false), rust_endings(), i, j)
            ==> modules::import_target(
            maps,
            known,
            import_laws::file_at(dir, stem, "rs"@),
            coloned(segs),
        ) == Some(rust_places(scope_of(dir, stem), segs, false)[i] + rust_endings()[j]),
        import_laws::misses(known, rust_places(scope_of(dir, stem), segs, false), rust_endings())
            && import_laws::hits_first(known, rust_places(root, segs, false), rust_endings(), i, j)
            ==> modules::import_target(
            maps,
            known,
            import_laws::file_at(dir, stem, "rs"@),
            coloned(segs),
        ) == Some(rust_places(root, segs, false)[i] + rust_endings()[j]),
{
    let from = import_laws::file_at(dir, stem, "rs"@);
    lemma_rust_segments(segs);
    import_laws::lemma_file_at(dir, stem, "rs"@);
    lemma_own_dir(dir, stem);
    let scope = scope_of(dir, stem);
    assert(path_laws::all_clean(scope));
    lemma_rust_file(known, scope, segs, false);
    lemma_rust_file(known, root, segs, false);
    if modules::rust_target(maps.crate_map, known, from, coloned(segs)) is Some {
        lemma_rust_import(maps, known, dir, stem, segs);
    }
}

/// The directory of a file's own submodules.
pub open spec fn scope_of(dir: Seq<Seq<char>>, stem: Seq<char>) -> Seq<Seq<char>> {
    if stands_for_directory(stem) {
        dir
    } else {
        dir.push(stem)
    }
}

// ---------------------------------------------------------------------------
// Go
// ---------------------------------------------------------------------------

/// The path is that of a Go file directly in the directory.
pub open spec fn is_go_in(x: Seq<char>, dir: Seq<char>) -> bool {
    &&& x.len() >= 3 && x[x.len() - 3] == '.' && x[x.len() - 2] == 'g' && x[x.len() - 1] == 'o'
    &&& exists|b: Seq<char>|
        !#[trigger] b.contains('/') && x == (if dir.len() == 0 {
            b
        } else {
            dir + seq!['/'] + b
        })
}

#[verifier::rlimit(40)]
proof fn lemma_go_filter(dir: Seq<char>, x: Seq<char>)
    ensures
        modules::go_file_in(
            if dir.len() == 0 {
                seq![]
            } else {
                dir + "/"@
            },
        )(x) <==> is_go_in(x, dir),
{
    reveal_strlit(".go");
    reveal_strlit("/");
    assert("/"@ =~= seq!['/']);
    let prefix = if dir.len() == 0 {
        Seq::<char>::empty()
    } else {
        dir + "/"@
    };
    let s = ".go"@;
    if x.len() >= 3 {
        let t = x.skip(x.len() - 3);
        assert(t[0] == x[x.len() - 3] && t[1] == x[x.len() - 2] && t[2] == x[x.len() - 1]);
        if x[x.len() - 3] == '.' && x[x.len() - 2] == 'g' && x[x.len() - 1] == 'o' {
            assert(t =~= s);
        }
    }
    if modules::go_file_in(prefix)(x) {
        let b = x.skip(prefix.len() as int);
        assert(x =~= prefix + b) by {
            assert(x.take(prefix.len() as int) == prefix);
            assert(x =~= x.take(prefix.len() as int) + b);
        }
        if dir.len() == 0 {
            assert(x =~= b);
        }
        assert(!b.contains('/'));
    }
    if is_go_in(x, dir) {
        let b = choose|b: Seq<char>|
            !#[trigger] b.contains('/') && x == (if dir.len() == 0 {
                b
            } else {
                dir + seq!['/'] + b
            });
        assert(x =~= prefix + b);
        assert(x.take(prefix.len() as int) =~= prefix);
        assert(x.skip(prefix.len() as int) =~= b);
    }
}

/// An import of a package of the module itself names the first Go file, by name,
/// that stands directly in the package's directory; none where there is no such
/// file.
pub proof fn lemma_go_import(
    maps: ResolutionMaps,
    known: Seq<Seq<char>>,
    dir: Seq<Seq<char>>,
    stem: Seq<char>,
    module: Seq<char>,
    package: Seq<char>,
    f: Seq<char>,
)
    requires
        import_laws::is_file(dir, stem, "go"@),
        maps.go@ == Some(module),
        package.len() > 0,
        import_laws::is_bare(module + seq!['/'] + package),
    ensures
        known.contains(f) && is_go_in(f, package) && (forall|x: Seq<char>| #[trigger]
            known.contains(x) && is_go_in(x, package) ==> !text::before(x, f))
            ==> modules::import_target(
            maps,
            known,
            import_laws::file_at(dir, stem, "go"@),
            module + seq!['/'] + package,
        ) == Some(f),
        (forall|x: Seq<char>| #[trigger] known.contains(x) ==> !is_go_in(x, package))
            ==> modules::import_target(
            maps,
            known,
            import_laws::file_at(dir, stem, "go"@),
            module + seq!['/'] + package,
        ) is None,
{
    reveal_strlit("/");
    lemma_go_words();
    let m = module + seq!['/'] + package;
    import_laws::lemma_bare(m);
    import_laws::lemma_language_of(dir, stem, "go"@);
    assert("/"@ =~= seq!['/']);
    let lead = module + "/"@;
    assert(m.take(lead.len() as int) =~= lead);
    assert(m.skip(lead.len() as int) =~= package);
    assert(m != module);
    lemma_go_package(known, package, f);
}

/// The import of the module itself names the first Go file at the root.
pub proof fn lemma_go_root_import(
    maps: ResolutionMaps,
    known: Seq<Seq<char>>,
    dir: Seq<Seq<char>>,
    stem: Seq<char>,
    module: Seq<char>,
    f: Seq<char>,
)
    requires
        import_laws::is_file(dir, stem, "go"@),
        maps.go@ == Some(module),
        import_laws::is_bare(module),
        known.contains(f) && is_go_in(f, seq![]),
        forall|x: Seq<char>| #[trigger]
            known.contains(x) && is_go_in(x, seq![]) ==> !text::before(x, f),
    ensures
        modules::import_target(maps, known, import_laws::file_at(dir, stem, "go"@), module)
            == Some(f),
{
    lemma_go_words();
    import_laws::lemma_bare(module);
    import_laws::lemma_language_of(dir, stem, "go"@);
    lemma_go_package(known, seq![], f);
}

proof fn lemma_go_words()
    ensures
        "go"@ != "rs"@ && "go"@ != "php"@ && "go"@ != "cs"@ && "go"@ != "java"@ && "go"@ != "kt"@
            && "go"@ != "kts"@ && "go"@ != "groovy"@ && "go"@ != "scala"@,
{
    reveal_strlit("go");
    reveal_strlit("rs");
    reveal_strlit("cs");
    reveal_strlit("kt");
    reveal_strlit("php");
    reveal_strlit("java");
    reveal_strlit("kts");
    reveal_strlit("groovy");
    reveal_strlit("scala");
    assert("go"@[0] == 'g' && "rs"@[0] == 'r' && "cs"@[0] == 'c' && "kt"@[0] == 'k');
    assert("go"@.len() == 2 && "php"@.len() == 3 && "java"@.len() == 4 && "kts"@.len() == 3);
    assert("groovy"@.len() == 6 && "scala"@.len() == 5);
}

proof fn lemma_go_package(known: Seq<Seq<char>>, package: Seq<char>, f: Seq<char>)
    ensures
        known.contains(f) && is_go_in(f, package) && (forall|x: Seq<char>| #[trigger]
            known.contains(x) && is_go_in(x, package) ==> !text::before(x, f))
            ==> modules::go_package_file(known, package) == Some(f),
        (forall|x: Seq<char>| #[trigger] known.contains(x) ==> !is_go_in(x, package))
            ==> modules::go_package_file(known, package) is None,
{
    let prefix = if package.len() == 0 {
        seq![]
    } else {
        package + "/"@
    };
    let p = modules::go_file_in(prefix);
    let some = known.filter(p);
    modules::lemma_least(some);
    assert forall|x: Seq<char>| #[trigger] some.contains(x) <==> known.contains(x) && is_go_in(
        x,
        package,
    ) by {
        inheritance_laws::lemma_filter_iff(known, p, x);
        lemma_go_filter(package, x);
    }
    if known.contains(f) && is_go_in(f, package) && (forall|x: Seq<char>| #[trigger]
        known.contains(x) && is_go_in(x, package) ==> !text::before(x, f)) {
        assert(some.contains(f));
        let l = modules::least(some)->Some_0;
        assert(some.contains(l));
        let k = choose|k: int| 0 <= k < some.len() && some[k] == f;
        assert(!text::before(some[k], l));
        text::lemma_before_total(l, f);
    }
    if forall|x: Seq<char>| #[trigger] known.contains(x) ==> !is_go_in(x, package) {
        if some.len() > 0 {
            assert(some.contains(some[0]));
        }
    }
}

// ---------------------------------------------------------------------------
// The JVM languages
// ---------------------------------------------------------------------------

/// The declaration at `i` is the first of the package whose file is named after
/// the type.
pub open spec fn declares_first(
    ds: Seq<(Seq<char>, Seq<char>)>,
    i: int,
    package: Seq<char>,
    name: Seq<char>,
) -> bool {
    &&& 0 <= i < ds.len()
    &&& ds[i].0 == package && paths::file_stem(ds[i].1) == Some(name)
    &&& forall|k: int|
        0 <= k < i ==> !((#[trigger] ds[k]).0 == package && paths::file_stem(ds[k].1) == Some(name))
}

pub open spec fn declares_none(
    ds: Seq<(Seq<char>, Seq<char>)>,
    package: Seq<char>,
    name: Seq<char>,
) -> bool {
    forall|k: int|
        0 <= k < ds.len() ==> !((#[trigger] ds[k]).0 == package && paths::file_stem(ds[k].1)
            == Some(name))
}

proof fn lemma_first_push(
    a: Seq<(Seq<char>, Seq<char>)>,
    y: (Seq<char>, Seq<char>),
    name: Seq<char>,
)
    ensures
        jvm_package::first_with_stem(a.push(y), name) == (match jvm_package::first_with_stem(
            a,
            name,
        ) {
            Some(f) => Some(f),
            None => if paths::file_stem(y.1) == Some(name) {
                Some(y.1)
            } else {
                None
            },
        }),
    decreases a.len(),
{
    let all = a.push(y);
    if a.len() == 0 {
        let none = Seq::<(Seq<char>, Seq<char>)>::empty();
        assert(all[0] == y);
        assert(all.drop_first() =~= none);
        assert(a =~= none);
        assert(jvm_package::first_with_stem(none, name) is None);
    } else {
        assert(all[0] == a[0]);
        assert(all.drop_first() =~= a.drop_first().push(y));
        lemma_first_push(a.drop_first(), y, name);
    }
}

#[verifier::rlimit(40)]
proof fn lemma_first_with_stem(
    ds: Seq<(Seq<char>, Seq<char>)>,
    package: Seq<char>,
    name: Seq<char>,
)
    ensures
        forall|i: int| #[trigger]
            declares_first(ds, i, package, name) ==> jvm_package::first_with_stem(
                ds.filter(jvm_package::in_package(package)),
                name,
            ) == Some(ds[i].1),
        declares_none(ds, package, name) ==> jvm_package::first_with_stem(
            ds.filter(jvm_package::in_package(package)),
            name,
        ) is None,
    decreases ds.len(),
{
    reveal(Seq::filter);
    let p = jvm_package::in_package(package);
    if ds.len() > 0 {
        let less = ds.drop_last();
        let y = ds.last();
        lemma_first_with_stem(less, package, name);
        lemma_first_push(less.filter(p), y, name);
        assert(forall|k: int| 0 <= k < less.len() ==> less[k] == ds[k]);
        assert forall|i: int| #[trigger]
            declares_first(ds, i, package, name) implies jvm_package::first_with_stem(
            ds.filter(p),
            name,
        ) == Some(ds[i].1) by {
            if i < less.len() {
                assert(declares_first(less, i, package, name));
            } else {
                assert(declares_none(less, package, name)) by {
                    assert forall|k: int| 0 <= k < less.len() implies !((#[trigger] less[k]).0
                        == package && paths::file_stem(less[k].1) == Some(name)) by {
                        assert(less[k] == ds[k]);
                    }
                }
            }
        }
        if declares_none(ds, package, name) {
            assert(ds[ds.len() - 1] == y);
            assert(declares_none(less, package, name)) by {
                assert forall|k: int| 0 <= k < less.len() implies !((#[trigger] less[k]).0
                    == package && paths::file_stem(less[k].1) == Some(name)) by {
                    assert(less[k] == ds[k]);
                }
            }
        }
    } else {
        assert(ds.filter(p) =~= ds);
        assert(jvm_package::first_with_stem(ds, name) is None);
    }
}

proof fn lemma_cut_dotted(v: Seq<Seq<char>>)
    requires
        import_laws::are_names(v),
        v.len() > 0,
    ensures
        v.len() == 1 ==> text::cut_at_last(import_laws::dotted(v), '.') is None,
        v.len() > 1 ==> text::cut_at_last(import_laws::dotted(v), '.') == Some(
            (import_laws::dotted(v.drop_last()), v.last()),
        ),
{
    let p = import_laws::dotted(v);
    let i = text::last_before(p, '.', p.len() as int);
    text::lemma_last_before(p, '.', p.len() as int);
    assert(import_laws::is_name(v[v.len() - 1]));
    let n = v.last();
    if v.len() == 1 {
        if i >= 0 {
            assert(n[i] != '.');
        }
    } else {
        let d = import_laws::dotted(v.drop_last());
        let at = d.len() as int;
        assert(p[at] == '.');
        if i > at {
            assert(n[i - at - 1] != '.');
        }
        assert(p.take(at) =~= d);
        assert(p.skip(at + 1) =~= n);
    }
}

/// The extensions of the JVM languages.
pub open spec fn is_jvm(ext: Seq<char>) -> bool {
    ext == "java"@ || ext == "kt"@ || ext == "kts"@ || ext == "groovy"@ || ext == "scala"@
}

proof fn lemma_jvm_file(dir: Seq<Seq<char>>, stem: Seq<char>, ext: Seq<char>)
    requires
        import_laws::is_file(dir, stem, ext),
        is_jvm(ext),
    ensures
        ext != "rs"@ && ext != "php"@ && ext != "cs"@,
{
    reveal_strlit("rs");
    reveal_strlit("cs");
    reveal_strlit("kt");
    reveal_strlit("php");
    reveal_strlit("java");
    reveal_strlit("kts");
    reveal_strlit("groovy");
    reveal_strlit("scala");
    assert("rs"@[0] == 'r' && "cs"@[0] == 'c' && "kt"@[0] == 'k' && "kts"@[0] == 'k');
    assert("php"@[0] == 'p' && "php"@.len() == 3 && "java"@.len() == 4 && "kts"@.len() == 3);
    assert("groovy"@.len() == 6 && "scala"@.len() == 5 && "rs"@.len() == 2 && "cs"@.len() == 2);
}

/// An import of a type names the file of its package that is named after it.
/// Where there is none, the last name may be a member, and the type before it
/// is looked for in the same way. A wildcard names no file.
pub proof fn lemma_jvm_import(
    maps: ResolutionMaps,
    known: Seq<Seq<char>>,
    dir: Seq<Seq<char>>,
    stem: Seq<char>,
    ext: Seq<char>,
    path: Seq<Seq<char>>,
    i: int,
)
    requires
        import_laws::is_file(dir, stem, ext),
        is_jvm(ext),
        import_laws::are_names(path),
        path.len() >= 2,
    ensures
        ({
            let target = modules::import_target(
                maps,
                known,
                import_laws::file_at(dir, stem, ext),
                import_laws::dotted(path),
            );
            let up = path.drop_last();
            &&& path.last() != "*"@ && declares_first(
                maps.jvm@,
                i,
                import_laws::dotted(up),
                path.last(),
            ) && known.contains(maps.jvm@[i].1) ==> target == Some(maps.jvm@[i].1)
            &&& path.last() != "*"@ && path.len() >= 3 && up.last() != "*"@ && declares_none(
                maps.jvm@,
                import_laws::dotted(up),
                path.last(),
            ) && declares_first(
                maps.jvm@,
                i,
                import_laws::dotted(up.drop_last()),
                up.last(),
            ) && known.contains(maps.jvm@[i].1) ==> target == Some(maps.jvm@[i].1)
            &&& path.last() == "*"@ ==> target is None
        }),
{
    let m = import_laws::dotted(path);
    let up = path.drop_last();
    import_laws::lemma_dotted(path);
    assert(import_laws::is_name(path[0]) && import_laws::is_name(path[path.len() - 1]));
    assert(import_laws::is_bare(m)) by {
        assert(m[0] == path[0][0]);
        assert(m[m.len() - 1] == m.last());
    }
    import_laws::lemma_bare(m);
    import_laws::lemma_language_of(dir, stem, ext);
    lemma_jvm_file(dir, stem, ext);
    lemma_cut_dotted(path);
    assert(import_laws::are_names(up)) by {
        assert(forall|x: int| 0 <= x < up.len() ==> up[x] == path[x]);
    }
    lemma_cut_dotted(up);
    lemma_first_with_stem(maps.jvm@, import_laws::dotted(up), path.last());
    assert(import_laws::is_name(up[up.len() - 1]));
    if path.len() >= 3 {
        lemma_first_with_stem(maps.jvm@, import_laws::dotted(up.drop_last()), up.last());
    }
}

// ---------------------------------------------------------------------------
// PHP and C#
// ---------------------------------------------------------------------------

/// A PHP class with a namespace names the file that the autoloader maps it to.
pub proof fn lemma_php_import(
    maps: ResolutionMaps,
    known: Seq<Seq<char>>,
    dir: Seq<Seq<char>>,
    stem: Seq<char>,
    m: Seq<char>,
    f: Seq<char>,
)
    requires
        import_laws::is_file(dir, stem, "php"@),
        import_laws::is_bare(m),
        m.contains('\\'),
        maps.psr4.targets.at(m) == Some(f),
        known.contains(f),
    ensures
        modules::import_target(maps, known, import_laws::file_at(dir, stem, "php"@), m) == Some(f),
{
    reveal_strlit("php");
    reveal_strlit("rs");
    assert("php"@.len() == 3 && "rs"@.len() == 2);
    import_laws::lemma_bare(m);
    import_laws::lemma_language_of(dir, stem, "php"@);
}

/// A namespace that exactly one file declares, however often, is that file; one
/// that two files declare is none.
#[verifier::rlimit(40)]
pub proof fn lemma_sole_file(n: NamespaceMap, ns: Seq<char>, f: Seq<char>)
    requires
        n@.contains((ns, f)),
    ensures
        (forall|g: Seq<char>| #[trigger] n@.contains((ns, g)) ==> g == f) ==> n.sole_file(ns)
            == Some(f),
        (exists|g: Seq<char>| #[trigger] n@.contains((ns, g)) && g != f) ==> n.sole_file(ns)
            is None,
{
    let p = maps::declaration_of(ns);
    let some = n@.filter(p);
    let all = n.files_of(ns);
    let once = names::first_uses(all);
    graph_laws::lemma_first_uses_distinct(all);
    assert forall|g: Seq<char>| #[trigger] n@.contains((ns, g)) <==> once.contains(g) by {
        names::lemma_first_uses_contains(all, g);
        inheritance_laws::lemma_filter_iff(n@, p, (ns, g));
        if n@.contains((ns, g)) {
            let k = choose|k: int| 0 <= k < some.len() && some[k] == (ns, g);
            assert(all[k] == g);
        }
        if all.contains(g) {
            let k = choose|k: int| 0 <= k < all.len() && all[k] == g;
            n@.lemma_filter_pred(p, k);
            assert(some.contains(some[k]));
            inheritance_laws::lemma_filter_iff(n@, p, some[k]);
            assert(some[k] == (ns, g));
        }
    }
    assert(once.contains(f));
    let k = choose|k: int| 0 <= k < once.len() && once[k] == f;
    if forall|g: Seq<char>| #[trigger] n@.contains((ns, g)) ==> g == f {
        if once.len() > 1 {
            assert(once.contains(once[0]) && once.contains(once[1]));
            assert(n@.contains((ns, once[0])) && n@.contains((ns, once[1])));
            assert(once[0] != once[1]);
        }
    }
    if exists|g: Seq<char>| #[trigger] n@.contains((ns, g)) && g != f {
        let g = choose|g: Seq<char>| #[trigger] n@.contains((ns, g)) && g != f;
        assert(once.contains(g));
        let j = choose|j: int| 0 <= j < once.len() && once[j] == g;
        assert(j != k);
    }
}

/// A C# namespace that exactly one file declares names that file.
pub proof fn lemma_csharp_import(
    maps: ResolutionMaps,
    known: Seq<Seq<char>>,
    dir: Seq<Seq<char>>,
    stem: Seq<char>,
    m: Seq<char>,
    f: Seq<char>,
)
    requires
        import_laws::is_file(dir, stem, "cs"@),
        import_laws::is_bare(m),
        maps.namespace_map@.contains((m, f)),
        forall|g: Seq<char>| #[trigger] maps.namespace_map@.contains((m, g)) ==> g == f,
        known.contains(f),
    ensures
        modules::import_target(maps, known, import_laws::file_at(dir, stem, "cs"@), m) == Some(f),
{
    reveal_strlit("php");
    reveal_strlit("rs");
    reveal_strlit("cs");
    assert("php"@.len() == 3 && "cs"@.len() == 2 && "cs"@[0] == 'c' && "rs"@[0] == 'r');
    import_laws::lemma_bare(m);
    import_laws::lemma_language_of(dir, stem, "cs"@);
    lemma_sole_file(maps.namespace_map, m, f);
}

} // verus!
