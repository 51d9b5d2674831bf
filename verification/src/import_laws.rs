//! Which indexed file an import names, said of the import's own spelling and of
//! the place of the importing file.

use vstd::prelude::*;

use crate::jvm_package;
use crate::maps::ResolutionMaps;
use crate::modules;
use crate::path_laws;
use crate::paths;
use crate::text;

verus! {

// ---------------------------------------------------------------------------
// Spellings
// ---------------------------------------------------------------------------

pub open spec fn is_quote(c: char) -> bool {
    c == '"' || c == '\''
}

/// A specifier as it is without space and quotes around it.
pub open spec fn is_bare(m: Seq<char>) -> bool {
    &&& m.len() > 0
    &&& !text::is_space(m[0]) && !text::is_space(m.last())
    &&& !is_quote(m[0]) && !is_quote(m.last())
}

/// A plain name: no separator of any language, no quote and no space in it.
pub open spec fn is_name(n: Seq<char>) -> bool {
    n.len() > 0 && forall|i: int|
        0 <= i < n.len() ==> {
            let c = #[trigger] n[i];
            &&& c != '.' && c != '/' && c != '\\' && c != ':'
            &&& !is_quote(c) && !text::is_space(c)
        }
}

pub open spec fn are_names(v: Seq<Seq<char>>) -> bool {
    forall|i: int| 0 <= i < v.len() ==> is_name(#[trigger] v[i])
}

/// The names with dots between them.
pub open spec fn dotted(names: Seq<Seq<char>>) -> Seq<char>
    decreases names.len(),
{
    if names.len() == 0 {
        seq![]
    } else if names.len() == 1 {
        names[0]
    } else {
        dotted(names.drop_last()) + seq!['.'] + names.last()
    }
}

/// `k` dots.
pub open spec fn dots(k: nat) -> Seq<char> {
    Seq::new(k, |i: int| '.')
}

pub proof fn lemma_names_clean(v: Seq<Seq<char>>)
    requires
        are_names(v),
    ensures
        path_laws::all_clean(v),
        forall|i: int| 0 <= i < v.len() ==> !(#[trigger] v[i]).contains('/'),
{
    assert forall|i: int| 0 <= i < v.len() implies path_laws::is_clean(#[trigger] v[i]) by {
        let n = v[i];
        assert(is_name(n));
        if n.contains('/') {
            let k = choose|k: int| 0 <= k < n.len() && n[k] == '/';
            assert(n[k] != '/');
        }
        if n.contains('\\') {
            let k = choose|k: int| 0 <= k < n.len() && n[k] == '\\';
            assert(n[k] != '\\');
        }
        assert(n[0] != '.');
        if n == seq!['.'] {
            assert(seq!['.'][0] == '.');
        }
        if n == seq!['.', '.'] {
            assert(seq!['.', '.'][0] == '.');
        }
    }
    assert forall|i: int| 0 <= i < v.len() implies !(#[trigger] v[i]).contains('/') by {
        assert(path_laws::is_clean(v[i]));
    }
}

#[verifier::rlimit(40)]
pub proof fn lemma_dotted(names: Seq<Seq<char>>)
    requires
        are_names(names),
        names.len() > 0,
    ensures
        text::swapped(dotted(names), '.', '/') == path_laws::slashes(names),
        dotted(names).len() > 0,
        dotted(names)[0] == names[0][0],
        dotted(names).last() == names.last().last(),
        !dotted(names).contains('/'),
        forall|i: int|
            0 <= i < dotted(names).len() ==> (#[trigger] dotted(names)[i]) != ':' && !is_quote(
                dotted(names)[i],
            ) && !text::is_space(dotted(names)[i]),
    decreases names.len(),
{
    let d = dotted(names);
    assert(is_name(names[0]) && is_name(names[names.len() - 1]));
    let n = names.last();
    if names.len() == 1 {
        assert(text::swapped(d, '.', '/') =~= n) by {
            assert forall|i: int| 0 <= i < n.len() implies n[i] != '.' by {
                assert(n[i] != '.');
            }
        }
        assert forall|i: int| 0 <= i < d.len() implies (#[trigger] d[i]) != ':' && d[i] != '/'
            && !is_quote(d[i]) && !text::is_space(d[i]) by {
            assert(n[i] != ':');
        }
    } else {
        let less = names.drop_last();
        let a = dotted(less);
        assert(are_names(less)) by {
            assert(forall|i: int| 0 <= i < less.len() ==> less[i] == names[i]);
        }
        lemma_dotted(less);
        assert(d == a + seq!['.'] + n);
        assert forall|i: int| 0 <= i < d.len() implies (#[trigger] d[i]) != ':' && d[i] != '/'
            && !is_quote(d[i]) && !text::is_space(d[i]) by {
            if i < a.len() {
                assert(d[i] == a[i]);
                assert(a.contains(a[i]));
            } else if i > a.len() {
                assert(d[i] == n[i - a.len() - 1]);
            } else {
                assert(d[i] == '.');
            }
        }
        assert(text::swapped(d, '.', '/') =~= text::swapped(a, '.', '/') + seq!['/'] + n) by {
            assert forall|i: int| 0 <= i < n.len() implies n[i] != '.' by {
                assert(n[i] != '.');
            }
        }
    }
    if d.contains('/') {
        let k = choose|k: int| 0 <= k < d.len() && d[k] == '/';
        assert(d[k] != '/');
    }
}

proof fn lemma_drop_front(a: Seq<char>, s: Seq<char>, set: Seq<char>)
    requires
        forall|i: int| 0 <= i < a.len() ==> set.contains(#[trigger] a[i]),
        s.len() > 0 ==> !set.contains(s[0]),
    ensures
        text::drop_front(a + s, set) == s,
    decreases a.len(),
{
    if a.len() == 0 {
        assert(a + s =~= s);
    } else {
        assert(set.contains(a[0]));
        assert((a + s)[0] == a[0]);
        assert((a + s).drop_first() =~= a.drop_first() + s);
        assert(forall|i: int| 0 <= i < a.drop_first().len() ==> a.drop_first()[i] == a[i + 1]);
        lemma_drop_front(a.drop_first(), s, set);
    }
}

proof fn lemma_drop_back(s: Seq<char>, b: Seq<char>, set: Seq<char>)
    requires
        forall|i: int| 0 <= i < b.len() ==> set.contains(#[trigger] b[i]),
        s.len() > 0 ==> !set.contains(s.last()),
    ensures
        text::drop_back(s + b, set) == s,
    decreases b.len(),
{
    if b.len() == 0 {
        assert(s + b =~= s);
    } else {
        assert(set.contains(b[b.len() - 1]));
        assert((s + b).last() == b.last());
        assert((s + b).drop_last() =~= s + b.drop_last());
        lemma_drop_back(s, b.drop_last(), set);
    }
}

pub open spec fn all_space(s: Seq<char>) -> bool {
    forall|i: int| 0 <= i < s.len() ==> text::is_space(#[trigger] s[i])
}

pub open spec fn all_quotes(s: Seq<char>) -> bool {
    forall|i: int| 0 <= i < s.len() ==> is_quote(#[trigger] s[i])
}

pub proof fn lemma_trimmed_front(a: Seq<char>, s: Seq<char>)
    requires
        all_space(a),
        s.len() > 0 ==> !text::is_space(s[0]),
    ensures
        text::trimmed_front(a + s) == s,
    decreases a.len(),
{
    if a.len() == 0 {
        assert(a + s =~= s);
    } else {
        assert(text::is_space(a[0]));
        assert((a + s)[0] == a[0]);
        assert((a + s).drop_first() =~= a.drop_first() + s);
        assert(all_space(a.drop_first()));
        lemma_trimmed_front(a.drop_first(), s);
    }
}

pub proof fn lemma_trimmed_back(s: Seq<char>, b: Seq<char>)
    requires
        all_space(b),
        s.len() > 0 ==> !text::is_space(s.last()),
    ensures
        text::trimmed_back(s + b) == s,
    decreases b.len(),
{
    if b.len() == 0 {
        assert(s + b =~= s);
    } else {
        assert(text::is_space(b[b.len() - 1]));
        assert((s + b).last() == b.last());
        assert((s + b).drop_last() =~= s + b.drop_last());
        assert(all_space(b.drop_last()));
        lemma_trimmed_back(s, b.drop_last());
    }
}

/// Space is taken off both ends, and nothing else.
pub proof fn lemma_trimmed(a: Seq<char>, s: Seq<char>, b: Seq<char>)
    requires
        all_space(a),
        all_space(b),
        s.len() > 0,
        !text::is_space(s[0]),
        !text::is_space(s.last()),
    ensures
        text::trimmed(a + s + b) == s,
{
    assert(a + s + b =~= a + (s + b));
    lemma_trimmed_front(a, s + b);
    lemma_trimmed_back(s, b);
}

/// The quotes of a specifier, and the space around them, do not count.
pub proof fn lemma_unquoted(
    a: Seq<char>,
    q: Seq<char>,
    m: Seq<char>,
    r: Seq<char>,
    b: Seq<char>,
)
    requires
        is_bare(m),
        all_space(a),
        all_space(b),
        all_quotes(q),
        all_quotes(r),
    ensures
        modules::unquoted(a + q + m + r + b) == m,
{
    reveal_strlit("\"'");
    let set = "\"'"@;
    assert(set[0] == '"' && set[1] == '\'');
    assert forall|c: char| #[trigger] set.contains(c) <==> is_quote(c) by {
        if is_quote(c) {
            assert(set[0] == c || set[1] == c);
        }
    }
    let s = q + m + r;
    assert(a + q + m + r + b =~= a + s + b);
    if q.len() > 0 {
        assert(is_quote(q[0]));
        assert(s[0] == q[0]);
    } else {
        assert(s[0] == m[0]);
    }
    if r.len() > 0 {
        assert(is_quote(r[r.len() - 1]));
        assert(s.last() == r[r.len() - 1]);
    } else {
        assert(s.last() == m.last());
    }
    lemma_trimmed(a, s, b);
    assert(s =~= q + (m + r));
    assert((m + r)[0] == m[0]);
    lemma_drop_front(q, m + r, set);
    lemma_drop_back(m, r, set);
}

pub proof fn lemma_bare(m: Seq<char>)
    requires
        is_bare(m),
    ensures
        modules::unquoted(m) == m,
{
    let e = Seq::<char>::empty();
    assert(e + e + m + e + e =~= m);
    lemma_unquoted(e, e, m, e, e);
}

// ---------------------------------------------------------------------------
// The first indexed file among what a specifier can mean
// ---------------------------------------------------------------------------

/// What can stand behind a module's path, in the order in which it is tried.
pub open spec fn endings() -> Seq<Seq<char>> {
    seq![
        ""@,
        ".py"@,
        ".rs"@,
        ".go"@,
        ".ts"@,
        ".tsx"@,
        ".js"@,
        ".jsx"@,
        ".java"@,
        "/__init__.py"@,
        "/mod.rs"@,
        "/index.ts"@,
        "/index.tsx"@,
        "/index.js"@,
    ]
}

/// The base at `i` with the ending at `j` is indexed, and nothing that is tried
/// before it is.
pub open spec fn hits_first(
    known: Seq<Seq<char>>,
    bases: Seq<Seq<char>>,
    ends: Seq<Seq<char>>,
    i: int,
    j: int,
) -> bool {
    &&& 0 <= i < bases.len() && 0 <= j < ends.len()
    &&& known.contains(bases[i] + ends[j])
    &&& forall|y: int| 0 <= y < j ==> !known.contains(bases[i] + #[trigger] ends[y])
    &&& forall|x: int, y: int|
        0 <= x < i && 0 <= y < ends.len() ==> !known.contains(
            #[trigger] bases[x] + #[trigger] ends[y],
        )
}

/// Nothing that is tried is indexed.
pub open spec fn misses(
    known: Seq<Seq<char>>,
    bases: Seq<Seq<char>>,
    ends: Seq<Seq<char>>,
) -> bool {
    forall|x: int, y: int|
        0 <= x < bases.len() && 0 <= y < ends.len() ==> !known.contains(
            #[trigger] bases[x] + #[trigger] ends[y],
        )
}

proof fn lemma_first_known(
    known: Seq<Seq<char>>,
    base: Seq<char>,
    ends: Seq<Seq<char>>,
    j: int,
)
    requires
        0 <= j <= ends.len(),
        j < ends.len() ==> known.contains(base + ends[j]),
        forall|y: int| 0 <= y < j ==> !known.contains(base + #[trigger] ends[y]),
    ensures
        j < ends.len() ==> modules::first_known(known, base, ends) == Some(base + ends[j]),
        j == ends.len() ==> modules::first_known(known, base, ends) is None,
    decreases ends.len(),
{
    if j > 0 {
        assert(!known.contains(base + ends[0]));
        let rest = ends.drop_first();
        assert(forall|y: int| 0 <= y < rest.len() ==> rest[y] == ends[y + 1]);
        lemma_first_known(known, base, rest, j - 1);
    }
}

pub open spec fn none_begins(bases: Seq<Seq<char>>, lead: Seq<char>) -> bool {
    forall|x: int| 0 <= x < bases.len() ==> !text::begins_with(#[trigger] bases[x], lead)
}

#[verifier::rlimit(40)]
pub proof fn lemma_first_of(
    known: Seq<Seq<char>>,
    bases: Seq<Seq<char>>,
    lead: Seq<char>,
    ends: Seq<Seq<char>>,
)
    requires
        none_begins(bases, lead),
    ensures
        forall|i: int, j: int| #[trigger]
            hits_first(known, bases, ends, i, j) ==> modules::first_of(known, bases, lead, ends)
                == Some(bases[i] + ends[j]),
        misses(known, bases, ends) ==> modules::first_of(known, bases, lead, ends) is None,
    decreases bases.len(),
{
    if bases.len() > 0 {
        let rest = bases.drop_first();
        assert(!text::begins_with(bases[0], lead));
        assert(forall|x: int| 0 <= x < rest.len() ==> rest[x] == bases[x + 1]);
        assert(none_begins(rest, lead));
        lemma_first_of(known, rest, lead, ends);
        assert forall|i: int, j: int| #[trigger]
            hits_first(known, bases, ends, i, j) implies modules::first_of(
            known,
            bases,
            lead,
            ends,
        ) == Some(bases[i] + ends[j]) by {
            if i == 0 {
                lemma_first_known(known, bases[0], ends, j);
            } else {
                assert forall|y: int| 0 <= y < ends.len() implies !known.contains(
                    bases[0] + #[trigger] ends[y],
                ) by {}
                lemma_first_known(known, bases[0], ends, ends.len() as int);
                assert(rest[i - 1] == bases[i]);
                assert(hits_first(known, rest, ends, i - 1, j)) by {
                    assert forall|x: int, y: int|
                        0 <= x < i - 1 && 0 <= y < ends.len() implies !known.contains(
                        #[trigger] rest[x] + #[trigger] ends[y],
                    ) by {
                        assert(rest[x] == bases[x + 1]);
                    }
                }
            }
        }
        if misses(known, bases, ends) {
            assert forall|y: int| 0 <= y < ends.len() implies !known.contains(
                bases[0] + #[trigger] ends[y],
            ) by {}
            lemma_first_known(known, bases[0], ends, ends.len() as int);
            assert(misses(known, rest, ends)) by {
                assert forall|x: int, y: int|
                    0 <= x < rest.len() && 0 <= y < ends.len() implies !known.contains(
                    #[trigger] rest[x] + #[trigger] ends[y],
                ) by {
                    assert(rest[x] == bases[x + 1]);
                }
            }
        }
    }
}

proof fn lemma_prefix(parts: Seq<Seq<char>>)
    requires
        path_laws::all_clean(parts),
        parts.len() > 0,
    ensures
        slashed_len_ok(parts),
    decreases parts.len(),
{
    if parts.len() > 1 {
        let less = parts.drop_last();
        assert(less[0] == parts[0]);
        assert(path_laws::all_clean(less)) by {
            assert(forall|i: int| 0 <= i < less.len() ==> less[i] == parts[i]);
        }
        lemma_prefix(less);
        let p = path_laws::slashes(parts);
        let d = path_laws::slashes(less);
        let n = parts[0].len() as int;
        assert(p.take(n) =~= d.take(n));
    } else {
        assert(parts[0].take(parts[0].len() as int) =~= parts[0]);
    }
}

spec fn slashed_len_ok(parts: Seq<Seq<char>>) -> bool {
    let p = path_laws::slashes(parts);
    &&& p.len() >= parts[0].len()
    &&& p.take(parts[0].len() as int) == parts[0]
}

/// A path of clean components does not begin with `./` or with a slash.
pub proof fn lemma_no_lead(parts: Seq<Seq<char>>)
    requires
        path_laws::all_clean(parts),
    ensures
        !text::begins_with(path_laws::slashes(parts), "./"@),
        !text::begins_with(path_laws::slashes(parts), "/"@),
{
    reveal_strlit("./");
    reveal_strlit("/");
    let p = path_laws::slashes(parts);
    if parts.len() > 0 {
        lemma_prefix(parts);
        let n = parts[0];
        assert(path_laws::is_clean(n));
        assert(p[0] == p.take(n.len() as int)[0]);
        assert(n.contains(n[0]));
        if text::begins_with(p, "./"@) {
            assert(p[0] == p.take(2)[0] && p[1] == p.take(2)[1]);
            if n.len() == 1 {
                assert(n =~= seq!['.']);
            } else {
                assert(p[1] == p.take(n.len() as int)[1]);
                assert(n.contains(n[1]));
            }
        }
        if text::begins_with(p, "/"@) {
            assert(p[0] == p.take(1)[0]);
        }
    }
}

// ---------------------------------------------------------------------------
// Files whose imports go by convention
// ---------------------------------------------------------------------------

/// The extension belongs to no language that has tables of its own.
pub open spec fn goes_by_convention(ext: Seq<char>) -> bool {
    &&& ext != "rs"@ && ext != "php"@ && ext != "cs"@ && ext != "go"@
    &&& ext != "java"@ && ext != "kt"@ && ext != "kts"@ && ext != "groovy"@ && ext != "scala"@
}

/// The name of a file: its stem, a dot and its extension.
pub open spec fn file_named(stem: Seq<char>, ext: Seq<char>) -> Seq<char> {
    stem + seq!['.'] + ext
}

/// The path of a file in a directory.
pub open spec fn file_at(dir: Seq<Seq<char>>, stem: Seq<char>, ext: Seq<char>) -> Seq<char> {
    path_laws::slashes(dir.push(file_named(stem, ext)))
}

/// The parts of a file's path are clean, and its extension has no dot.
pub open spec fn is_file(dir: Seq<Seq<char>>, stem: Seq<char>, ext: Seq<char>) -> bool {
    &&& path_laws::all_clean(dir)
    &&& stem.len() > 0
    &&& ext.len() > 0 && !ext.contains('.')
    &&& path_laws::is_clean(file_named(stem, ext))
}

pub proof fn lemma_ending_unique(a: Seq<char>, ext: Seq<char>, e: Seq<char>)
    requires
        !ext.contains('.'),
        !e.contains('.'),
        text::finishes_with(a + seq!['.'] + ext, seq!['.'] + e),
    ensures
        ext == e,
{
    let p = a + seq!['.'] + ext;
    let s = seq!['.'] + e;
    let t = p.skip(p.len() - s.len());
    assert(forall|k: int| 0 <= k < s.len() ==> p[p.len() - s.len() + k] == t[k]);
    let at = a.len() as int;
    assert(p[at] == '.');
    let n = p.len() - s.len();
    assert(p[n] == s[0]);
    if n > at {
        assert(ext[n - at - 1] == '.');
        assert(ext.contains('.'));
    }
    if n < at {
        assert(t[at - n] == '.');
        assert(e[at - n - 1] == '.');
        assert(e.contains('.'));
    }
    assert(ext =~= e) by {
        assert(ext.len() == e.len());
        assert forall|k: int| 0 <= k < e.len() implies ext[k] == e[k] by {
            assert(t[k + 1] == s[k + 1]);
            assert(p[n + k + 1] == ext[k]);
        }
    }
}

/// The path of a file is what stands before the dot, the dot and the extension.
pub proof fn lemma_file_at(dir: Seq<Seq<char>>, stem: Seq<char>, ext: Seq<char>)
    requires
        is_file(dir, stem, ext),
    ensures
        modules::dir_of(file_at(dir, stem, ext)) == path_laws::slashes(dir),
        paths::extension(file_at(dir, stem, ext)) == Some(ext),
        paths::file_stem(file_at(dir, stem, ext)) == Some(stem),
        forall|e: Seq<char>|
            !e.contains('.') ==> (text::finishes_with(
                file_at(dir, stem, ext),
                #[trigger] (seq!['.'] + e),
            ) <==> ext == e),
{
    let f = file_named(stem, ext);
    let parts = dir.push(f);
    let p = file_at(dir, stem, ext);
    assert(path_laws::all_clean(parts));
    path_laws::lemma_dir_of(parts);
    assert(parts.drop_last() =~= dir);
    path_laws::lemma_file_name(parts);
    path_laws::lemma_stem_and_extension(stem, ext);
    let a = if dir.len() == 0 {
        stem
    } else {
        path_laws::slashes(dir) + seq!['/'] + stem
    };
    assert(p =~= a + seq!['.'] + ext);
    assert forall|e: Seq<char>| !e.contains('.') implies (text::finishes_with(
        p,
        #[trigger] (seq!['.'] + e),
    ) <==> ext == e) by {
        if text::finishes_with(p, seq!['.'] + e) {
            lemma_ending_unique(a, ext, e);
        }
        if ext == e {
            let s = seq!['.'] + e;
            assert(p.skip(p.len() - s.len()) =~= s);
        }
    }
}

/// What the suffix tests of the languages say of a file.
pub proof fn lemma_language_of(dir: Seq<Seq<char>>, stem: Seq<char>, ext: Seq<char>)
    requires
        is_file(dir, stem, ext),
    ensures
        text::finishes_with(file_at(dir, stem, ext), ".rs"@) <==> ext == "rs"@,
        text::finishes_with(file_at(dir, stem, ext), ".php"@) <==> ext == "php"@,
        text::finishes_with(file_at(dir, stem, ext), ".cs"@) <==> ext == "cs"@,
        text::finishes_with(file_at(dir, stem, ext), ".go"@) <==> ext == "go"@,
        text::finishes_with(file_at(dir, stem, ext), ".py"@) <==> ext == "py"@,
        jvm_package::is_jvm_file(file_at(dir, stem, ext)) <==> (ext == "java"@ || ext == "kt"@
            || ext == "kts"@ || ext == "groovy"@ || ext == "scala"@),
{
    lemma_file_at(dir, stem, ext);
    reveal_strlit(".rs");
    reveal_strlit("rs");
    reveal_strlit(".php");
    reveal_strlit("php");
    reveal_strlit(".cs");
    reveal_strlit("cs");
    reveal_strlit(".go");
    reveal_strlit("go");
    reveal_strlit(".py");
    reveal_strlit("py");
    assert(".rs"@ =~= seq!['.'] + "rs"@);
    assert(".php"@ =~= seq!['.'] + "php"@);
    assert(".cs"@ =~= seq!['.'] + "cs"@);
    assert(".go"@ =~= seq!['.'] + "go"@);
    assert(".py"@ =~= seq!['.'] + "py"@);
    assert(!"rs"@.contains('.') && !"php"@.contains('.') && !"cs"@.contains('.')
        && !"go"@.contains('.') && !"py"@.contains('.'));
}

pub proof fn lemma_by_convention(
    maps: ResolutionMaps,
    known: Seq<Seq<char>>,
    dir: Seq<Seq<char>>,
    stem: Seq<char>,
    ext: Seq<char>,
    m: Seq<char>,
)
    requires
        is_file(dir, stem, ext),
        goes_by_convention(ext),
        is_bare(m),
    ensures
        modules::import_target(maps, known, file_at(dir, stem, ext), m) == modules::common_target(
            maps,
            known,
            file_at(dir, stem, ext),
            m,
        ),
{
    lemma_language_of(dir, stem, ext);
    lemma_bare(m);
}

proof fn lemma_common(
    maps: ResolutionMaps,
    known: Seq<Seq<char>>,
    dir: Seq<Seq<char>>,
    stem: Seq<char>,
    ext: Seq<char>,
    m: Seq<char>,
    bases: Seq<Seq<char>>,
)
    requires
        is_file(dir, stem, ext),
        goes_by_convention(ext),
        is_bare(m),
        modules::common_bases(maps, known, file_at(dir, stem, ext), m) == bases,
        none_begins(bases, "./"@),
    ensures
        forall|i: int, j: int| #[trigger]
            hits_first(known, bases, endings(), i, j) ==> modules::import_target(
                maps,
                known,
                file_at(dir, stem, ext),
                m,
            ) == Some(bases[i] + endings()[j]),
        misses(known, bases, endings()) ==> modules::import_target(
            maps,
            known,
            file_at(dir, stem, ext),
            m,
        ) is None,
{
    lemma_by_convention(maps, known, dir, stem, ext, m);
    lemma_first_of(known, bases, "./"@, endings());
    assert(modules::common_suffixes() =~= endings());
}

// ---------------------------------------------------------------------------
// Python: specifiers with leading dots
// ---------------------------------------------------------------------------

/// Where a specifier of `k + 1` dots and some names leads: `k` directories up
/// from the file's own, and down along the names.
pub open spec fn relative_place(
    dir: Seq<Seq<char>>,
    k: nat,
    names: Seq<Seq<char>>,
) -> Seq<char> {
    path_laws::slashes(dir.take(dir.len() - k) + names)
}

#[verifier::rlimit(40)]
pub proof fn lemma_dotted_base(dir: Seq<Seq<char>>, k: nat, names: Seq<Seq<char>>)
    requires
        path_laws::all_clean(dir),
        are_names(names),
        k <= dir.len(),
    ensures
        modules::dotted_base(path_laws::slashes(dir), dots(k + 1) + dotted(names))
            == relative_place(dir, k, names),
        !text::begins_with(relative_place(dir, k, names), "./"@),
        is_bare(dots(k + 1) + dotted(names)),
        text::begins_with(dots(k + 1) + dotted(names), "."@),
        !modules::is_relative(dots(k + 1) + dotted(names)),
{
    reveal_strlit(".");
    reveal_strlit("./");
    reveal_strlit("../");
    let d = dotted(names);
    let m = dots(k + 1) + d;
    let up = dir.take(dir.len() - k);
    assert(path_laws::all_clean(up)) by {
        assert(forall|i: int| 0 <= i < up.len() ==> up[i] == dir[i]);
    }
    assert("."@.contains('.')) by {
        assert("."@[0] == '.');
    }
    if names.len() > 0 {
        lemma_dotted(names);
        assert(is_name(names[0]) && is_name(names[names.len() - 1]));
        assert(names[0][0] != '.');
        assert(names[names.len() - 1][names.last().len() - 1] != '.');
        assert(d[0] != '.');
        if "."@.contains(d[0]) {
            assert("."@[0] == d[0]);
        }
        lemma_names_clean(names);
        path_laws::lemma_below_all(up, names);
        assert(m.last() == d.last());
        assert(d[d.len() - 1] == d.last());
    } else {
        assert(up + names =~= up);
        assert(m.last() == '.');
    }
    lemma_drop_front(dots(k + 1), d, "."@);
    path_laws::lemma_up(dir, k);
    assert(path_laws::all_clean(up + names)) by {
        lemma_names_clean(names);
    }
    lemma_no_lead(up + names);
    assert(text::swapped(d, '.', '/').len() == d.len());
    assert(m[0] == '.');
    assert(m.take(1) =~= "."@);
    assert forall|i: int| 0 <= i < m.len() implies m[i] != '/' by {
        if i > k {
            assert(m[i] == d[i - k - 1]);
            assert(d.contains(d[i - k - 1]));
        }
    }
    if text::begins_with(m, "./"@) {
        assert(m.take(2)[1] == m[1]);
    }
    if text::begins_with(m, "../"@) {
        assert(m.take(3)[2] == m[2]);
    }
}

/// A specifier of `k + 1` dots and names is looked for in the file's directory
/// with its last `k` components taken off, and nowhere else: the first ending
/// under which that place is indexed gives the target.
pub proof fn lemma_python_relative(
    maps: ResolutionMaps,
    known: Seq<Seq<char>>,
    dir: Seq<Seq<char>>,
    stem: Seq<char>,
    k: nat,
    names: Seq<Seq<char>>,
)
    requires
        is_file(dir, stem, "py"@),
        are_names(names),
        k <= dir.len(),
    ensures
        forall|j: int| #[trigger]
            hits_first(known, seq![relative_place(dir, k, names)], endings(), 0, j)
                ==> modules::import_target(
                maps,
                known,
                file_at(dir, stem, "py"@),
                dots(k + 1) + dotted(names),
            ) == Some(relative_place(dir, k, names) + endings()[j]),
        misses(known, seq![relative_place(dir, k, names)], endings()) ==> modules::import_target(
            maps,
            known,
            file_at(dir, stem, "py"@),
            dots(k + 1) + dotted(names),
        ) is None,
{
    let m = dots(k + 1) + dotted(names);
    let bases = seq![relative_place(dir, k, names)];
    lemma_dotted_base(dir, k, names);
    lemma_file_at(dir, stem, "py"@);
    lemma_py_convention();
    assert(none_begins(bases, "./"@));
    lemma_common(maps, known, dir, stem, "py"@, m, bases);
    assert forall|j: int| #[trigger]
        hits_first(known, bases, endings(), 0, j) implies modules::import_target(
        maps,
        known,
        file_at(dir, stem, "py"@),
        m,
    ) == Some(relative_place(dir, k, names) + endings()[j]) by {
        assert(bases[0] == relative_place(dir, k, names));
    }
}

pub proof fn lemma_py_convention()
    ensures
        goes_by_convention("py"@),
        !"py"@.contains('.'),
        "py"@.len() > 0,
{
    reveal_strlit("py");
    reveal_strlit("rs");
    reveal_strlit("cs");
    reveal_strlit("go");
    reveal_strlit("kt");
    reveal_strlit("php");
    reveal_strlit("java");
    reveal_strlit("kts");
    reveal_strlit("groovy");
    reveal_strlit("scala");
    assert("py"@[0] == 'p');
    assert("rs"@[0] == 'r' && "cs"@[0] == 'c' && "go"@[0] == 'g' && "kt"@[0] == 'k');
    assert("php"@.len() == 3 && "java"@.len() == 4 && "kts"@.len() == 3);
    assert("groovy"@.len() == 6 && "scala"@.len() == 5 && "py"@.len() == 2);
}

/// `from .n import x` in a file of the directory `D` names `D/n.py`, where that
/// is indexed and `D/n` is not; with each further dot the directory loses its
/// last component.
pub proof fn lemma_python_sibling(
    maps: ResolutionMaps,
    known: Seq<Seq<char>>,
    dir: Seq<Seq<char>>,
    stem: Seq<char>,
    k: nat,
    n: Seq<char>,
)
    requires
        is_file(dir, stem, "py"@),
        is_name(n),
        k <= dir.len(),
        known.contains(path_laws::slashes(dir.take(dir.len() - k).push(n + ".py"@))),
        !known.contains(path_laws::slashes(dir.take(dir.len() - k).push(n))),
    ensures
        modules::import_target(maps, known, file_at(dir, stem, "py"@), dots(k + 1) + n) == Some(
            path_laws::slashes(dir.take(dir.len() - k).push(n + ".py"@)),
        ),
{
    reveal_strlit("");
    let up = dir.take(dir.len() - k);
    let names = seq![n];
    assert(up + names =~= up.push(n));
    let base = relative_place(dir, k, names);
    assert(base + ""@ =~= base);
    assert(up.push(n + ".py"@).drop_last() =~= up);
    assert(up.push(n).drop_last() =~= up);
    assert(base + ".py"@ =~= path_laws::slashes(up.push(n + ".py"@)));
    assert(endings()[0] == ""@ && endings()[1] == ".py"@);
    assert(are_names(names));
    assert(hits_first(known, seq![base], endings(), 0, 1)) by {
        assert(seq![base][0] == base);
    }
    lemma_python_relative(maps, known, dir, stem, k, names);
    assert(dotted(names) == n);
}

// ---------------------------------------------------------------------------
// Absolute specifiers
// ---------------------------------------------------------------------------

pub proof fn lemma_joined_slashes(parts: Seq<Seq<char>>)
    ensures
        text::joined(parts, "/"@) == path_laws::slashes(parts),
    decreases parts.len(),
{
    reveal_strlit("/");
    if parts.len() > 1 {
        lemma_joined_slashes(parts.drop_last());
        assert("/"@ =~= seq!['/']);
    }
}

proof fn lemma_behind_first(parts: Seq<Seq<char>>)
    requires
        path_laws::all_clean(parts),
        parts.len() > 1,
    ensures
        path_laws::slashes(parts).len() > parts[0].len(),
        path_laws::slashes(parts)[parts[0].len() as int] == '/',
    decreases parts.len(),
{
    let less = parts.drop_last();
    assert(less[0] == parts[0]);
    assert(path_laws::all_clean(less)) by {
        assert(forall|i: int| 0 <= i < less.len() ==> less[i] == parts[i]);
    }
    let d = path_laws::slashes(less);
    let p = path_laws::slashes(parts);
    assert(p == d + seq!['/'] + parts.last());
    if parts.len() > 2 {
        lemma_behind_first(less);
        assert(p[parts[0].len() as int] == d[parts[0].len() as int]);
    } else {
        assert(d == parts[0]);
        assert(p[d.len() as int] == '/');
    }
}

/// A path begins with a directory exactly where that is its first component.
proof fn lemma_first_component(parts: Seq<Seq<char>>, w: Seq<char>)
    requires
        path_laws::all_clean(parts),
        parts.len() > 0,
        parts[0] != w,
        !w.contains('/'),
    ensures
        !text::begins_with(path_laws::slashes(parts), w + seq!['/']),
{
    let p = path_laws::slashes(parts);
    let q = w + seq!['/'];
    let n = parts[0];
    lemma_prefix(parts);
    assert(path_laws::is_clean(n));
    if text::begins_with(p, q) {
        let t = p.take(q.len() as int);
        assert(forall|i: int| 0 <= i < q.len() ==> p[i] == t[i]);
        assert(t[w.len() as int] == '/');
        let h = p.take(n.len() as int);
        assert(forall|i: int| 0 <= i < n.len() ==> p[i] == h[i]);
        if n.len() > w.len() {
            assert(n[w.len() as int] == '/');
            assert(n.contains('/'));
        } else if n.len() < w.len() {
            if parts.len() > 1 {
                lemma_behind_first(parts);
                assert(w[n.len() as int] == '/');
                assert(w.contains('/'));
            }
        } else {
            assert(n =~= w) by {
                assert forall|i: int| 0 <= i < w.len() implies n[i] == w[i] by {
                    assert(t[i] == q[i]);
                }
            }
        }
    }
}

pub proof fn lemma_cut(parts: Seq<Seq<char>>)
    requires
        path_laws::all_clean(parts),
        parts.len() > 0,
    ensures
        parts.len() == 1 ==> text::cut_at_last(path_laws::slashes(parts), '/') is None,
        parts.len() > 1 ==> text::cut_at_last(path_laws::slashes(parts), '/') == Some(
            (path_laws::slashes(parts.drop_last()), parts.last()),
        ),
{
    let p = path_laws::slashes(parts);
    let i = text::last_before(p, '/', p.len() as int);
    text::lemma_last_before(p, '/', p.len() as int);
    assert(path_laws::is_clean(parts[parts.len() - 1]));
    let n = parts.last();
    if parts.len() == 1 {
        if i >= 0 {
            assert(n.contains(n[i]));
        }
    } else {
        let d = path_laws::slashes(parts.drop_last());
        let at = d.len() as int;
        assert(p[at] == '/');
        if i > at {
            assert(n[i - at - 1] == '/');
            assert(n.contains('/'));
        }
        assert(p.take(at) =~= d);
        assert(p.skip(at + 1) =~= n);
    }
}

/// The first name of an absolute specifier is not one of Rust's path words.
pub open spec fn is_free(names: Seq<Seq<char>>) -> bool {
    names.len() > 0 && names[0] != "crate"@ && names[0] != "self"@ && names[0] != "super"@
}

#[verifier::rlimit(40)]
proof fn lemma_slashed(names: Seq<Seq<char>>)
    requires
        are_names(names),
        is_free(names),
    ensures
        modules::slashed(dotted(names)) == path_laws::slashes(names),
        is_bare(dotted(names)),
        !modules::is_relative(dotted(names)),
        !text::begins_with(dotted(names), "."@),
{
    reveal_strlit("::");
    reveal_strlit("crate/");
    reveal_strlit("self/");
    reveal_strlit("super/");
    reveal_strlit("crate");
    reveal_strlit("self");
    reveal_strlit("super");
    reveal_strlit("./");
    reveal_strlit("../");
    reveal_strlit(".");
    let m = dotted(names);
    lemma_dotted(names);
    lemma_names_clean(names);
    assert(is_name(names[0]) && is_name(names[names.len() - 1]));
    text::lemma_seek_from(m, "::"@, 0);
    if text::seek_from(m, "::"@, 0) is Some {
        let e = text::seek_from(m, "::"@, 0)->Some_0;
        let x = m.subrange(e, e + 2);
        assert(x[0] == m[e]);
        assert(m[e] != ':');
    }
    assert(m.subrange(0, m.len() as int) =~= m);
    let one = seq![m];
    assert(text::split_on_text(m, "::"@) =~= one);
    assert(text::joined(one, "/"@) == m);
    let p = path_laws::slashes(names);
    assert("crate/"@ =~= "crate"@ + seq!['/']);
    assert("self/"@ =~= "self"@ + seq!['/']);
    assert("super/"@ =~= "super"@ + seq!['/']);
    assert(!"crate"@.contains('/') && !"self"@.contains('/') && !"super"@.contains('/'));
    lemma_first_component(names, "crate"@);
    lemma_first_component(names, "self"@);
    lemma_first_component(names, "super"@);
    assert(names[0][0] != '.');
    assert(m[0] != '.');
    assert(m[m.len() - 1] == m.last());
    if text::begins_with(m, "."@) {
        assert(m.take(1)[0] == m[0]);
    }
    if text::begins_with(m, "./"@) {
        assert(m.take(2)[0] == m[0]);
    }
    if text::begins_with(m, "../"@) {
        assert(m.take(3)[0] == m[0]);
    }
}

/// Where an absolute specifier is looked for from the project's root: as it
/// stands, as an item of the module that holds it, and both below `src`, the
/// holder first.
pub open spec fn rooted_places(names: Seq<Seq<char>>) -> Seq<Seq<char>> {
    let p = path_laws::slashes(names);
    if names.len() > 1 {
        let h = path_laws::slashes(names.drop_last());
        seq![p, h, "src/"@ + h, "src/"@ + p]
    } else {
        seq![p, "src/"@ + p]
    }
}

proof fn lemma_rooted(names: Seq<Seq<char>>)
    requires
        are_names(names),
        is_free(names),
    ensures
        modules::rooted_bases(path_laws::slashes(names)) == rooted_places(names),
        none_begins(rooted_places(names), "./"@),
{
    reveal_strlit("./");
    reveal_strlit("src/");
    lemma_names_clean(names);
    lemma_cut(names);
    lemma_no_lead(names);
    let less = names.drop_last();
    assert(path_laws::all_clean(less)) by {
        assert(forall|i: int| 0 <= i < less.len() ==> less[i] == names[i]);
    }
    lemma_no_lead(less);
    let places = rooted_places(names);
    assert forall|x: int| 0 <= x < places.len() implies !text::begins_with(
        #[trigger] places[x],
        "./"@,
    ) by {
        if text::begins_with(places[x], "./"@) {
            assert(places[x].take(2)[0] == places[x][0]);
        }
    }
}

/// In a file that is neither Python nor of a language with tables, an absolute
/// specifier is looked for from the project's root.
pub proof fn lemma_absolute(
    maps: ResolutionMaps,
    known: Seq<Seq<char>>,
    dir: Seq<Seq<char>>,
    stem: Seq<char>,
    ext: Seq<char>,
    names: Seq<Seq<char>>,
)
    requires
        is_file(dir, stem, ext),
        goes_by_convention(ext),
        ext != "py"@,
        are_names(names),
        is_free(names),
    ensures
        forall|i: int, j: int| #[trigger]
            hits_first(known, rooted_places(names), endings(), i, j) ==> modules::import_target(
                maps,
                known,
                file_at(dir, stem, ext),
                dotted(names),
            ) == Some(rooted_places(names)[i] + endings()[j]),
        misses(known, rooted_places(names), endings()) ==> modules::import_target(
            maps,
            known,
            file_at(dir, stem, ext),
            dotted(names),
        ) is None,
{
    lemma_slashed(names);
    lemma_rooted(names);
    lemma_language_of(dir, stem, ext);
    let none = Seq::<Seq<char>>::empty();
    assert(modules::python_roots(maps, known, file_at(dir, stem, ext)) =~= none);
    assert(modules::below_each(none, path_laws::slashes(names)) =~= none);
    assert(none + rooted_places(names) =~= rooted_places(names));
    lemma_common(maps, known, dir, stem, ext, dotted(names), rooted_places(names));
}

/// Every directory from `dir` up to the first `j` components is a package, and
/// what these lead to is not one.
pub open spec fn hangs_off(known: Seq<Seq<char>>, dir: Seq<Seq<char>>, j: int) -> bool {
    &&& 0 <= j <= dir.len()
    &&& forall|i: int|
        j < i <= dir.len() ==> known.contains(
            path_laws::slashes(#[trigger] dir.take(i)) + "/__init__.py"@,
        )
    &&& j > 0 ==> !known.contains(path_laws::slashes(dir.take(j)) + "/__init__.py"@)
}

/// The root of a file's package is the first directory up that is not a package
/// itself.
pub proof fn lemma_package_root(known: Seq<Seq<char>>, dir: Seq<Seq<char>>, j: int)
    requires
        path_laws::all_clean(dir),
        hangs_off(known, dir, j),
    ensures
        modules::package_root(path_laws::slashes(dir), known) == path_laws::slashes(dir.take(j)),
    decreases dir.len(),
{
    path_laws::lemma_slashes_len(dir);
    assert(dir.take(dir.len() as int) =~= dir);
    if j < dir.len() {
        let less = dir.drop_last();
        assert(path_laws::all_clean(less)) by {
            assert(forall|i: int| 0 <= i < less.len() ==> less[i] == dir[i]);
        }
        assert(known.contains(
            path_laws::slashes(dir.take(dir.len() as int)) + "/__init__.py"@,
        ));
        path_laws::lemma_dir_of(dir);
        assert(less.take(j) =~= dir.take(j));
        assert forall|i: int| j < i <= less.len() implies known.contains(
            path_laws::slashes(#[trigger] less.take(i)) + "/__init__.py"@,
        ) by {
            assert(less.take(i) =~= dir.take(i));
        }
        lemma_package_root(known, less, j);
    }
}

/// Where an absolute import of a Python file is looked for: below the root of
/// its package, below each root that it adds itself, then from the project's
/// root.
pub open spec fn python_places(
    root: Seq<Seq<char>>,
    extra: Seq<Seq<char>>,
    names: Seq<Seq<char>>,
) -> Seq<Seq<char>> {
    seq![path_laws::slashes(root + names)] + extra.map_values(
        |r: Seq<char>|
            if r.len() == 0 {
                path_laws::slashes(names)
            } else {
                r + seq!['/'] + path_laws::slashes(names)
            },
    ) + rooted_places(names)
}

/// The roots that the file adds to Python's own.
pub open spec fn added_roots(maps: ResolutionMaps, from_path: Seq<char>) -> Seq<Seq<char>> {
    if maps.pysys@.contains_key(from_path) {
        maps.pysys@[from_path]
    } else {
        seq![]
    }
}

/// An absolute import of a Python file names the first indexed file among those
/// places, in that order.
#[verifier::rlimit(40)]
pub proof fn lemma_python_absolute(
    maps: ResolutionMaps,
    known: Seq<Seq<char>>,
    dir: Seq<Seq<char>>,
    stem: Seq<char>,
    k: int,
    names: Seq<Seq<char>>,
)
    requires
        is_file(dir, stem, "py"@),
        hangs_off(known, dir, k),
        are_names(names),
        is_free(names),
        none_begins(added_roots(maps, file_at(dir, stem, "py"@)), "./"@),
        none_begins(added_roots(maps, file_at(dir, stem, "py"@)), "."@),
    ensures
        forall|i: int, j: int| #[trigger]
            hits_first(
                known,
                python_places(dir.take(k), added_roots(maps, file_at(dir, stem, "py"@)), names),
                endings(),
                i,
                j,
            ) ==> modules::import_target(maps, known, file_at(dir, stem, "py"@), dotted(names))
                == Some(
                python_places(dir.take(k), added_roots(maps, file_at(dir, stem, "py"@)), names)[i]
                    + endings()[j],
            ),
        misses(
            known,
            python_places(dir.take(k), added_roots(maps, file_at(dir, stem, "py"@)), names),
            endings(),
        ) ==> modules::import_target(maps, known, file_at(dir, stem, "py"@), dotted(names)) is None,
{
    reveal_strlit("./");
    reveal_strlit(".");
    lemma_py_convention();
    lemma_slashed(names);
    lemma_rooted(names);
    lemma_language_of(dir, stem, "py"@);
    lemma_file_at(dir, stem, "py"@);
    lemma_package_root(known, dir, k);
    lemma_names_clean(names);
    let from = file_at(dir, stem, "py"@);
    let root = dir.take(k);
    let norm = path_laws::slashes(names);
    assert(path_laws::all_clean(root)) by {
        assert(forall|i: int| 0 <= i < root.len() ==> root[i] == dir[i]);
    }
    path_laws::lemma_below_all(root, names);
    let extra = added_roots(maps, from);
    let roots = seq![path_laws::slashes(root)] + extra;
    assert(modules::python_roots(maps, known, from) =~= roots);
    let places = python_places(root, extra, names);
    assert(modules::below_each(roots, norm) + rooted_places(names) =~= places);
    assert(none_begins(places, "./"@)) by {
        assert(path_laws::all_clean(root + names));
        lemma_no_lead(root + names);
        lemma_no_lead(names);
        assert forall|x: int| 0 <= x < places.len() implies !text::begins_with(
            #[trigger] places[x],
            "./"@,
        ) by {
            if 0 < x <= extra.len() {
                let r = extra[x - 1];
                if r.len() > 0 && text::begins_with(places[x], "./"@) {
                    assert(places[x] == r + seq!['/'] + norm);
                    assert(places[x].take(2)[0] == places[x][0]);
                    assert(!text::begins_with(extra[x - 1], "."@));
                    assert(r.take(1)[0] == r[0]);
                    assert(r.take(1) =~= "."@);
                }
            } else if x > extra.len() {
                assert(places[x] == rooted_places(names)[x - 1 - extra.len()]);
            }
        }
    }
    lemma_common(maps, known, dir, stem, "py"@, dotted(names), places);
}

// ---------------------------------------------------------------------------
// JavaScript and TypeScript: specifiers relative to the file
// ---------------------------------------------------------------------------

/// `k` steps up.
pub open spec fn ups(k: nat) -> Seq<Seq<char>> {
    Seq::new(k, |i: int| seq!['.', '.'])
}

proof fn lemma_walked_names(
    parts: Seq<Seq<char>>,
    segs: Seq<Seq<char>>,
    names: Seq<Seq<char>>,
)
    requires
        path_laws::all_clean(names),
    ensures
        modules::walked(parts, segs + names) == modules::walked(parts, segs) + names,
    decreases names.len(),
{
    reveal_strlit(".");
    reveal_strlit("..");
    if names.len() == 0 {
        assert(segs + names =~= segs);
        assert(modules::walked(parts, segs) + names =~= modules::walked(parts, segs));
    } else {
        let less = names.drop_last();
        let n = names.last();
        assert(path_laws::all_clean(less)) by {
            assert(forall|i: int| 0 <= i < less.len() ==> less[i] == names[i]);
        }
        lemma_walked_names(parts, segs, less);
        assert((segs + names).drop_last() =~= segs + less);
        assert((segs + names).last() == n);
        assert(path_laws::is_clean(names[names.len() - 1]));
        assert("."@ =~= seq!['.']);
        assert(".."@ =~= seq!['.', '.']);
        assert((modules::walked(parts, segs) + less).push(n) =~= modules::walked(parts, segs)
            + names);
    }
}

proof fn lemma_walked_ups(parts: Seq<Seq<char>>, k: nat)
    requires
        k <= parts.len(),
    ensures
        modules::walked(parts, ups(k)) == parts.take(parts.len() - k),
    decreases k,
{
    reveal_strlit("..");
    reveal_strlit(".");
    assert(".."@ =~= seq!['.', '.']);
    if k == 0 {
        assert(parts.take(parts.len() as int) =~= parts);
        assert(ups(k) =~= seq![]);
    } else {
        lemma_walked_ups(parts, (k - 1) as nat);
        assert(ups(k).drop_last() =~= ups((k - 1) as nat));
        assert(ups(k).last() =~= seq!['.', '.']);
        let up = parts.take(parts.len() - (k - 1));
        assert("."@.len() == 1 && ".."@.len() == 2);
        assert(up.drop_last() =~= parts.take(parts.len() - k));
    }
}

/// The lead of a relative specifier: a dot, or `k` steps up.
pub open spec fn lead_of(k: nat) -> Seq<Seq<char>> {
    if k == 0 {
        seq![seq!['.']]
    } else {
        ups(k)
    }
}

/// A specifier that goes `k` directories up and along the names; with no step
/// up it begins with a dot.
pub open spec fn relative_spelling(k: nat, names: Seq<Seq<char>>) -> Seq<char> {
    path_laws::slashes(lead_of(k) + names)
}

proof fn lemma_parts_of(dir: Seq<Seq<char>>)
    requires
        path_laws::all_clean(dir),
    ensures
        text::split_on(path_laws::slashes(dir), '/').filter(modules::non_empty()) == dir,
{
    let parts = text::split_on(path_laws::slashes(dir), '/');
    let p = modules::non_empty();
    reveal(Seq::filter);
    if dir.len() == 0 {
        let e = Seq::<char>::empty();
        let one = seq![e];
        path_laws::lemma_split_slashes(one);
        assert(path_laws::slashes(dir) =~= path_laws::slashes(one));
        assert(parts =~= one);
        assert(one.drop_last() =~= seq![]);
        assert(!p(one.last()));
        reveal_with_fuel(Seq::filter, 3);
        assert(parts.filter(p) =~= dir);
    } else {
        assert forall|i: int| 0 <= i < dir.len() implies !(#[trigger] dir[i]).contains('/') by {
            assert(path_laws::is_clean(dir[i]));
        }
        path_laws::lemma_split_slashes(dir);
        assert forall|i: int| 0 <= i < dir.len() implies p(#[trigger] dir[i]) by {
            assert(path_laws::is_clean(dir[i]));
        }
        lemma_filter_all(dir, p);
    }
}

#[verifier::rlimit(40)]
proof fn lemma_resolved_rel(dir: Seq<Seq<char>>, k: nat, names: Seq<Seq<char>>)
    requires
        path_laws::all_clean(dir),
        path_laws::all_clean(names),
        names.len() > 0,
        k <= dir.len(),
    ensures
        modules::resolved_rel(path_laws::slashes(dir), relative_spelling(k, names))
            == relative_place(dir, k, names),
        !text::begins_with(relative_place(dir, k, names), "./"@),
        modules::is_relative(relative_spelling(k, names)),
{
    reveal_strlit(".");
    reveal_strlit("..");
    reveal_strlit("./");
    reveal_strlit("../");
    let lead = lead_of(k);
    let segs = lead + names;
    let m = relative_spelling(k, names);
    assert forall|i: int| 0 <= i < segs.len() implies !(#[trigger] segs[i]).contains('/') by {
        if i >= lead.len() {
            assert(segs[i] == names[i - lead.len()]);
            assert(path_laws::is_clean(names[i - lead.len()]));
        }
    }
    path_laws::lemma_split_slashes(segs);
    lemma_parts_of(dir);
    lemma_walked_names(dir, lead, names);
    if k == 0 {
        assert("."@ =~= seq!['.']);
        let none = Seq::<Seq<char>>::empty();
        assert(lead.drop_last() =~= none);
        assert(lead.last() == seq!['.']);
        assert(modules::walked(dir, none) == dir);
        assert(modules::walked(dir, lead) == dir);
        assert(dir.take(dir.len() as int) =~= dir);
    } else {
        lemma_walked_ups(dir, k);
    }
    let up = dir.take(dir.len() - k);
    lemma_joined_slashes(up + names);
    assert(path_laws::all_clean(up + names)) by {
        assert(forall|i: int| 0 <= i < up.len() ==> up[i] == dir[i]);
    }
    lemma_no_lead(up + names);
    lemma_lead_text(k, names);
}

proof fn lemma_lead_text(k: nat, names: Seq<Seq<char>>)
    requires
        names.len() > 0,
    ensures
        modules::is_relative(relative_spelling(k, names)),
{
    reveal_strlit("./");
    reveal_strlit("../");
    let lead = lead_of(k);
    let m = relative_spelling(k, names);
    path_laws::lemma_slashes_concat(lead, names);
    let l = path_laws::slashes(lead);
    assert(m == l + seq!['/'] + path_laws::slashes(names));
    if k == 0 {
        assert(l == seq!['.']);
        assert(m.take(2) =~= "./"@);
    } else {
        lemma_ups_text(k);
        assert(l[0] == '.' && l[1] == '.');
        if k == 1 {
            assert(l.len() == 2);
            assert(m[2] == '/');
        } else {
            assert(l[2] == '/');
        }
        assert(m.take(3) =~= "../"@);
    }
}

proof fn lemma_ups_text(k: nat)
    requires
        k > 0,
    ensures
        path_laws::slashes(ups(k)).len() >= 2,
        path_laws::slashes(ups(k))[0] == '.' && path_laws::slashes(ups(k))[1] == '.',
        k == 1 ==> path_laws::slashes(ups(k)).len() == 2,
        k > 1 ==> path_laws::slashes(ups(k)).len() > 2 && path_laws::slashes(ups(k))[2] == '/',
    decreases k,
{
    if k > 1 {
        lemma_ups_text((k - 1) as nat);
        assert(ups(k).drop_last() =~= ups((k - 1) as nat));
    }
}

pub proof fn lemma_filter_all(s: Seq<Seq<char>>, p: spec_fn(Seq<char>) -> bool)
    requires
        forall|i: int| 0 <= i < s.len() ==> p(#[trigger] s[i]),
    ensures
        s.filter(p) == s,
    decreases s.len(),
{
    reveal(Seq::filter);
    if s.len() > 0 {
        let less = s.drop_last();
        assert(p(s[s.len() - 1]));
        assert(forall|i: int| 0 <= i < less.len() ==> less[i] == s[i]);
        lemma_filter_all(less, p);
        assert(s.filter(p) =~= s);
    } else {
        assert(s.filter(p) =~= s);
    }
}

/// A relative specifier ends with an extension exactly where its last name does.
#[verifier::rlimit(40)]
proof fn lemma_ends(lead: Seq<Seq<char>>, names: Seq<Seq<char>>, e: Seq<char>)
    requires
        names.len() > 0,
        lead.len() > 0,
        path_laws::all_clean(names),
        !e.contains('/'),
        !e.contains('.'),
        e.len() > 0,
    ensures
        text::finishes_with(path_laws::slashes(lead + names), seq!['.'] + e)
            ==> text::finishes_with(names.last(), seq!['.'] + e),
        text::finishes_with(names.last(), seq!['.'] + e) ==> text::finishes_with(
            path_laws::slashes(lead + names),
            seq!['.'] + e,
        ),
{
    let all = lead + names;
    let p = path_laws::slashes(all);
    let n = names.last();
    let s = seq!['.'] + e;
    assert(all.last() == n);
    let d = path_laws::slashes(all.drop_last());
    assert(p == d + seq!['/'] + n);
    let at = d.len() as int;
    if text::finishes_with(p, s) {
        let t = p.skip(p.len() - s.len());
        assert(forall|i: int| 0 <= i < t.len() ==> t[i] == p[p.len() - s.len() + i]);
        if n.len() < s.len() {
            let x = at - (p.len() - s.len());
            assert(t[x] == '/');
            assert(s[x] == '/');
            if x > 0 {
                assert(e[x - 1] == '/');
                assert(e.contains('/'));
            }
        }
        assert(n.skip(n.len() - s.len()) =~= s) by {
            assert forall|i: int| 0 <= i < s.len() implies n[n.len() - s.len() + i] == s[i] by {
                assert(t[i] == s[i]);
            }
        }
    }
    if text::finishes_with(n, s) {
        let u = n.skip(n.len() - s.len());
        assert(forall|i: int| 0 <= i < s.len() ==> u[i] == n[n.len() - s.len() + i]);
        let t = p.skip(p.len() - s.len());
        assert(t =~= s) by {
            assert forall|i: int| 0 <= i < s.len() implies t[i] == s[i] by {
                assert(u[i] == s[i]);
            }
        }
    }
}

/// The extensions of emitted JavaScript.
pub open spec fn is_js(e: Seq<char>) -> bool {
    e == "js"@ || e == "jsx"@ || e == "mjs"@ || e == "cjs"@
}

proof fn lemma_js_literals()
    ensures
        ".js"@ == seq!['.'] + "js"@,
        ".jsx"@ == seq!['.'] + "jsx"@,
        ".mjs"@ == seq!['.'] + "mjs"@,
        ".cjs"@ == seq!['.'] + "cjs"@,
        forall|e: Seq<char>| #[trigger]
            is_js(e) ==> e.len() > 0 && !e.contains('.') && !e.contains('/') && !e.contains('\\'),
        "js"@ != "jsx"@ && "js"@ != "mjs"@ && "js"@ != "cjs"@ && "jsx"@ != "mjs"@ && "jsx"@
            != "cjs"@ && "mjs"@ != "cjs"@,
{
    reveal_strlit(".js");
    reveal_strlit(".jsx");
    reveal_strlit(".mjs");
    reveal_strlit(".cjs");
    reveal_strlit("js");
    reveal_strlit("jsx");
    reveal_strlit("mjs");
    reveal_strlit("cjs");
    assert(".js"@ =~= seq!['.'] + "js"@);
    assert(".jsx"@ =~= seq!['.'] + "jsx"@);
    assert(".mjs"@ =~= seq!['.'] + "mjs"@);
    assert(".cjs"@ =~= seq!['.'] + "cjs"@);
    assert("js"@.len() == 2 && "jsx"@.len() == 3);
    assert("jsx"@[0] == 'j' && "mjs"@[0] == 'm' && "cjs"@[0] == 'c');
}

/// A relative specifier whose last name has no dot leads up and along, and is
/// looked for there alone.
pub proof fn lemma_js_relative(
    maps: ResolutionMaps,
    known: Seq<Seq<char>>,
    dir: Seq<Seq<char>>,
    stem: Seq<char>,
    ext: Seq<char>,
    k: nat,
    names: Seq<Seq<char>>,
)
    requires
        is_file(dir, stem, ext),
        goes_by_convention(ext),
        path_laws::all_clean(names),
        names.len() > 0,
        !names.last().contains('.'),
        is_bare(relative_spelling(k, names)),
        k <= dir.len(),
    ensures
        forall|j: int| #[trigger]
            hits_first(known, seq![relative_place(dir, k, names)], endings(), 0, j)
                ==> modules::import_target(
                maps,
                known,
                file_at(dir, stem, ext),
                relative_spelling(k, names),
            ) == Some(relative_place(dir, k, names) + endings()[j]),
        misses(known, seq![relative_place(dir, k, names)], endings()) ==> modules::import_target(
            maps,
            known,
            file_at(dir, stem, ext),
            relative_spelling(k, names),
        ) is None,
{
    let m = relative_spelling(k, names);
    let bases = seq![relative_place(dir, k, names)];
    lemma_resolved_rel(dir, k, names);
    lemma_file_at(dir, stem, ext);
    lemma_js_literals();
    let n = names.last();
    assert forall|e: Seq<char>| #[trigger] is_js(e) implies !text::finishes_with(
        m,
        seq!['.'] + e,
    ) by {
        lemma_ends(lead_of(k), names, e);
        let s = seq!['.'] + e;
        if text::finishes_with(n, s) {
            assert(n.skip(n.len() - s.len())[0] == n[n.len() - s.len()]);
            assert(n.contains('.'));
        }
    }
    assert(is_js("js"@) && is_js("jsx"@) && is_js("mjs"@) && is_js("cjs"@));
    assert(modules::relative_bases(path_laws::slashes(dir), m) =~= bases);
    assert(none_begins(bases, "./"@));
    lemma_common(maps, known, dir, stem, ext, m, bases);
    assert forall|j: int| #[trigger]
        hits_first(known, bases, endings(), 0, j) implies modules::import_target(
        maps,
        known,
        file_at(dir, stem, ext),
        m,
    ) == Some(relative_place(dir, k, names) + endings()[j]) by {
        assert(bases[0] == relative_place(dir, k, names));
    }
}

/// The place of an emitted file, and that of its source.
pub open spec fn emitted_places(
    dir: Seq<Seq<char>>,
    k: nat,
    path: Seq<Seq<char>>,
    n: Seq<char>,
    e: Seq<char>,
) -> Seq<Seq<char>> {
    seq![
        relative_place(dir, k, path.push(n + seq!['.'] + e)),
        relative_place(dir, k, path.push(n)),
    ]
}

/// Where it ends with the extension of emitted JavaScript, it is looked for as
/// it stands and then without that extension, so that it finds the source that
/// the JavaScript is emitted from.
pub proof fn lemma_js_emitted(
    maps: ResolutionMaps,
    known: Seq<Seq<char>>,
    dir: Seq<Seq<char>>,
    stem: Seq<char>,
    ext: Seq<char>,
    k: nat,
    path: Seq<Seq<char>>,
    n: Seq<char>,
    e: Seq<char>,
)
    requires
        is_file(dir, stem, ext),
        goes_by_convention(ext),
        path_laws::all_clean(path),
        path_laws::is_clean(n),
        is_js(e),
        is_bare(relative_spelling(k, path.push(n + seq!['.'] + e))),
        k <= dir.len(),
    ensures
        forall|i: int, j: int| #[trigger]
            hits_first(
                known,
                emitted_places(dir, k, path, n, e),
                endings(),
                i,
                j,
            ) ==> modules::import_target(
                maps,
                known,
                file_at(dir, stem, ext),
                relative_spelling(k, path.push(n + seq!['.'] + e)),
            ) == Some(emitted_places(dir, k, path, n, e)[i] + endings()[j]),
{
    let last = n + seq!['.'] + e;
    let names = path.push(last);
    let bare = path.push(n);
    let m = relative_spelling(k, names);
    lemma_clean_emitted(n, e);
    assert(path_laws::all_clean(names));
    assert(path_laws::all_clean(bare));
    lemma_resolved_rel(dir, k, names);
    lemma_resolved_rel(dir, k, bare);
    lemma_file_at(dir, stem, ext);
    lemma_without_js(k, path, n, e);
    let bases = emitted_places(dir, k, path, n, e);
    assert(modules::relative_bases(path_laws::slashes(dir), m) =~= bases);
    assert(none_begins(bases, "./"@));
    lemma_common(maps, known, dir, stem, ext, m, bases);
}

proof fn lemma_clean_emitted(n: Seq<char>, e: Seq<char>)
    requires
        path_laws::is_clean(n),
        is_js(e),
    ensures
        path_laws::is_clean(n + seq!['.'] + e),
{
    lemma_js_literals();
    let last = n + seq!['.'] + e;
    assert(e.len() > 0 && last.len() >= 3);
    assert(seq!['.'].len() == 1 && seq!['.', '.'].len() == 2);
    if last.contains('/') {
        let x = choose|x: int| 0 <= x < last.len() && last[x] == '/';
        if x < n.len() {
            assert(n[x] == '/');
            assert(n.contains('/'));
        } else {
            assert(e[x - n.len() - 1] == '/');
            assert(e.contains('/'));
        }
    }
    if last.contains('\\') {
        let x = choose|x: int| 0 <= x < last.len() && last[x] == '\\';
        if x < n.len() {
            assert(n[x] == '\\');
            assert(n.contains('\\'));
        } else {
            assert(e[x - n.len() - 1] == '\\');
            assert(e.contains('\\'));
        }
    }
}

proof fn lemma_without_js(k: nat, path: Seq<Seq<char>>, n: Seq<char>, e: Seq<char>)
    requires
        path_laws::all_clean(path),
        path_laws::is_clean(n),
        is_js(e),
    ensures
        modules::without_js_extension(relative_spelling(k, path.push(n + seq!['.'] + e))) == Some(
            relative_spelling(k, path.push(n)),
        ),
{
    lemma_js_literals();
    lemma_clean_emitted(n, e);
    let last = n + seq!['.'] + e;
    let names = path.push(last);
    let bare = path.push(n);
    let m = relative_spelling(k, names);
    let s = seq!['.'] + e;
    assert(path_laws::all_clean(names));
    assert(names.last() == last);
    assert(last.skip(last.len() - s.len()) =~= s);
    lemma_ends(lead_of(k), names, e);
    assert forall|x: Seq<char>| #[trigger] is_js(x) && x != e implies !text::finishes_with(
        m,
        seq!['.'] + x,
    ) by {
        lemma_ends(lead_of(k), names, x);
        if text::finishes_with(last, seq!['.'] + x) {
            lemma_ending_unique(n, e, x);
        }
    }
    assert(is_js("js"@) && is_js("jsx"@) && is_js("mjs"@) && is_js("cjs"@));
    let all = lead_of(k) + names;
    let cut = lead_of(k) + bare;
    assert(all.drop_last() =~= cut.drop_last());
    let d = path_laws::slashes(all.drop_last());
    assert(m == d + seq!['/'] + last);
    assert(relative_spelling(k, bare) == d + seq!['/'] + n);
    assert(m.take(m.len() - s.len()) =~= d + seq!['/'] + n);
}

} // verus!
