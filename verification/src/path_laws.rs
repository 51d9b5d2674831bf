//! Paths that are written as clean components: what their directory is, what
//! stands above it, and how they are taken apart again.

use vstd::prelude::*;

use crate::modules;
use crate::paths;
use crate::text;

verus! {

/// The components with slashes between them.
pub open spec fn slashes(parts: Seq<Seq<char>>) -> Seq<char>
    decreases parts.len(),
{
    if parts.len() == 0 {
        seq![]
    } else if parts.len() == 1 {
        parts[0]
    } else {
        slashes(parts.drop_last()) + seq!['/'] + parts.last()
    }
}

/// A component that stands for itself: not empty, no slash of either kind in it,
/// and neither `.` nor `..`.
pub open spec fn is_clean(n: Seq<char>) -> bool {
    n.len() > 0 && !n.contains('/') && !n.contains('\\') && n != seq!['.'] && n != seq!['.', '.']
}

pub open spec fn all_clean(parts: Seq<Seq<char>>) -> bool {
    forall|i: int| 0 <= i < parts.len() ==> is_clean(#[trigger] parts[i])
}

proof fn lemma_no_slash(n: Seq<char>, from: int)
    requires
        0 <= from <= n.len(),
        forall|k: int| from <= k < n.len() ==> n[k] != '/',
    ensures
        text::find_from(n, '/', from) == n.len(),
    decreases n.len() - from,
{
    if from < n.len() {
        lemma_no_slash(n, from + 1);
    }
}

/// One more component behind a slash is one more span.
#[verifier::rlimit(40)]
proof fn lemma_spans_push(p: Seq<char>, n: Seq<char>, from: int)
    requires
        0 <= from <= p.len(),
        n.len() > 0,
        !n.contains('/'),
        n != seq!['.'],
    ensures
        paths::spans_from(p + seq!['/'] + n, from) == paths::spans_from(p, from).push(
            (p.len() as int + 1, p.len() as int + 1 + n.len()),
        ),
    decreases p.len() - from,
{
    let q = p + seq!['/'] + n;
    let at = p.len() as int;
    let end = q.len() as int;
    assert(forall|k: int| at + 1 <= k < end ==> q[k] == n[k - at - 1]);
    assert forall|k: int| at + 1 <= k < end implies q[k] != '/' by {
        assert(n.contains(n[k - at - 1]));
    }
    lemma_no_slash(q, at + 1);
    assert(paths::counts(q, at + 1, end)) by {
        if end == at + 2 && q[at + 1] == '.' {
            assert(n =~= seq!['.']);
        }
    }
    assert(paths::spans_from(q, at + 1) =~= seq![(at + 1, end)]) by {
        assert(text::find_from(q, '/', at + 1) == end);
    }
    let e = text::find_from(p, '/', from);
    text::lemma_find_from(p, '/', from);
    if from < p.len() {
        assert(p + seq!['/'] + n =~= p + (seq!['/'] + n));
        text::lemma_find_from_prefix(p, seq!['/'] + n, '/', from);
        assert(text::find_from(q, '/', from) == e);
        assert(q[from] == p[from]);
        assert(paths::counts(q, from, e) == paths::counts(p, from, e));
        if e < p.len() {
            lemma_spans_push(p, n, e + 1);
            assert(paths::spans_from(q, from) =~= paths::spans_from(p, from).push((at + 1, end)));
        } else {
            assert(paths::spans_from(q, e + 1) =~= seq![(at + 1, end)]);
            assert(paths::spans_from(q, from) =~= paths::spans_from(p, from).push((at + 1, end)));
        }
    } else {
        assert(q[at] == '/');
        assert(text::find_from(q, '/', at) == at);
        assert(paths::spans_from(p, from) =~= seq![]);
        assert(paths::spans_from(q, from) =~= seq![(at + 1, end)]);
    }
}

proof fn lemma_spans_one(n: Seq<char>)
    requires
        is_clean(n),
    ensures
        paths::spans(n) == seq![(0int, n.len() as int)],
{
    assert(n.contains(n[0]));
    assert forall|k: int| 0 <= k < n.len() implies n[k] != '/' by {
        assert(n.contains(n[k]));
    }
    lemma_no_slash(n, 0);
    assert(paths::spans_from(n, 0) =~= seq![(0int, n.len() as int)]);
}

pub proof fn lemma_slashes_len(parts: Seq<Seq<char>>)
    requires
        all_clean(parts),
    ensures
        parts.len() > 0 ==> slashes(parts).len() > 0,
        parts.len() > 0 ==> slashes(parts)[0] == parts[0][0],
    decreases parts.len(),
{
    if parts.len() > 0 {
        assert(is_clean(parts[0]));
    }
    if parts.len() > 1 {
        let less = parts.drop_last();
        assert(less[0] == parts[0]);
        assert(all_clean(less)) by {
            assert(forall|i: int| 0 <= i < less.len() ==> less[i] == parts[i]);
        }
        lemma_slashes_len(less);
        assert(slashes(parts)[0] == slashes(less)[0]);
    }
}

/// A path of clean components has one span for each, the last of which ends
/// with the path.
proof fn lemma_spans_slashes(parts: Seq<Seq<char>>)
    requires
        all_clean(parts),
        parts.len() > 0,
    ensures
        paths::spans(slashes(parts)).len() == parts.len(),
        paths::spans(slashes(parts)).last().1 == slashes(parts).len(),
        paths::spans(slashes(parts)).last().0 == slashes(parts).len() - parts.last().len(),
        parts.len() >= 2 ==> paths::spans(slashes(parts))[parts.len() - 2].1 == slashes(
            parts.drop_last(),
        ).len(),
        slashes(parts)[0] != '/',
    decreases parts.len(),
{
    let p = slashes(parts);
    lemma_slashes_len(parts);
    assert(is_clean(parts[0]) && parts[0].contains(parts[0][0]));
    if parts.len() == 1 {
        lemma_spans_one(parts[0]);
    } else {
        let less = parts.drop_last();
        assert(all_clean(less)) by {
            assert(forall|i: int| 0 <= i < less.len() ==> less[i] == parts[i]);
        }
        lemma_spans_slashes(less);
        let n = parts.last();
        assert(is_clean(parts[parts.len() - 1]));
        lemma_spans_push(slashes(less), n, 0);
    }
}

proof fn lemma_no_backslash(parts: Seq<Seq<char>>)
    requires
        all_clean(parts),
    ensures
        !slashes(parts).contains('\\'),
    decreases parts.len(),
{
    let p = slashes(parts);
    if parts.len() == 1 {
        assert(is_clean(parts[0]));
    } else if parts.len() > 1 {
        let less = parts.drop_last();
        assert(all_clean(less)) by {
            assert(forall|i: int| 0 <= i < less.len() ==> less[i] == parts[i]);
        }
        lemma_no_backslash(less);
        let n = parts.last();
        assert(is_clean(parts[parts.len() - 1]));
        if p.contains('\\') {
            let k = choose|k: int| 0 <= k < p.len() && p[k] == '\\';
            let a = slashes(less);
            if k < a.len() {
                assert(a[k] == '\\');
            } else if k > a.len() {
                assert(n[k - a.len() - 1] == '\\');
            }
        }
    }
}

/// The directory of a path is the path without its last component.
pub proof fn lemma_dir_of(parts: Seq<Seq<char>>)
    requires
        all_clean(parts),
        parts.len() > 0,
    ensures
        modules::dir_of(slashes(parts)) == slashes(parts.drop_last()),
        paths::parent_text(slashes(parts)) == slashes(parts.drop_last()),
{
    let p = slashes(parts);
    let less = parts.drop_last();
    assert(all_clean(less)) by {
        assert(forall|i: int| 0 <= i < less.len() ==> less[i] == parts[i]);
    }
    lemma_spans_slashes(parts);
    lemma_no_backslash(less);
    let d = paths::parent_text(p);
    if parts.len() >= 2 {
        assert(p.take(slashes(less).len() as int) =~= slashes(less));
    }
    assert(d =~= slashes(less));
    assert forall|k: int| 0 <= k < d.len() implies d[k] != '\\' by {
        assert(d.contains(d[k]));
    }
    assert(text::swapped(d, '\\', '/') =~= d);
}

/// Going up `k` levels takes the last `k` components off.
pub proof fn lemma_up(parts: Seq<Seq<char>>, k: nat)
    requires
        all_clean(parts),
        k <= parts.len(),
    ensures
        modules::up(slashes(parts), k) == slashes(parts.take(parts.len() - k)),
    decreases k,
{
    if k == 0 {
        assert(parts.take(parts.len() as int) =~= parts);
    } else {
        let less = parts.drop_last();
        assert(all_clean(less)) by {
            assert(forall|i: int| 0 <= i < less.len() ==> less[i] == parts[i]);
        }
        lemma_dir_of(parts);
        lemma_up(less, (k - 1) as nat);
        assert(less.take(less.len() - (k - 1)) =~= parts.take(parts.len() - k));
    }
}

/// A component behind a directory.
pub proof fn lemma_below(parts: Seq<Seq<char>>, n: Seq<char>)
    requires
        all_clean(parts),
    ensures
        paths::below(slashes(parts), n) == slashes(parts.push(n)),
{
    lemma_slashes_len(parts);
    let more = parts.push(n);
    assert(more.drop_last() =~= parts);
    assert(more.last() == n);
}

/// Two lists of components, one behind the other.
pub proof fn lemma_slashes_concat(a: Seq<Seq<char>>, b: Seq<Seq<char>>)
    requires
        a.len() > 0,
        b.len() > 0,
    ensures
        slashes(a + b) == slashes(a) + seq!['/'] + slashes(b),
    decreases b.len(),
{
    let all = a + b;
    let less = b.drop_last();
    assert(all.drop_last() =~= a + less);
    assert(all.last() == b.last());
    if b.len() == 1 {
        assert(a + less =~= a);
    } else {
        lemma_slashes_concat(a, less);
        assert(slashes(all) =~= slashes(a) + seq!['/'] + slashes(b));
    }
}

/// A directory and what lies below it.
pub proof fn lemma_below_all(a: Seq<Seq<char>>, b: Seq<Seq<char>>)
    requires
        all_clean(a),
        b.len() > 0,
    ensures
        paths::below(slashes(a), slashes(b)) == slashes(a + b),
{
    lemma_slashes_len(a);
    if a.len() == 0 {
        assert(a + b =~= b);
    } else {
        lemma_slashes_concat(a, b);
    }
}

/// The file name, stem and extension of a path are those of its last component.
pub proof fn lemma_file_name(parts: Seq<Seq<char>>)
    requires
        all_clean(parts),
        parts.len() > 0,
    ensures
        paths::file_name(slashes(parts)) == Some(parts.last()),
{
    let p = slashes(parts);
    lemma_spans_slashes(parts);
    assert(is_clean(parts[parts.len() - 1]));
    let n = parts.last();
    let c = paths::components(p);
    let m = paths::spans(p).last();
    assert(c.last() == p.subrange(m.0, m.1));
    if parts.len() == 1 {
        assert(c.last() =~= n);
    } else {
        assert(c.last() =~= n);
    }
    if n == seq!['/'] {
        assert(n[0] == '/');
        assert(n.contains('/'));
    }
}

/// A file name is its stem, a dot and its extension, where the stem is not empty
/// and the extension has no dot in it.
pub proof fn lemma_stem_and_extension(stem: Seq<char>, ext: Seq<char>)
    requires
        stem.len() > 0,
        !ext.contains('.'),
    ensures
        paths::stem_of_name(stem + seq!['.'] + ext) == stem,
        paths::extension_of_name(stem + seq!['.'] + ext) == Some(ext),
{
    let n = stem + seq!['.'] + ext;
    let i = text::last_before(n, '.', n.len() as int);
    text::lemma_last_before(n, '.', n.len() as int);
    let at = stem.len() as int;
    assert(n[at] == '.');
    if i > at {
        assert(ext[i - at - 1] == n[i]);
        assert(ext.contains('.'));
    }
    assert(i == at);
    assert(n.take(at) =~= stem);
    assert(n.skip(at + 1) =~= ext);
}

/// A name without a dot is its own stem and has no extension.
pub proof fn lemma_plain_stem(n: Seq<char>)
    requires
        !n.contains('.'),
    ensures
        paths::stem_of_name(n) == n,
        paths::extension_of_name(n) is None,
{
    let i = text::last_before(n, '.', n.len() as int);
    text::lemma_last_before(n, '.', n.len() as int);
    if i >= 0 {
        assert(n[i] == '.');
        assert(n.contains('.'));
    }
}

/// Two paths lie in one directory exactly where their components agree up to the
/// last.
pub proof fn lemma_same_directory(a: Seq<Seq<char>>, b: Seq<Seq<char>>)
    requires
        all_clean(a),
        all_clean(b),
        a.len() > 0,
        b.len() > 0,
    ensures
        (paths::parent_components(slashes(a)) == paths::parent_components(slashes(b)))
            <==> a.drop_last() == b.drop_last(),
{
    lemma_components(a);
    lemma_components(b);
    assert(is_clean(a[a.len() - 1]) && is_clean(b[b.len() - 1]));
    if a.last() == seq!['/'] {
        assert(a.last()[0] == '/');
        assert(a.last().contains('/'));
    }
    if b.last() == seq!['/'] {
        assert(b.last()[0] == '/');
        assert(b.last().contains('/'));
    }
}

/// The components of a path are those that it was written from.
#[verifier::rlimit(40)]
pub proof fn lemma_components(parts: Seq<Seq<char>>)
    requires
        all_clean(parts),
    ensures
        paths::components(slashes(parts)) == parts,
    decreases parts.len(),
{
    let p = slashes(parts);
    if parts.len() == 0 {
        assert(paths::spans(p) =~= seq![]);
        assert(paths::components(p) =~= parts);
    } else if parts.len() == 1 {
        assert(is_clean(parts[0]));
        lemma_spans_one(parts[0]);
        assert(p.subrange(0, p.len() as int) =~= p);
        assert(paths::components(p) =~= parts);
    } else {
        let less = parts.drop_last();
        assert(all_clean(less)) by {
            assert(forall|i: int| 0 <= i < less.len() ==> less[i] == parts[i]);
        }
        let d = slashes(less);
        let n = parts.last();
        assert(is_clean(parts[parts.len() - 1]));
        lemma_components(less);
        lemma_spans_slashes(less);
        lemma_spans_push(d, n, 0);
        let sp = paths::spans(p);
        assert(sp == paths::spans(d).push((d.len() as int + 1, p.len() as int)));
        assert forall|i: int| 0 <= i < parts.len() implies #[trigger] paths::components(p)[i]
            == parts[i] by {
            if i < less.len() {
                paths::lemma_spans_bounds(d, i);
                let s = paths::spans(d)[i];
                assert(sp[i] == s);
                assert(p.subrange(s.0, s.1) =~= d.subrange(s.0, s.1));
                assert(paths::components(d)[i] == less[i]);
            } else {
                assert(p.subrange(d.len() as int + 1, p.len() as int) =~= n);
            }
        }
        assert(paths::components(p) =~= parts);
    }
}

/// Cutting a path of components at its slashes gives the components back.
pub proof fn lemma_split_slashes(parts: Seq<Seq<char>>)
    requires
        parts.len() > 0,
        forall|i: int| 0 <= i < parts.len() ==> !(#[trigger] parts[i]).contains('/'),
    ensures
        text::split_on(slashes(parts), '/') == parts,
    decreases parts.len(),
{
    let p = slashes(parts);
    assert(!parts[0].contains('/'));
    if parts.len() == 1 {
        assert forall|k: int| 0 <= k < p.len() implies p[k] != '/' by {
            assert(p.contains(p[k]));
        }
        lemma_no_slash(p, 0);
        assert(p.subrange(0, p.len() as int) =~= p);
        assert(text::split_from(p, '/', 0) =~= parts);
    } else {
        let less = parts.drop_last();
        assert(forall|i: int| 0 <= i < less.len() ==> less[i] == parts[i]);
        lemma_split_slashes(less);
        assert(!parts[parts.len() - 1].contains('/'));
        lemma_split_push(slashes(less), parts.last(), 0);
        assert(less.push(parts.last()) =~= parts);
    }
}

proof fn lemma_split_push(p: Seq<char>, n: Seq<char>, from: int)
    requires
        0 <= from <= p.len(),
        !n.contains('/'),
    ensures
        text::split_from(p + seq!['/'] + n, '/', from) == text::split_from(p, '/', from).push(n),
    decreases p.len() - from,
{
    let q = p + seq!['/'] + n;
    let at = p.len() as int;
    assert forall|k: int| at + 1 <= k < q.len() implies q[k] != '/' by {
        assert(q[k] == n[k - at - 1]);
        assert(n.contains(n[k - at - 1]));
    }
    lemma_no_slash(q, at + 1);
    assert(q.subrange(at + 1, q.len() as int) =~= n);
    assert(text::split_from(q, '/', at + 1) =~= seq![n]);
    let e = text::find_from(p, '/', from);
    text::lemma_find_from(p, '/', from);
    assert(q =~= p + (seq!['/'] + n));
    text::lemma_find_from_prefix(p, seq!['/'] + n, '/', from);
    assert(text::find_from(q, '/', from) == e);
    assert(q.subrange(from, e) =~= p.subrange(from, e));
    if e < p.len() {
        lemma_split_push(p, n, e + 1);
        assert(text::split_from(q, '/', from) =~= text::split_from(p, '/', from).push(n));
    } else {
        assert(text::split_from(q, '/', from) =~= seq![q.subrange(from, e)] + seq![n]);
        assert(text::split_from(p, '/', from) =~= seq![p.subrange(from, at)]);
        assert(text::split_from(q, '/', from) =~= text::split_from(p, '/', from).push(n));
    }
}

} // verus!
