//! Slash-separated file paths: their components, file name, stem, extension
//! and parent.
//!
//! A path is read as its components: the pieces between slashes, without
//! empty pieces and without `.` pieces, except that a leading `.` counts, and
//! that a leading slash is a component of its own, the root.

use crate::text;
use vstd::prelude::*;
use vstd::slice::slice_subrange;

verus! {

/// Does the piece of `p` between `a` and `b` count as a component?
pub open spec fn counts(p: Seq<char>, a: int, b: int) -> bool {
    a < b && !(a > 0 && b == a + 1 && p[a] == '.')
}

/// Where the components of `p` stand, from position `from` on.
pub open spec fn spans_from(p: Seq<char>, from: int) -> Seq<(int, int)>
    decreases p.len() + 1 - from,
{
    if from < 0 || from >= p.len() {
        seq![]
    } else {
        let e = text::find_from(p, '/', from);
        let rest = if from <= e < p.len() {
            spans_from(p, e + 1)
        } else {
            seq![]
        };
        if counts(p, from, e) {
            seq![(from, e)] + rest
        } else {
            rest
        }
    }
}

/// Where the components of `p` stand; the root is the slash at its front.
pub open spec fn spans(p: Seq<char>) -> Seq<(int, int)> {
    if p.len() > 0 && p[0] == '/' {
        seq![(0int, 1int)] + spans_from(p, 1)
    } else {
        spans_from(p, 0)
    }
}

/// The components of `p`.
pub open spec fn components(p: Seq<char>) -> Seq<Seq<char>> {
    spans(p).map_values(|ab: (int, int)| p.subrange(ab.0, ab.1))
}

pub open spec fn is_root(c: Seq<char>) -> bool {
    c == seq!['/']
}

/// The components of the directory that holds `p`: none for an empty path or
/// for a path that ends at the root.
pub open spec fn parent_components(p: Seq<char>) -> Option<Seq<Seq<char>>> {
    let c = components(p);
    if c.len() == 0 || is_root(c.last()) {
        None
    } else {
        Some(c.drop_last())
    }
}

/// The text of the directory that holds `p`: everything up to the end of the
/// component before the last. Empty where `p` has a single component, where
/// it is empty, and where it ends at the root.
pub open spec fn parent_text(p: Seq<char>) -> Seq<char> {
    let c = spans(p);
    if c.len() < 2 {
        seq![]
    } else {
        p.take(c[c.len() - 2].1)
    }
}

/// The last component of `p`, unless it is the root, `.` or `..`.
pub open spec fn file_name(p: Seq<char>) -> Option<Seq<char>> {
    let c = components(p);
    if c.len() == 0 || is_root(c.last()) || c.last() == seq!['.'] || c.last() == seq!['.', '.'] {
        None
    } else {
        Some(c.last())
    }
}

/// A file name without its extension: what stands before the last dot, if
/// that is not at the front.
pub open spec fn stem_of_name(n: Seq<char>) -> Seq<char> {
    let i = text::last_before(n, '.', n.len() as int);
    if i <= 0 {
        n
    } else {
        n.take(i)
    }
}

/// What stands after the last dot of a file name, if that dot is not at the
/// front.
pub open spec fn extension_of_name(n: Seq<char>) -> Option<Seq<char>> {
    let i = text::last_before(n, '.', n.len() as int);
    if i <= 0 {
        None
    } else {
        Some(n.skip(i + 1))
    }
}

/// The file name of `p` without its extension.
pub open spec fn file_stem(p: Seq<char>) -> Option<Seq<char>> {
    match file_name(p) {
        Some(n) => Some(stem_of_name(n)),
        None => None,
    }
}

/// The extension of `p`'s file name.
pub open spec fn extension(p: Seq<char>) -> Option<Seq<char>> {
    match file_name(p) {
        Some(n) => extension_of_name(n),
        None => None,
    }
}

pub open spec fn as_ints(v: Seq<(usize, usize)>) -> Seq<(int, int)> {
    v.map_values(|ab: (usize, usize)| (ab.0 as int, ab.1 as int))
}

proof fn lemma_spans_from_bounds(p: Seq<char>, from: int)
    requires
        0 <= from,
    ensures
        forall|k: int|
            #![trigger spans_from(p, from)[k]]
            0 <= k < spans_from(p, from).len() ==> from <= spans_from(p, from)[k].0 < spans_from(
                p,
                from,
            )[k].1 <= p.len(),
    decreases p.len() + 1 - from,
{
    if from < p.len() {
        text::lemma_find_from(p, '/', from);
        let e = text::find_from(p, '/', from);
        lemma_spans_from_bounds(p, e + 1);
        let rest = spans_from(p, e + 1);
        if counts(p, from, e) {
            assert forall|k: int|
                #![trigger spans_from(p, from)[k]]
                0 <= k < spans_from(p, from).len() implies from <= spans_from(p, from)[k].0
                < spans_from(p, from)[k].1 <= p.len() by {
                if k > 0 {
                    assert(spans_from(p, from)[k] == rest[k - 1]);
                }
            }
        }
    }
}

/// Every component is a non-empty stretch of the path.
pub proof fn lemma_spans_bounds(p: Seq<char>, k: int)
    requires
        0 <= k < spans(p).len(),
    ensures
        0 <= spans(p)[k].0 < spans(p)[k].1 <= p.len(),
{
    if p.len() > 0 && p[0] == '/' {
        lemma_spans_from_bounds(p, 1);
        if k > 0 {
            assert(spans(p)[k] == spans_from(p, 1)[k - 1]);
        }
    } else {
        lemma_spans_from_bounds(p, 0);
    }
}

/// Where the components of `p` stand.
pub fn find_spans(p: &[char]) -> (r: Vec<(usize, usize)>)
    ensures
        as_ints(r@) == spans(p@),
{
    let mut out: Vec<(usize, usize)> = Vec::new();
    let mut from: usize = 0;
    if p.len() > 0 && p[0] == '/' {
        out.push((0, 1));
        from = 1;
    }
    assert(as_ints(out@) + spans_from(p@, from as int) =~= spans(p@));
    while from < p.len()
        invariant
            from <= p@.len(),
            as_ints(out@) + spans_from(p@, from as int) =~= spans(p@),
        decreases p@.len() - from,
    {
        let e = text::find_char(p, '/', from);
        let ghost before = out@;
        if from < e && !(from > 0 && e == from + 1 && p[from] == '.') {
            out.push((from, e));
            assert(as_ints(out@) =~= as_ints(before).push((from as int, e as int)));
        }
        if e < p.len() {
            from = e + 1;
        } else {
            from = e;
        }
    }
    out
}

/// The components of `p`, as slices of it.
pub fn find_components<'a>(p: &'a [char]) -> (r: Vec<&'a [char]>)
    ensures
        text::slices(r@) == components(p@),
{
    let sp = find_spans(p);
    let mut out: Vec<&'a [char]> = Vec::new();
    let mut i: usize = 0;
    while i < sp.len()
        invariant
            i <= sp@.len(),
            as_ints(sp@) == spans(p@),
            text::slices(out@) =~= components(p@).take(i as int),
        decreases sp@.len() - i,
    {
        proof {
            lemma_spans_bounds(p@, i as int);
            assert(as_ints(sp@)[i as int] == (sp@[i as int].0 as int, sp@[i as int].1 as int));
        }
        let (a, b) = sp[i];
        let piece = slice_subrange(p, a, b);
        let ghost before = out@;
        out.push(piece);
        assert(text::slices(out@) =~= text::slices(before).push(piece@));
        assert(piece@ == components(p@)[i as int]);
        i += 1;
    }
    out
}

/// Do `a` and `b` lie in the same directory?
pub fn same_parent(a: &[char], b: &[char]) -> (r: bool)
    ensures
        r == (parent_components(a@) == parent_components(b@)),
{
    let x = find_components(a);
    let y = find_components(b);
    assert(text::slices(x@).len() == x@.len());
    assert(text::slices(y@).len() == y@.len());
    let nx = x.len() == 0 || text::is(x[x.len() - 1], "/");
    let ny = y.len() == 0 || text::is(y[y.len() - 1], "/");
    proof {
        reveal_strlit("/");
        assert("/"@ =~= seq!['/']);
        if x@.len() > 0 {
            assert(text::slices(x@).last() == x@[x@.len() - 1]@);
        }
        if y@.len() > 0 {
            assert(text::slices(y@).last() == y@[y@.len() - 1]@);
        }
        assert(nx == (parent_components(a@) is None));
        assert(ny == (parent_components(b@) is None));
    }
    if nx || ny {
        return nx && ny;
    }
    if x.len() != y.len() {
        assert(components(a@).drop_last().len() != components(b@).drop_last().len());
        return false;
    }
    let mut i: usize = 0;
    while i + 1 < x.len()
        invariant
            x@.len() == y@.len(),
            x@.len() > 0,
            i < x@.len(),
            text::slices(x@) == components(a@),
            text::slices(y@) == components(b@),
            parent_components(a@) == Some(components(a@).drop_last()),
            parent_components(b@) == Some(components(b@).drop_last()),
            forall|k: int| 0 <= k < i ==> components(a@)[k] == components(b@)[k],
        decreases x@.len() - i,
    {
        assert(text::slices(x@)[i as int] == x@[i as int]@);
        assert(text::slices(y@)[i as int] == y@[i as int]@);
        if !text::same(x[i], y[i]) {
            assert(components(a@).drop_last()[i as int] != components(b@).drop_last()[i as int]);
            return false;
        }
        i += 1;
    }
    assert(components(a@).drop_last() =~= components(b@).drop_last());
    true
}

/// The directory that holds `p`, as text.
pub fn parent<'a>(p: &'a [char]) -> (r: &'a [char])
    ensures
        r@ == parent_text(p@),
        p@.len() > 0 ==> r@.len() < p@.len(),
{
    let sp = find_spans(p);
    assert(as_ints(sp@).len() == sp@.len());
    if sp.len() < 2 {
        let r = slice_subrange(p, 0, 0);
        assert(r@ =~= Seq::<char>::empty());
        return r;
    }
    proof {
        let n = sp@.len() as int;
        lemma_spans_bounds(p@, n - 2);
        assert(as_ints(sp@)[n - 2] == (sp@[n - 2].0 as int, sp@[n - 2].1 as int));
        lemma_parent_shorter(p@);
    }
    let e = sp[sp.len() - 2].1;
    let r = slice_subrange(p, 0, e);
    assert(r@ =~= p@.take(e as int));
    r
}

proof fn lemma_spans_from_order(p: Seq<char>, from: int, k: int)
    requires
        0 <= from,
        0 <= k,
        k + 1 < spans_from(p, from).len(),
    ensures
        spans_from(p, from)[k].1 <= spans_from(p, from)[k + 1].0,
    decreases p.len() + 1 - from,
{
    text::lemma_find_from(p, '/', from);
    let e = text::find_from(p, '/', from);
    let rest = spans_from(p, e + 1);
    if counts(p, from, e) {
        if k == 0 {
            lemma_spans_from_bounds(p, e + 1);
            assert(spans_from(p, from)[1] == rest[0]);
        } else {
            lemma_spans_from_order(p, e + 1, k - 1);
            assert(spans_from(p, from)[k] == rest[k - 1]);
            assert(spans_from(p, from)[k + 1] == rest[k]);
        }
    } else {
        lemma_spans_from_order(p, e + 1, k);
    }
}

/// A parent directory's text is shorter than the path.
pub proof fn lemma_parent_shorter(p: Seq<char>)
    requires
        p.len() > 0,
    ensures
        parent_text(p).len() < p.len(),
{
    let c = spans(p);
    if c.len() >= 2 {
        let n = c.len() as int;
        lemma_spans_bounds(p, n - 1);
        lemma_spans_bounds(p, n - 2);
        if p[0] == '/' {
            let rest = spans_from(p, 1);
            if n == 2 {
                lemma_spans_from_bounds(p, 1);
                assert(c[1] == rest[0]);
            } else {
                lemma_spans_from_order(p, 1, n - 3);
                assert(c[n - 1] == rest[n - 2]);
                assert(c[n - 2] == rest[n - 3]);
            }
        } else {
            lemma_spans_from_order(p, 0, n - 2);
        }
    }
}

/// The last component of `p`, unless it is the root, `.` or `..`.
pub fn name_of<'a>(p: &'a [char]) -> (r: Option<&'a [char]>)
    ensures
        match r {
            Some(n) => file_name(p@) == Some(n@),
            None => file_name(p@) is None,
        },
{
    let c = find_components(p);
    assert(text::slices(c@).len() == c@.len());
    if c.len() == 0 {
        return None;
    }
    let last = c[c.len() - 1];
    proof {
        assert(text::slices(c@).last() == last@);
        reveal_strlit("/");
        reveal_strlit(".");
        reveal_strlit("..");
        assert("/"@ =~= seq!['/']);
        assert("."@ =~= seq!['.']);
        assert(".."@ =~= seq!['.', '.']);
    }
    if text::is(last, "/") || text::is(last, ".") || text::is(last, "..") {
        None
    } else {
        Some(last)
    }
}

/// The file name of `p` without its extension.
pub fn stem<'a>(p: &'a [char]) -> (r: Option<&'a [char]>)
    ensures
        match r {
            Some(n) => file_stem(p@) == Some(n@),
            None => file_stem(p@) is None,
        },
{
    match name_of(p) {
        None => None,
        Some(n) => {
            proof {
                text::lemma_last_before(n@, '.', n@.len() as int);
            }
            match text::rsplit_once(n, '.') {
                None => Some(n),
                Some((a, _)) => if a.len() == 0 {
                    Some(n)
                } else {
                    Some(a)
                },
            }
        },
    }
}

/// The extension of `p`'s file name.
pub fn ext<'a>(p: &'a [char]) -> (r: Option<&'a [char]>)
    ensures
        match r {
            Some(n) => extension(p@) == Some(n@),
            None => extension(p@) is None,
        },
{
    match name_of(p) {
        None => None,
        Some(n) => {
            proof {
                text::lemma_last_before(n@, '.', n@.len() as int);
            }
            match text::rsplit_once(n, '.') {
                None => None,
                Some((a, b)) => if a.len() == 0 {
                    None
                } else {
                    Some(b)
                },
            }
        },
    }
}

/// Is the stem of `p` the text `s`?
pub fn stem_is(p: &str, s: &str) -> (r: bool)
    ensures
        r == (file_stem(p@) == Some(s@)),
{
    let cs = text::chars_of(p);
    match stem(cs.as_slice()) {
        None => false,
        Some(x) => text::is(x, s),
    }
}

/// `tail` below the directory `dir`; `tail` itself where `dir` is empty.
pub open spec fn below(dir: Seq<char>, tail: Seq<char>) -> Seq<char> {
    if dir.len() == 0 {
        tail
    } else {
        dir + seq!['/'] + tail
    }
}

pub fn join_rel(dir: &[char], tail: &[char]) -> (r: String)
    ensures
        r@ == below(dir@, tail@),
{
    if dir.len() == 0 {
        return text::string_of(tail);
    }
    let mut out: String = text::string_of(dir);
    out.push('/');
    text::push_all(&mut out, tail);
    assert(dir@.push('/') =~= dir@ + seq!['/']);
    out
}

proof fn lemma_last_span(p: Seq<char>, from: int, t: int)
    requires
        0 <= from <= t,
        t + 2 <= p.len(),
        forall|k: int| t <= k < p.len() ==> p[k] != '/',
    ensures
        spans_from(p, from).len() > 0,
        spans_from(p, from).last().0 <= t,
        spans_from(p, from).last().1 == p.len(),
    decreases p.len() - from,
{
    text::lemma_find_from(p, '/', from);
    let e = text::find_from(p, '/', from);
    if e < p.len() {
        lemma_last_span(p, e + 1, t);
    }
}

/// A path that finishes with a dot and an extension has that extension, unless
/// its file name is nothing else.
pub proof fn lemma_extension(p: Seq<char>, ext: Seq<char>)
    requires
        ext.len() > 0,
        !ext.contains('/'),
        !ext.contains('.'),
        text::finishes_with(p, seq!['.'] + ext),
    ensures
        extension(p) is None || extension(p) == Some(ext),
{
    let suffix = seq!['.'] + ext;
    let n = p.len() as int;
    let t = n - suffix.len();
    assert forall|k: int| t <= k < n implies p[k] == suffix[k - t] by {
        assert(p.skip(t)[k - t] == p[k]);
    }
    assert forall|k: int| t <= k < n implies p[k] != '/' by {
        if k > t {
            assert(ext[k - t - 1] == p[k]);
        }
    }
    let c = spans(p);
    if p[0] == '/' {
        lemma_last_span(p, 1, t);
        assert(c.last() == spans_from(p, 1).last());
    } else {
        lemma_last_span(p, 0, t);
    }
    let a = c.last().0;
    lemma_spans_bounds(p, c.len() - 1);
    let name = p.subrange(a, n);
    assert(components(p).last() == name);
    assert(name[t - a] == '.');
    assert(name.len() >= 2);
    assert(name[name.len() - 1] == p[n - 1]);
    assert(ext[ext.len() - 1] == p[n - 1]);
    assert(ext.contains(ext[ext.len() - 1]));
    assert(!is_root(name));
    assert(name != seq!['.', '.']);
    assert(file_name(p) == Some(name));
    let m = name.len() as int;
    text::lemma_last_before(name, '.', m);
    let i = text::last_before(name, '.', m);
    if i > t - a {
        assert(name[i] == p[a + i]);
        assert(ext[a + i - t - 1] == p[a + i]);
        assert(ext.contains('.'));
    }
    assert(i == t - a);
    if i > 0 {
        assert(name.skip(i + 1) =~= ext);
    }
}

} // verus!
