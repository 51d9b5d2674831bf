//! Which directories a Python file adds to its search path, and which files of a
//! tree are indexed.

use vstd::prelude::*;

use crate::discovery;
use crate::discovery::{LanguageTable, WalkEntry};
use crate::import_laws;
use crate::jvm_package::SourceFile;
use crate::path_laws;
use crate::paths;
use crate::pysyspath;
use crate::text;

verus! {

// ---------------------------------------------------------------------------
// Up and down from the file
// ---------------------------------------------------------------------------

/// Going up `k` levels takes the last `k` components off; above the project's
/// root there is nothing.
pub proof fn lemma_climbed(dir: Seq<Seq<char>>, k: nat)
    requires
        path_laws::all_clean(dir),
    ensures
        k <= dir.len() ==> pysyspath::climbed(path_laws::slashes(dir), k) == Some(
            path_laws::slashes(dir.take(dir.len() - k)),
        ),
        k > dir.len() ==> pysyspath::climbed(path_laws::slashes(dir), k) is None,
    decreases k,
{
    let p = path_laws::slashes(dir);
    path_laws::lemma_slashes_len(dir);
    if k == 0 {
        assert(dir.take(dir.len() as int) =~= dir);
    } else if dir.len() == 0 {
        assert(text::last_before(p, '/', 0) == -1);
        assert(text::cut_at_last(p, '/') is None);
    } else {
        let less = dir.drop_last();
        assert(path_laws::all_clean(less)) by {
            assert(forall|i: int| 0 <= i < less.len() ==> less[i] == dir[i]);
        }
        import_laws::lemma_cut(dir);
        lemma_climbed(less, (k - 1) as nat);
        if dir.len() == 1 {
            assert(path_laws::slashes(less) =~= seq![]);
        }
        if k <= dir.len() {
            assert(less.take(less.len() - (k - 1)) =~= dir.take(dir.len() - k));
        }
    }
}

/// The directories that are named are walked down one after the other.
pub proof fn lemma_descended(dir: Seq<Seq<char>>, segs: Seq<Seq<char>>)
    requires
        path_laws::all_clean(dir),
        path_laws::all_clean(segs),
    ensures
        pysyspath::descended(path_laws::slashes(dir), segs) == path_laws::slashes(dir + segs),
    decreases segs.len(),
{
    if segs.len() == 0 {
        assert(dir + segs =~= dir);
    } else {
        assert(path_laws::is_clean(segs[0]));
        let next = dir.push(segs[0]);
        let rest = segs.drop_first();
        assert(path_laws::all_clean(next));
        assert(path_laws::all_clean(rest)) by {
            assert(forall|i: int| 0 <= i < rest.len() ==> rest[i] == segs[i + 1]);
        }
        path_laws::lemma_below(dir, segs[0]);
        lemma_descended(next, rest);
        assert(next + rest =~= dir + segs);
    }
}

/// The root that an argument adds lies as many levels up as it climbs, and down
/// along the directories that it names; one that climbs above the project's
/// root adds none.
pub proof fn lemma_root_of(dir: Seq<Seq<char>>, arg: Seq<char>)
    requires
        path_laws::all_clean(dir),
        path_laws::all_clean(pysyspath::segments_from(arg, 0)),
    ensures
        pysyspath::climb(arg) <= dir.len() ==> pysyspath::root_of(path_laws::slashes(dir), arg)
            == Some(
            path_laws::slashes(
                dir.take(dir.len() - pysyspath::climb(arg)) + pysyspath::segments_from(arg, 0),
            ),
        ),
        pysyspath::climb(arg) > dir.len() ==> pysyspath::root_of(path_laws::slashes(dir), arg)
            is None,
{
    let k = pysyspath::climb(arg);
    lemma_climbed(dir, k);
    if k <= dir.len() {
        let up = dir.take(dir.len() - k);
        assert(path_laws::all_clean(up)) by {
            assert(forall|i: int| 0 <= i < up.len() ==> up[i] == dir[i]);
        }
        lemma_descended(up, pysyspath::segments_from(arg, 0));
    }
}

// ---------------------------------------------------------------------------
// How far an argument climbs
// ---------------------------------------------------------------------------

/// `p` stands at `i`, and `not` does not stand right behind it.
pub open spec fn stands_free(s: Seq<char>, p: Seq<char>, not: Seq<char>, i: int) -> bool {
    text::stands_at(s, p, i) && !(not.len() > 0 && text::stands_at(s, not, i + p.len()))
}

proof fn lemma_count(s: Seq<char>, p: Seq<char>, not: Seq<char>, from: int, at: Set<int>)
    requires
        p.len() > 0,
        0 <= from <= s.len(),
        forall|i: int| #[trigger] at.contains(i) <==> from <= i && stands_free(s, p, not, i),
    ensures
        at.finite(),
        pysyspath::count_from(s, p, not, from) == at.len(),
    decreases s.len() - from,
{
    if from == s.len() {
        assert(at =~= Set::empty());
    } else {
        let rest = at.remove(from);
        assert forall|i: int| #[trigger] rest.contains(i) <==> from + 1 <= i && stands_free(
            s,
            p,
            not,
            i,
        ) by {}
        lemma_count(s, p, not, from + 1, rest);
        if at.contains(from) {
            assert(rest.insert(from) =~= at);
            assert(at.len() == rest.len() + 1);
        } else {
            assert(rest =~= at);
        }
    }
}

/// Without an index into `parents`, each `.parent` and each `dirname(` climbs one
/// level, but the first, which is the file's own directory.
pub proof fn lemma_climb_by_parents(arg: Seq<char>, a: Set<int>, b: Set<int>)
    requires
        !text::occurs_in(arg, "parents["@),
        forall|i: int| #[trigger]
            a.contains(i) <==> 0 <= i && text::stands_at(arg, ".parent"@, i) && !text::stands_at(
                arg,
                "s"@,
                i + 7,
            ),
        forall|i: int| #[trigger] b.contains(i) <==> 0 <= i && text::stands_at(arg, "dirname("@, i),
    ensures
        a.len() + b.len() == 0 ==> pysyspath::climb(arg) == 0,
        a.len() + b.len() > 0 ==> pysyspath::climb(arg) == a.len() + b.len() - 1,
{
    reveal_strlit(".parent");
    reveal_strlit("dirname(");
    reveal_strlit("s");
    text::lemma_seek_from(arg, "parents["@, 0);
    let none = Seq::<char>::empty();
    assert forall|i: int| #[trigger] a.contains(i) <==> 0 <= i && stands_free(
        arg,
        ".parent"@,
        "s"@,
        i,
    ) by {}
    assert forall|i: int| #[trigger] b.contains(i) <==> 0 <= i && stands_free(
        arg,
        "dirname("@,
        none,
        i,
    ) by {}
    lemma_count(arg, ".parent"@, "s"@, 0, a);
    lemma_count(arg, "dirname("@, none, 0, b);
}

pub open spec fn all_digits(d: Seq<char>) -> bool {
    forall|i: int| 0 <= i < d.len() ==> '0' <= #[trigger] d[i] <= '9'
}

proof fn lemma_leading_digits(d: Seq<char>, rest: Seq<char>)
    requires
        all_digits(d),
        rest.len() > 0 ==> !('0' <= rest[0] <= '9'),
    ensures
        pysyspath::leading_digits(d + rest) == d,
    decreases d.len(),
{
    let s = d + rest;
    if d.len() == 0 {
        assert(s =~= rest);
        assert(pysyspath::leading_digits(s) =~= d);
    } else {
        assert(s[0] == d[0]);
        assert('0' <= d[0] <= '9');
        let less = d.drop_first();
        assert(all_digits(less)) by {
            assert(forall|i: int| 0 <= i < less.len() ==> less[i] == d[i + 1]);
        }
        assert(s.drop_first() =~= less + rest);
        lemma_leading_digits(less, rest);
        assert(pysyspath::leading_digits(s) =~= d);
    }
}

/// An index into `parents` is the number of levels.
pub proof fn lemma_climb_by_index(a: Seq<char>, d: Seq<char>, rest: Seq<char>)
    requires
        d.len() > 0,
        all_digits(d),
        rest.len() > 0 ==> !('0' <= rest[0] <= '9'),
        pysyspath::number(d) <= usize::MAX,
        forall|i: int|
            0 <= i < a.len() ==> !#[trigger] text::stands_at(
                a + "parents["@ + d + rest,
                "parents["@,
                i,
            ),
    ensures
        pysyspath::climb(a + "parents["@ + d + rest) == pysyspath::number(d),
{
    reveal_strlit("parents[");
    let arg = a + "parents["@ + d + rest;
    let at = a.len() as int;
    assert(arg.subrange(at, at + 8) =~= "parents["@);
    assert(text::stands_at(arg, "parents["@, at));
    text::lemma_seek_from(arg, "parents["@, 0);
    let e = text::seek_from(arg, "parents["@, 0)->Some_0;
    if e < at {
        assert(!text::stands_at(arg, "parents["@, e));
    }
    assert(e == at);
    assert(arg.skip(at + 8) =~= d + rest);
    lemma_leading_digits(d, rest);
}

/// Digits spell their decimal number.
pub proof fn lemma_number(n: nat)
    ensures
        pysyspath::number(text::decimal(n)) == n,
    decreases n,
{
    if n < 10 {
        let d = text::decimal(n);
        assert(d.drop_last() =~= seq![]);
        assert(pysyspath::number(Seq::<char>::empty()) == 0);
        assert(pysyspath::number(d.drop_last()) == 0);
    } else {
        let d = text::decimal(n);
        assert(d.drop_last() =~= text::decimal(n / 10));
        lemma_number(n / 10);
    }
}

// ---------------------------------------------------------------------------
// The directories that an argument names
// ---------------------------------------------------------------------------

pub open spec fn no_quotes(s: Seq<char>) -> bool {
    forall|i: int| 0 <= i < s.len() ==> #[trigger] s[i] != '"' && s[i] != '\''
}

proof fn lemma_segments_shift(p: Seq<char>, s: Seq<char>, from: int)
    requires
        0 <= from <= s.len(),
    ensures
        pysyspath::segments_from(p + s, p.len() + from) == pysyspath::segments_from(s, from),
    decreases s.len() - from,
{
    let q = p + s;
    if from < s.len() {
        let c = s[from];
        assert(q[p.len() + from] == c);
        if c == '"' || c == '\'' {
            text::lemma_find_from_shift(p, s, c, from + 1);
            text::lemma_find_from(s, c, from + 1);
            let e = text::find_from(s, c, from + 1);
            if e < s.len() {
                assert(q.subrange(p.len() + from + 1, p.len() + e) =~= s.subrange(from + 1, e));
                lemma_segments_shift(p, s, e + 1);
            } else {
                lemma_segments_shift(p, s, from + 1);
            }
        } else {
            lemma_segments_shift(p, s, from + 1);
        }
    }
}

proof fn lemma_skip_plain(a: Seq<char>, s: Seq<char>, from: int)
    requires
        0 <= from <= a.len(),
        no_quotes(a),
    ensures
        pysyspath::segments_from(a + s, from) == pysyspath::segments_from(s, 0),
    decreases a.len() - from,
{
    if from < a.len() {
        assert((a + s)[from] == a[from]);
        lemma_skip_plain(a, s, from + 1);
    } else {
        lemma_segments_shift(a, s, 0);
    }
}

/// The first literal of an argument is a directory, unless it is empty, absolute
/// or climbs; the others follow from what stands behind it.
pub proof fn lemma_segments(a: Seq<char>, q: char, lit: Seq<char>, rest: Seq<char>)
    requires
        no_quotes(a),
        q == '"' || q == '\'',
        !lit.contains(q),
    ensures
        lit.len() == 0 || lit[0] == '/' || text::occurs_in(lit, ".."@)
            ==> pysyspath::segments_from(a + seq![q] + lit + seq![q] + rest, 0)
            == pysyspath::segments_from(rest, 0),
        lit.len() > 0 && lit[0] != '/' && lit.last() != '/' && !text::occurs_in(lit, ".."@)
            ==> pysyspath::segments_from(a + seq![q] + lit + seq![q] + rest, 0) == seq![lit]
            + pysyspath::segments_from(rest, 0),
        pysyspath::segments_from(a, 0).len() == 0,
{
    reveal_strlit("/");
    let lead = seq![q] + lit + seq![q];
    let s = lead + rest;
    assert(a + seq![q] + lit + seq![q] + rest =~= a + s);
    lemma_skip_plain(a, s, 0);
    let none = Seq::<char>::empty();
    assert(a + none =~= a);
    lemma_skip_plain(a, none, 0);
    assert(s[0] == q);
    text::lemma_find_from(s, q, 1);
    let e = text::find_from(s, q, 1);
    let at = lit.len() as int + 1;
    assert(s[at] == q);
    if e < at {
        assert(lit[e - 1] == q);
        assert(lit.contains(q));
    }
    assert(e == at);
    assert(s.subrange(1, at) =~= lit);
    lemma_segments_shift(lead, rest, 0);
    assert(lead.len() == at + 1);
    if lit.len() > 0 && lit.last() != '/' {
        assert("/"@[0] == '/');
        if "/"@.contains(lit.last()) {
            let k = choose|k: int| 0 <= k < "/"@.len() && "/"@[k] == lit.last();
        }
        assert(text::drop_back(lit, "/"@) == lit);
    }
}

// ---------------------------------------------------------------------------
// The roots of a file
// ---------------------------------------------------------------------------

/// The argument is anchored at the file and adds the root.
pub open spec fn adds(dir: Seq<char>, arg: Seq<char>, r: Seq<char>) -> bool {
    text::occurs_in(arg, "__file__"@) && pysyspath::root_of(dir, arg) == Some(r) && r.len() > 0
}

/// The roots of a list of arguments are those that an argument that is anchored
/// at the file adds, but for the project's own root.
#[verifier::rlimit(40)]
pub proof fn lemma_roots(
    dir: Seq<char>,
    args: Seq<Seq<char>>,
    roots: Seq<Seq<char>>,
    r: Seq<char>,
)
    ensures
        pysyspath::roots_from(dir, args, roots).contains(r) <==> roots.contains(r) || exists|i: int|
            0 <= i < args.len() && adds(dir, #[trigger] args[i], r),
    decreases args.len(),
{
    if args.len() > 0 {
        let rest = args.drop_first();
        let more = if text::occurs_in(args[0], "__file__"@) {
            pysyspath::root_of(dir, args[0])
        } else {
            None
        };
        let next = match more {
            Some(x) => if x.len() > 0 && !roots.contains(x) {
                roots.push(x)
            } else {
                roots
            },
            None => roots,
        };
        lemma_roots(dir, rest, next, r);
        assert(next.contains(r) <==> roots.contains(r) || adds(dir, args[0], r)) by {
            if next.contains(r) {
                let k = choose|k: int| 0 <= k < next.len() && next[k] == r;
                if k < roots.len() {
                    assert(roots[k] == r);
                }
            }
            if roots.contains(r) {
                let k = choose|k: int| 0 <= k < roots.len() && roots[k] == r;
                assert(next[k] == r);
            } else if adds(dir, args[0], r) {
                assert(next[next.len() - 1] == r);
            }
        }
        assert(forall|i: int| 0 <= i < rest.len() ==> rest[i] == args[i + 1]);
        if exists|i: int| 0 <= i < rest.len() && adds(dir, #[trigger] rest[i], r) {
            let i = choose|i: int| 0 <= i < rest.len() && adds(dir, #[trigger] rest[i], r);
            assert(adds(dir, args[i + 1], r));
        }
        if exists|i: int| 0 <= i < args.len() && adds(dir, #[trigger] args[i], r) {
            let i = choose|i: int| 0 <= i < args.len() && adds(dir, #[trigger] args[i], r);
            if i > 0 {
                assert(adds(dir, rest[i - 1], r));
            }
        }
    }
}

/// How many parentheses more are opened than closed in a part of a text.
pub open spec fn depth(s: Seq<char>, from: int, to: int) -> int
    decreases to - from,
{
    if from >= to {
        0
    } else {
        depth(s, from, to - 1) + (if s[to - 1] == '(' {
            1int
        } else if s[to - 1] == ')' {
            -1int
        } else {
            0int
        })
    }
}

proof fn lemma_depth_front(s: Seq<char>, from: int, to: int)
    requires
        from < to,
    ensures
        depth(s, from, to) == depth(s, from + 1, to) + (if s[from] == '(' {
            1int
        } else if s[from] == ')' {
            -1int
        } else {
            0int
        }),
    decreases to - from,
{
    if from + 1 < to {
        lemma_depth_front(s, from, to - 1);
    } else {
        assert(depth(s, from, from) == 0);
    }
}

/// The parenthesis that closes a call is the first behind whose place more are
/// closed than opened.
pub proof fn lemma_closing(s: Seq<char>, at: int, d: nat, e: int)
    requires
        0 <= at <= e < s.len(),
        d > 0,
        depth(s, at, e + 1) + d == 0,
        forall|j: int| at <= j <= e ==> #[trigger] depth(s, at, j) + d > 0,
    ensures
        pysyspath::closing(s, at, d) == Some(e),
    decreases s.len() - at,
{
    let step = if s[at] == '(' {
        1int
    } else if s[at] == ')' {
        -1int
    } else {
        0int
    };
    lemma_depth_front(s, at, at + 1);
    assert(depth(s, at + 1, at + 1) == 0);
    if e == at {
        assert(step + d == 0);
    } else {
        assert(depth(s, at, at + 1) + d > 0);
        lemma_depth_front(s, at, e + 1);
        assert forall|j: int| at + 1 <= j <= e implies #[trigger] depth(s, at + 1, j) + (d + step)
            > 0 by {
            if j > at {
                lemma_depth_front(s, at, j);
                assert(depth(s, at, j) + d > 0);
            }
        }
        lemma_closing(s, at + 1, (d + step) as nat, e);
    }
}

/// The calls of a text are found one after the other: the first begins where the
/// marker first stands, its argument runs up to the parenthesis that closes it,
/// and the search goes on from there.
pub proof fn lemma_calls(s: Seq<char>, marker: Seq<char>, from: int, h: int, e: int)
    requires
        0 <= from <= h,
        marker.len() > 0,
        text::stands_at(s, marker, h),
        forall|k: int| from <= k < h ==> !#[trigger] text::stands_at(s, marker, k),
        h + marker.len() < e < s.len(),
        depth(s, (h + marker.len()) as int, e + 1) + 1 == 0,
        forall|j: int|
            h + marker.len() <= j <= e ==> #[trigger] depth(s, (h + marker.len()) as int, j) + 1
                > 0,
    ensures
        pysyspath::calls_from(s, marker, from) == seq![((h + marker.len()) as int, e)]
            + pysyspath::calls_from(s, marker, e),
{
    text::lemma_seek_from(s, marker, from);
    let open = (h + marker.len()) as int;
    lemma_closing(s, open, 1, e);
    let i = text::seek_from(s, marker, from)->Some_0;
    if i < h {
        assert(!text::stands_at(s, marker, i));
    }
    assert(i == h);
}

/// A text without the marker has no calls.
pub proof fn lemma_no_calls(s: Seq<char>, marker: Seq<char>, from: int)
    requires
        0 <= from <= s.len(),
        forall|k: int| from <= k ==> !#[trigger] text::stands_at(s, marker, k),
    ensures
        pysyspath::calls_from(s, marker, from).len() == 0,
{
    text::lemma_seek_from(s, marker, from);
}

proof fn lemma_merged(a: Seq<(int, int)>, b: Seq<(int, int)>, x: (int, int))
    ensures
        pysyspath::merged(a, b).contains(x) <==> a.contains(x) || b.contains(x),
    decreases a.len() + b.len(),
{
    let all = pysyspath::merged(a, b);
    if a.len() == 0 {
        assert(!a.contains(x));
    } else if b.len() == 0 {
        assert(!b.contains(x));
    } else if a[0].0 <= b[0].0 {
        let rest = a.drop_first();
        let m = pysyspath::merged(rest, b);
        lemma_merged(rest, b, x);
        lemma_cons(a[0], rest, x);
        assert(seq![a[0]] + rest =~= a);
        lemma_cons(a[0], m, x);
    } else {
        let rest = b.drop_first();
        let m = pysyspath::merged(a, rest);
        lemma_merged(a, rest, x);
        lemma_cons(b[0], rest, x);
        assert(seq![b[0]] + rest =~= b);
        lemma_cons(b[0], m, x);
    }
}

proof fn lemma_cons<T>(y: T, s: Seq<T>, x: T)
    ensures
        (seq![y] + s).contains(x) <==> y == x || s.contains(x),
{
    let all = seq![y] + s;
    if all.contains(x) {
        let k = choose|k: int| 0 <= k < all.len() && all[k] == x;
        if k > 0 {
            assert(s[k - 1] == x);
        }
    }
    if s.contains(x) {
        let k = choose|k: int| 0 <= k < s.len() && s[k] == x;
        assert(all[k + 1] == x);
    }
    assert(all[0] == y);
}

/// Where no insertion leads out of the project, all of them count; an addition
/// at the end counts where neither it nor one before it leads out.
pub proof fn lemma_counting_calls(dir: Seq<char>, s: Seq<char>, k: int)
    requires
        forall|i: int|
            0 <= i < pysyspath::calls_from(s, "sys.path.insert("@, 0).len()
                ==> !pysyspath::leads_outside(
                dir,
                pysyspath::argument(
                    s,
                    #[trigger] pysyspath::calls_from(s, "sys.path.insert("@, 0)[i],
                ),
            ),
    ensures
        0 <= k < pysyspath::calls_from(s, "sys.path.insert("@, 0).len()
            ==> pysyspath::counting_calls(dir, s).contains(
            pysyspath::calls_from(s, "sys.path.insert("@, 0)[k],
        ),
        0 <= k < pysyspath::calls_from(s, "sys.path.append("@, 0).len() && (forall|i: int|
            0 <= i <= k ==> !pysyspath::leads_outside(
                dir,
                pysyspath::argument(
                    s,
                    #[trigger] pysyspath::calls_from(s, "sys.path.append("@, 0)[i],
                ),
            )) ==> pysyspath::counting_calls(dir, s).contains(
            pysyspath::calls_from(s, "sys.path.append("@, 0)[k],
        ),
{
    let inserts = pysyspath::calls_from(s, "sys.path.insert("@, 0);
    let appends = pysyspath::calls_from(s, "sys.path.append("@, 0);
    lemma_inside_all(dir, s, inserts, inserts.len() as int);
    let some = pysyspath::calls_inside(dir, s, appends);
    if 0 <= k < inserts.len() {
        assert(inserts.contains(inserts[k]));
        lemma_merged(inserts, some, inserts[k]);
    }
    if 0 <= k < appends.len() && (forall|i: int|
        0 <= i <= k ==> !pysyspath::leads_outside(
            dir,
            pysyspath::argument(s, #[trigger] appends[i]),
        )) {
        lemma_inside_all(dir, s, appends, k + 1);
        assert(some[k] == appends[k]);
        assert(some.contains(appends[k]));
        lemma_merged(inserts, some, appends[k]);
    }
}

proof fn lemma_inside_all(dir: Seq<char>, s: Seq<char>, calls: Seq<(int, int)>, n: int)
    requires
        0 <= n <= calls.len(),
        forall|i: int|
            0 <= i < n ==> !pysyspath::leads_outside(
                dir,
                pysyspath::argument(s, #[trigger] calls[i]),
            ),
    ensures
        pysyspath::calls_inside(dir, s, calls).len() >= n,
        forall|i: int|
            0 <= i < n ==> #[trigger] pysyspath::calls_inside(dir, s, calls)[i] == calls[i],
    decreases n,
{
    if n > 0 {
        assert(!pysyspath::leads_outside(dir, pysyspath::argument(s, calls[0])));
        let rest = calls.drop_first();
        assert(forall|i: int| 0 <= i < rest.len() ==> rest[i] == calls[i + 1]);
        lemma_inside_all(dir, s, rest, n - 1);
        let all = pysyspath::calls_inside(dir, s, calls);
        let less = pysyspath::calls_inside(dir, s, rest);
        assert forall|i: int| 0 <= i < n implies #[trigger] all[i] == calls[i] by {
            if i > 0 {
                assert(all[i] == less[i - 1]);
            }
        }
    }
}

/// The directory of a file is its path without the last component.
pub proof fn lemma_directory_of(parts: Seq<Seq<char>>)
    requires
        path_laws::all_clean(parts),
        parts.len() > 0,
    ensures
        pysyspath::directory_of(path_laws::slashes(parts)) == path_laws::slashes(
            parts.drop_last(),
        ),
{
    import_laws::lemma_cut(parts);
    if parts.len() == 1 {
        assert(path_laws::slashes(parts.drop_last()) =~= seq![]);
    }
}

/// A file has roots of its own exactly where it is a Python file that speaks of
/// `sys.path` and adds some; the last file of a path decides.
#[verifier::rlimit(40)]
pub proof fn lemma_roots_by_file(files: Seq<SourceFile>, p: Seq<char>)
    ensures
        pysyspath::roots_by_file(files).contains_key(p) <==> exists|i: int|
            0 <= i < files.len() && (#[trigger] files[i]).path@ == p && paths::extension(p) == Some(
                "py"@,
            ) && text::occurs_in(files[i].source@, "sys.path"@) && pysyspath::roots_of(
                p,
                files[i].source@,
            ).len() > 0,
        forall|i: int|
            0 <= i < files.len() && (#[trigger] files[i]).path@ == p && pysyspath::adds_roots(
                files[i],
            ) && (forall|j: int| i < j < files.len() ==> (#[trigger] files[j]).path@ != p)
                ==> pysyspath::roots_by_file(files)[p] == pysyspath::roots_of(p, files[i].source@),
    decreases files.len(),
{
    if files.len() > 0 {
        let less = files.drop_last();
        let n = files.len() - 1;
        let f = files.last();
        lemma_roots_by_file(less, p);
        assert(forall|i: int| 0 <= i < less.len() ==> less[i] == files[i]);
        let all = pysyspath::roots_by_file(files);
        let init = pysyspath::roots_by_file(less);
        if all.contains_key(p) {
            if init.contains_key(p) {
                let i = choose|i: int|
                    0 <= i < less.len() && (#[trigger] less[i]).path@ == p && paths::extension(p)
                        == Some("py"@) && text::occurs_in(less[i].source@, "sys.path"@)
                        && pysyspath::roots_of(p, less[i].source@).len() > 0;
                assert(files[i] == less[i]);
            } else {
                assert(files[n].path@ == p);
            }
        }
        if exists|i: int|
            0 <= i < files.len() && (#[trigger] files[i]).path@ == p && paths::extension(p) == Some(
                "py"@,
            ) && text::occurs_in(files[i].source@, "sys.path"@) && pysyspath::roots_of(
                p,
                files[i].source@,
            ).len() > 0 {
            let i = choose|i: int|
                0 <= i < files.len() && (#[trigger] files[i]).path@ == p && paths::extension(p)
                    == Some("py"@) && text::occurs_in(files[i].source@, "sys.path"@)
                    && pysyspath::roots_of(p, files[i].source@).len() > 0;
            if i < n {
                assert(less[i] == files[i]);
            }
        }
        assert forall|i: int|
            0 <= i < files.len() && (#[trigger] files[i]).path@ == p && pysyspath::adds_roots(
                files[i],
            ) && (forall|j: int|
                i < j < files.len() ==> (#[trigger] files[j]).path@ != p) implies all[p]
            == pysyspath::roots_of(p, files[i].source@) by {
            if i < n {
                assert(files[n].path@ != p);
                assert(less[i] == files[i]);
                assert forall|j: int| i < j < less.len() implies (#[trigger] less[j]).path@ != p by {
                    assert(less[j] == files[j]);
                }
                assert(init[p] == pysyspath::roots_of(p, less[i].source@));
            }
        }
    }
}

// ---------------------------------------------------------------------------
// Which files are indexed
// ---------------------------------------------------------------------------

/// A file is indexed by its extension: as the language that the table has for
/// it, or unparsed where the extension is only listed.
pub proof fn lemma_recognized(
    t: LanguageTable,
    dir: Seq<Seq<char>>,
    stem: Seq<char>,
    ext: Seq<char>,
)
    requires
        import_laws::is_file(dir, stem, ext),
    ensures
        discovery::is_recognized(t, import_laws::file_at(dir, stem, ext)) <==> (
        t.languages@.contains_key(ext) || t.unparsed@.contains(ext)),
        t.languages@.contains_key(ext) ==> discovery::language_of(
            t,
            import_laws::file_at(dir, stem, ext),
        ) == Some(t.languages@[ext]),
        !t.languages@.contains_key(ext) ==> discovery::language_of(
            t,
            import_laws::file_at(dir, stem, ext),
        ) is None,
{
    import_laws::lemma_file_at(dir, stem, ext);
}

/// A walk yields exactly the files, not the directories, that are recognized.
pub proof fn lemma_chosen(t: LanguageTable, entries: Seq<WalkEntry>, n: nat, p: Seq<char>)
    requires
        n <= entries.len(),
    ensures
        discovery::chosen(t, entries, n).contains(p) <==> exists|i: int|
            0 <= i < n && (#[trigger] entries[i]).path@ == p && entries[i].is_file
                && discovery::is_recognized(t, p),
    decreases n,
{
    let all = discovery::chosen(t, entries, n);
    if n > 0 {
        let m = (n - 1) as nat;
        let init = discovery::chosen(t, entries, m);
        lemma_chosen(t, entries, m, p);
        if all.contains(p) {
            let k = choose|k: int| 0 <= k < all.len() && all[k] == p;
            if k < init.len() {
                assert(init[k] == p);
            } else {
                assert(entries[m as int].path@ == p);
            }
        }
        if exists|i: int|
            0 <= i < n && (#[trigger] entries[i]).path@ == p && entries[i].is_file
                && discovery::is_recognized(t, p) {
            let i = choose|i: int|
                0 <= i < n && (#[trigger] entries[i]).path@ == p && entries[i].is_file
                    && discovery::is_recognized(t, p);
            if i < m {
                let k = choose|k: int| 0 <= k < init.len() && init[k] == p;
                assert(all[k] == p);
            } else {
                assert(all[all.len() - 1] == p);
            }
        }
    } else {
        assert(!all.contains(p));
    }
}

/// A file of more than eight mebibytes is not read, and the reason says its
/// size; a smaller one is.
pub proof fn lemma_size_limit(len: u64)
    ensures
        discovery::too_large(len) is None <==> len <= 8 * 1024 * 1024,
        len > 8 * 1024 * 1024 ==> discovery::too_large(len) == Some(
            "too_large:"@ + text::decimal(len as nat),
        ),
{
}

/// A content hash is the FNV-1a hash of the bytes: the offset basis for none,
/// and for each further byte that byte mixed in and the whole multiplied by the
/// prime.
pub proof fn lemma_fnv(bytes: Seq<u8>, b: u8)
    ensures
        discovery::fnv(Seq::<u8>::empty()) == 0xcbf29ce484222325u64,
        discovery::fnv(bytes.push(b)) == (discovery::fnv(bytes) ^ (b as u64)).wrapping_mul(
            0x100000001b3u64,
        ),
{
    let more = bytes.push(b);
    assert(more.drop_last() =~= bytes);
    assert(more.last() == b);
}

/// The hash is written with sixteen hexadecimal digits, the last of them the
/// remainder by sixteen.
pub proof fn lemma_hex(v: nat, n: nat)
    ensures
        discovery::hex_digits(v, n).len() == n,
        n > 0 ==> discovery::hex_digits(v, n).last() as int == (if v % 16 < 10 {
            '0' as int + v % 16
        } else {
            'a' as int + v % 16 - 10
        }),
        n > 0 ==> discovery::hex_digits(v, n).drop_last() == discovery::hex_digits(
            v / 16,
            (n - 1) as nat,
        ),
    decreases n,
{
    if n > 0 {
        lemma_hex(v / 16, (n - 1) as nat);
        assert(discovery::hex_digits(v, n).drop_last() =~= discovery::hex_digits(
            v / 16,
            (n - 1) as nat,
        ));
    }
}

} // verus!
