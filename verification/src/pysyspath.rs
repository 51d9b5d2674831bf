//! The source roots that a Python file puts on `sys.path` itself, as far as the
//! text shows them: insertions anchored at `__file__`.

use crate::jvm_package::SourceFile;
use crate::names::NameTable;
use crate::paths;
use crate::text;
use vstd::prelude::*;
use vstd::slice::slice_subrange;

verus! {

/// Only the head of a file is scanned: a change of `sys.path` has to stand
/// before the imports that depend on it.
pub const SCAN_BYTES: u64 = 65536;

// ---------------------------------------------------------------------------
// Finding the calls
// ---------------------------------------------------------------------------

/// The position of the parenthesis that closes `depth` open ones, from `at` on.
pub open spec fn closing(s: Seq<char>, at: int, depth: nat) -> Option<int>
    decreases s.len() - at,
{
    if at < 0 || at >= s.len() || depth == 0 {
        None
    } else if s[at] == '(' {
        closing(s, at + 1, depth + 1)
    } else if s[at] == ')' {
        if depth == 1 {
            Some(at)
        } else {
            closing(s, at + 1, (depth - 1) as nat)
        }
    } else {
        closing(s, at + 1, depth)
    }
}

/// The argument lists of the calls that begin with `marker`, from `from` on, as
/// pairs of start and end. A call that is not closed, or has no arguments, ends
/// the search.
pub open spec fn calls_from(s: Seq<char>, marker: Seq<char>, from: int) -> Seq<(int, int)>
    decreases s.len() + 1 - from,
{
    match text::seek_from(s, marker, from) {
        Some(hit) => {
            let open = hit + marker.len();
            match closing(s, open, 1) {
                Some(end) => if from <= hit && from < end && open < end && end < s.len() {
                    seq![(open, end)] + calls_from(s, marker, end)
                } else {
                    seq![]
                },
                None => seq![],
            }
        },
        None => seq![],
    }
}

/// Two lists of spans as one, by where they start.
pub open spec fn merged(a: Seq<(int, int)>, b: Seq<(int, int)>) -> Seq<(int, int)>
    decreases a.len() + b.len(),
{
    if a.len() == 0 {
        b
    } else if b.len() == 0 {
        a
    } else if a[0].0 <= b[0].0 {
        seq![a[0]] + merged(a.drop_first(), b)
    } else {
        seq![b[0]] + merged(a, b.drop_first())
    }
}

/// The argument text of a call.
pub open spec fn argument(s: Seq<char>, call: (int, int)) -> Seq<char> {
    s.subrange(call.0, call.1)
}

fn find_closing(s: &[char], from: usize) -> (r: Option<usize>)
    requires
        1 <= from <= s@.len(),
    ensures
        match r {
            Some(e) => closing(s@, from as int, 1) == Some(e as int) && from <= e < s@.len(),
            None => closing(s@, from as int, 1) is None,
        },
{
    let total = s.len();
    let mut depth: usize = 1;
    let mut i: usize = from;
    while i < total
        invariant
            total == s@.len(),
            1 <= from <= i <= s@.len(),
            1 <= depth <= i - from + 1,
            closing(s@, from as int, 1) == closing(s@, i as int, depth as nat),
        decreases s@.len() - i,
    {
        let c = s[i];
        if c == '(' {
            depth += 1;
        } else if c == ')' {
            if depth == 1 {
                return Some(i);
            }
            depth -= 1;
        }
        i += 1;
    }
    None
}

fn find_calls(s: &[char], marker: &str) -> (r: Vec<(usize, usize)>)
    requires
        marker@.len() > 0,
    ensures
        paths::as_ints(r@) == calls_from(s@, marker@, 0),
        forall|i: int| 0 <= i < r@.len() ==> (#[trigger] r@[i]).0 <= r@[i].1 <= s@.len(),
{
    let m = text::chars_of(marker);
    let total = s.len();
    let mut out: Vec<(usize, usize)> = Vec::new();
    let mut from: usize = 0;
    let ghost want = calls_from(s@, marker@, 0);
    assert(paths::as_ints(out@) + want =~= want);
    loop
        invariant
            from <= s@.len(),
            total == s@.len(),
            m@ == marker@,
            m@.len() > 0,
            paths::as_ints(out@) + calls_from(s@, m@, from as int) == want,
            forall|i: int| 0 <= i < out@.len() ==> (#[trigger] out@[i]).0 <= out@[i].1 <= s@.len(),
        ensures
            paths::as_ints(out@) == want,
            forall|i: int| 0 <= i < out@.len() ==> (#[trigger] out@[i]).0 <= out@[i].1 <= s@.len(),
        decreases s@.len() - from,
    {
        proof {
            text::lemma_seek_from(s@, m@, from as int);
            assert(paths::as_ints(out@) + seq![] =~= paths::as_ints(out@));
        }
        let hit = match text::seek(s, m.as_slice(), from) {
            Some(h) => h,
            None => {
                break;
            },
        };
        let open = hit + m.len();
        match find_closing(s, open) {
            Some(end) => {
                if open < end {
                    let ghost before = out@;
                    out.push((open, end));
                    proof {
                        assert(paths::as_ints(out@) =~= paths::as_ints(before).push(
                            (open as int, end as int),
                        ));
                        let rest = calls_from(s@, m@, end as int);
                        assert(paths::as_ints(before) + (seq![(open as int, end as int)] + rest)
                            =~= paths::as_ints(out@) + rest);
                    }
                    from = end;
                } else {
                    break;
                }
            },
            None => {
                break;
            },
        }
    }
    out
}

fn merge(a: &Vec<(usize, usize)>, b: &Vec<(usize, usize)>) -> (r: Vec<(usize, usize)>)
    ensures
        paths::as_ints(r@) == merged(paths::as_ints(a@), paths::as_ints(b@)),
        forall|i: int|
            0 <= i < r@.len() ==> a@.contains(#[trigger] r@[i]) || b@.contains(r@[i]),
{
    let ghost x = paths::as_ints(a@);
    let ghost y = paths::as_ints(b@);
    let ghost want = merged(x, y);
    let mut out: Vec<(usize, usize)> = Vec::new();
    let mut i: usize = 0;
    let mut j: usize = 0;
    proof {
        assert(x.skip(0) =~= x);
        assert(y.skip(0) =~= y);
        assert(paths::as_ints(out@) + want =~= want);
    }
    while i < a.len() || j < b.len()
        invariant
            i <= a@.len(),
            j <= b@.len(),
            x == paths::as_ints(a@),
            y == paths::as_ints(b@),
            paths::as_ints(out@) + merged(x.skip(i as int), y.skip(j as int)) == want,
            forall|k: int|
                0 <= k < out@.len() ==> a@.contains(#[trigger] out@[k]) || b@.contains(out@[k]),
        decreases a@.len() - i + b@.len() - j,
    {
        let first = if i >= a.len() {
            false
        } else if j >= b.len() {
            true
        } else {
            a[i].0 <= b[j].0
        };
        let ghost before = out@;
        let ghost xs = x.skip(i as int);
        let ghost ys = y.skip(j as int);
        if first {
            out.push(a[i]);
            proof {
                let p = x[i as int];
                assert(a@.contains(a@[i as int]));
                assert(xs.drop_first() =~= x.skip(i + 1));
                assert(paths::as_ints(out@) =~= paths::as_ints(before).push(p));
                if ys.len() == 0 {
                    assert(merged(x.skip(i + 1), ys) =~= x.skip(i + 1));
                }
                assert(merged(xs, ys) =~= seq![p] + merged(x.skip(i + 1), ys));
                assert(paths::as_ints(before) + (seq![p] + merged(x.skip(i + 1), ys))
                    =~= paths::as_ints(out@) + merged(x.skip(i + 1), ys));
            }
            i += 1;
        } else {
            out.push(b[j]);
            proof {
                let p = y[j as int];
                assert(b@.contains(b@[j as int]));
                assert(ys.drop_first() =~= y.skip(j + 1));
                assert(paths::as_ints(out@) =~= paths::as_ints(before).push(p));
                assert(merged(xs, ys) =~= seq![p] + merged(xs, y.skip(j + 1)));
                assert(paths::as_ints(before) + (seq![p] + merged(xs, y.skip(j + 1)))
                    =~= paths::as_ints(out@) + merged(xs, y.skip(j + 1)));
            }
            j += 1;
        }
    }
    assert(paths::as_ints(out@) + merged(x.skip(i as int), y.skip(j as int)) =~= paths::as_ints(
        out@,
    ));
    out
}

// ---------------------------------------------------------------------------
// Reading one argument
// ---------------------------------------------------------------------------

pub open spec fn is_digit(c: char) -> bool {
    '0' <= c <= '9'
}

/// The leading digits of `s`.
pub open spec fn leading_digits(s: Seq<char>) -> Seq<char>
    decreases s.len(),
{
    if s.len() == 0 || !is_digit(s[0]) {
        seq![]
    } else {
        seq![s[0]] + leading_digits(s.drop_first())
    }
}

/// The number that digits spell.
pub open spec fn number(digits: Seq<char>) -> nat
    decreases digits.len(),
{
    if digits.len() == 0 {
        0
    } else {
        number(digits.drop_last()) * 10 + (digits.last() as nat - '0' as nat) as nat
    }
}

/// The index in the first `parents[..]`, where a machine number stands there.
pub open spec fn parents_index(arg: Seq<char>) -> Option<nat> {
    match text::seek_from(arg, "parents["@, 0) {
        Some(i) => {
            let digits = leading_digits(arg.skip(i + "parents["@.len()));
            if digits.len() > 0 && number(digits) <= usize::MAX {
                Some(number(digits))
            } else {
                None
            }
        },
        None => None,
    }
}

/// How often `p` stands in `s` from `from` on, without `not` right behind it.
pub open spec fn count_from(s: Seq<char>, p: Seq<char>, not: Seq<char>, from: int) -> nat
    decreases s.len() - from,
{
    if from < 0 || from >= s.len() {
        0
    } else {
        let rest = count_from(s, p, not, from + 1);
        if text::stands_at(s, p, from) && !(not.len() > 0 && text::stands_at(
            s,
            not,
            from + p.len(),
        )) {
            rest + 1
        } else {
            rest
        }
    }
}

/// How many levels above the file's own directory the argument points at:
/// `parents[N]` is `N`; of `.parent` and `dirname(` the first is the file's own
/// directory, and each further one is a level up.
pub open spec fn climb(arg: Seq<char>) -> nat {
    match parents_index(arg) {
        Some(n) => n,
        None => {
            let n = count_from(arg, ".parent"@, "s"@, 0) + count_from(
                arg,
                "dirname("@,
                seq![],
                0,
            );
            if n > 0 {
                (n - 1) as nat
            } else {
                0
            }
        },
    }
}

fn read_digits(s: &[char]) -> (r: Option<usize>)
    ensures
        match r {
            Some(n) => leading_digits(s@).len() > 0 && n == number(leading_digits(s@)),
            None => leading_digits(s@).len() == 0 || number(leading_digits(s@)) > usize::MAX,
        },
{
    let mut i: usize = 0;
    let mut n: Option<usize> = Some(0);
    let ghost want = leading_digits(s@);
    assert(s@.skip(0) =~= s@);
    assert(s@.take(0) + want =~= want);
    while i < s.len() && '0' <= s[i] && s[i] <= '9'
        invariant
            i <= s@.len(),
            s@.take(i as int) + leading_digits(s@.skip(i as int)) == want,
            match n {
                Some(v) => v == number(s@.take(i as int)),
                None => number(s@.take(i as int)) > usize::MAX,
            },
        decreases s@.len() - i,
    {
        let d: usize = (s[i] as u32 - '0' as u32) as usize;
        proof {
            let rest = s@.skip(i as int);
            assert(rest.drop_first() =~= s@.skip(i + 1));
            assert(s@.take(i as int) + (seq![s@[i as int]] + leading_digits(s@.skip(i + 1)))
                =~= s@.take(i + 1) + leading_digits(s@.skip(i + 1)));
            assert(s@.take(i + 1).drop_last() =~= s@.take(i as int));
            assert(s@.take(i + 1).last() == s@[i as int]);
        }
        n = match n {
            Some(v) => match v.checked_mul(10) {
                Some(w) => w.checked_add(d),
                None => None,
            },
            None => None,
        };
        i += 1;
    }
    assert(leading_digits(s@.skip(i as int)) =~= seq![]);
    assert(s@.take(i as int) + seq![] =~= s@.take(i as int));
    if i == 0 {
        return None;
    }
    n
}

fn count(s: &[char], p: &str, not: &str) -> (r: usize)
    requires
        p@.len() > 0,
    ensures
        r == count_from(s@, p@, not@, 0),
        r <= s@.len(),
{
    let pc = text::chars_of(p);
    let nc = text::chars_of(not);
    let total = s.len();
    let mut n: usize = 0;
    let mut i: usize = total;
    while i > 0
        invariant
            i <= s@.len(),
            total == s@.len(),
            pc@ == p@,
            nc@ == not@,
            p@.len() > 0,
            n == count_from(s@, p@, not@, i as int),
            n <= s@.len() - i,
        decreases i,
    {
        i -= 1;
        if text::matches_at(s, pc.as_slice(), i) {
            let j = i + pc.len();
            if !(nc.len() > 0 && text::matches_at(s, nc.as_slice(), j)) {
                n += 1;
            }
        }
    }
    n
}

fn climb_levels(arg: &[char]) -> (r: usize)
    ensures
        r == climb(arg@),
{
    proof {
        reveal_strlit("parents[");
        reveal_strlit(".parent");
        reveal_strlit("dirname(");
        reveal_strlit("s");
        reveal_strlit("");
        text::lemma_seek_from(arg@, "parents["@, 0);
    }
    let key = text::chars_of("parents[");
    let total = arg.len();
    if let Some(i) = text::seek(arg, key.as_slice(), 0) {
        let tail = slice_subrange(arg, i + key.len(), total);
        assert(tail@ =~= arg@.skip(i + "parents["@.len()));
        if let Some(n) = read_digits(tail) {
            return n;
        }
    }
    let parents = count(arg, ".parent", "s");
    let dirnames = count(arg, "dirname(", "");
    proof {
        assert(""@ =~= seq![]);
        lemma_two_counts(arg@);
    }
    let n = parents + dirnames;
    if n > 0 {
        n - 1
    } else {
        0
    }
}

/// The two counts together do not exceed the length: at one position only one
/// of the two texts can stand.
proof fn lemma_counts_bounded(s: Seq<char>, from: int)
    requires
        0 <= from <= s.len(),
    ensures
        count_from(s, ".parent"@, "s"@, from) + count_from(s, "dirname("@, ""@, from) <= s.len()
            - from,
    decreases s.len() - from,
{
    reveal_strlit(".parent");
    reveal_strlit("dirname(");
    if from < s.len() {
        lemma_counts_bounded(s, from + 1);
        if text::stands_at(s, ".parent"@, from) && text::stands_at(s, "dirname("@, from) {
            let a = s.subrange(from, from + ".parent"@.len());
            let b = s.subrange(from, from + "dirname("@.len());
            assert(a[0] == s[from] && b[0] == s[from]);
            assert(".parent"@[0] == '.' && "dirname("@[0] == 'd');
        }
    }
}

proof fn lemma_two_counts(s: Seq<char>)
    ensures
        count_from(s, ".parent"@, "s"@, 0) + count_from(s, "dirname("@, ""@, 0) <= s.len(),
{
    lemma_counts_bounded(s, 0);
}

/// Is the literal a directory below the anchor? An empty one, an absolute one
/// and one that climbs are not.
pub open spec fn is_segment(lit: Seq<char>) -> bool {
    lit.len() > 0 && lit[0] != '/' && !text::occurs_in(lit, ".."@)
}

/// The quoted directories in the argument from `from` on, in order.
pub open spec fn segments_from(arg: Seq<char>, from: int) -> Seq<Seq<char>>
    decreases arg.len() - from,
{
    if from < 0 || from >= arg.len() {
        seq![]
    } else if arg[from] == '"' || arg[from] == '\'' {
        let close = text::find_from(arg, arg[from], from + 1);
        if from < close < arg.len() {
            let lit = arg.subrange(from + 1, close);
            if is_segment(lit) {
                seq![text::drop_back(lit, "/"@)] + segments_from(arg, close + 1)
            } else {
                segments_from(arg, close + 1)
            }
        } else {
            segments_from(arg, from + 1)
        }
    } else {
        segments_from(arg, from + 1)
    }
}

fn literal_segments(arg: &[char]) -> (r: Vec<String>)
    ensures
        text::texts(r@) == segments_from(arg@, 0),
{
    let mut out: Vec<String> = Vec::new();
    let ghost want = segments_from(arg@, 0);
    let mut i: usize = 0;
    assert(text::texts(out@) + want =~= want);
    while i < arg.len()
        invariant
            i <= arg@.len(),
            text::texts(out@) + segments_from(arg@, i as int) == want,
        decreases arg@.len() - i,
    {
        let q = arg[i];
        if q == '"' || q == '\'' {
            proof {
                text::lemma_find_from(arg@, q, i + 1);
            }
            let close = text::find_char(arg, q, i + 1);
            if close < arg.len() {
                let lit = slice_subrange(arg, i + 1, close);
                if lit.len() > 0 && lit[0] != '/' && !text::contains_str(lit, "..") {
                    let seg = text::string_of(text::trim_back_set(lit, "/"));
                    let ghost before = out@;
                    out.push(seg);
                    proof {
                        let rest = segments_from(arg@, close + 1);
                        assert(text::texts(out@) =~= text::texts(before).push(seg@));
                        assert(text::texts(before) + (seq![seg@] + rest) =~= text::texts(out@)
                            + rest);
                    }
                }
                i = close + 1;
                continue;
            }
        }
        i += 1;
    }
    assert(text::texts(out@) + seq![] =~= text::texts(out@));
    out
}

// ---------------------------------------------------------------------------
// Roots
// ---------------------------------------------------------------------------

/// The directory `n` levels above `dir`; none above the project's root.
pub open spec fn climbed(dir: Seq<char>, n: nat) -> Option<Seq<char>>
    decreases n,
{
    if n == 0 {
        Some(dir)
    } else {
        match text::cut_at_last(dir, '/') {
            Some((up, _)) => climbed(up, (n - 1) as nat),
            None => if dir.len() == 0 {
                None
            } else {
                climbed(seq![], (n - 1) as nat)
            },
        }
    }
}

/// The directory that `segs` lead to, from `dir` on.
pub open spec fn descended(dir: Seq<char>, segs: Seq<Seq<char>>) -> Seq<char>
    decreases segs.len(),
{
    if segs.len() == 0 {
        dir
    } else {
        descended(paths::below(dir, segs[0]), segs.drop_first())
    }
}

/// The root that one argument adds, or none where it points outside of the
/// project.
pub open spec fn root_of(dir: Seq<char>, arg: Seq<char>) -> Option<Seq<char>> {
    match climbed(dir, climb(arg)) {
        Some(up) => Some(descended(up, segments_from(arg, 0))),
        None => None,
    }
}

/// Is the argument anchored at the file, and does it lead out of the project?
pub open spec fn leads_outside(dir: Seq<char>, arg: Seq<char>) -> bool {
    text::occurs_in(arg, "__file__"@) && root_of(dir, arg) is None
}

/// The calls before the first that leads out of the project.
pub open spec fn calls_inside(dir: Seq<char>, s: Seq<char>, calls: Seq<(int, int)>) -> Seq<
    (int, int),
>
    decreases calls.len(),
{
    if calls.len() == 0 || leads_outside(dir, argument(s, calls[0])) {
        seq![]
    } else {
        seq![calls[0]] + calls_inside(dir, s, calls.drop_first())
    }
}

/// The calls that count, in the order in which they stand in the file. They are
/// looked through for one that leads out of the project, the insertions before
/// the additions at the end; such a call and all that are looked at after it do
/// not count.
pub open spec fn counting_calls(dir: Seq<char>, s: Seq<char>) -> Seq<(int, int)> {
    let inserts = calls_from(s, "sys.path.insert("@, 0);
    let appends = calls_from(s, "sys.path.append("@, 0);
    let first = calls_inside(dir, s, inserts);
    if first.len() < inserts.len() {
        first
    } else {
        merged(inserts, calls_inside(dir, s, appends))
    }
}

/// The argument texts of the calls that count.
pub open spec fn call_args(dir: Seq<char>, s: Seq<char>) -> Seq<Seq<char>> {
    counting_calls(dir, s).map_values(|c: (int, int)| argument(s, c))
}

/// The roots that the arguments add to `roots`, each once.
pub open spec fn roots_from(dir: Seq<char>, args: Seq<Seq<char>>, roots: Seq<Seq<char>>) -> Seq<
    Seq<char>,
>
    decreases args.len(),
{
    if args.len() == 0 {
        roots
    } else {
        let more = if text::occurs_in(args[0], "__file__"@) {
            root_of(dir, args[0])
        } else {
            None
        };
        roots_from(
            dir,
            args.drop_first(),
            match more {
                Some(r) => if r.len() > 0 && !roots.contains(r) {
                    roots.push(r)
                } else {
                    roots
                },
                None => roots,
            },
        )
    }
}

/// The directory part of a path.
pub open spec fn directory_of(path: Seq<char>) -> Seq<char> {
    match text::cut_at_last(path, '/') {
        Some((d, _)) => d,
        None => seq![],
    }
}

/// The source roots that the file at `path` adds.
pub open spec fn roots_of(path: Seq<char>, source: Seq<char>) -> Seq<Seq<char>> {
    roots_from(directory_of(path), call_args(directory_of(path), source), seq![])
}

fn climb_from(dir: &[char], n: usize) -> (r: Option<String>)
    ensures
        match r {
            Some(d) => climbed(dir@, n as nat) == Some(d@),
            None => climbed(dir@, n as nat) is None,
        },
    decreases n,
{
    if n == 0 {
        return Some(text::string_of(dir));
    }
    match text::rsplit_once(dir, '/') {
        Some((up, _)) => climb_from(up, n - 1),
        None => {
            if dir.len() == 0 {
                None
            } else {
                let root = slice_subrange(dir, 0, 0);
                assert(root@ =~= seq![]);
                climb_from(root, n - 1)
            }
        },
    }
}

fn descend(dir: String, segs: &Vec<String>) -> (r: String)
    ensures
        r@ == descended(dir@, text::texts(segs@)),
{
    let ghost all = text::texts(segs@);
    let ghost want = descended(dir@, all);
    let mut cur: String = dir;
    let mut i: usize = 0;
    assert(all.skip(0) =~= all);
    while i < segs.len()
        invariant
            i <= segs@.len(),
            all == text::texts(segs@),
            descended(cur@, all.skip(i as int)) == want,
        decreases segs@.len() - i,
    {
        let d = text::chars_of(cur.as_str());
        let t = text::chars_of(segs[i].as_str());
        assert(all.skip(i as int)[0] == t@);
        assert(all.skip(i as int).drop_first() =~= all.skip(i + 1));
        cur = paths::join_rel(d.as_slice(), t.as_slice());
        i += 1;
    }
    cur
}

/// The calls of `spans` before the first that leads out of the project.
fn keep_inside(dir: &[char], s: &[char], spans: &Vec<(usize, usize)>) -> (r: Vec<(usize, usize)>)
    requires
        forall|i: int|
            0 <= i < spans@.len() ==> (#[trigger] spans@[i]).0 <= spans@[i].1 <= s@.len(),
    ensures
        paths::as_ints(r@) == calls_inside(dir@, s@, paths::as_ints(spans@)),
        forall|i: int| 0 <= i < r@.len() ==> (#[trigger] r@[i]).0 <= r@[i].1 <= s@.len(),
{
    let ghost all = paths::as_ints(spans@);
    let ghost want = calls_inside(dir@, s@, all);
    let mut out: Vec<(usize, usize)> = Vec::new();
    let mut i: usize = 0;
    assert(all.skip(0) =~= all);
    assert(paths::as_ints(out@) + want =~= want);
    while i < spans.len()
        invariant
            i <= spans@.len(),
            all == paths::as_ints(spans@),
            all.len() == spans@.len(),
            want == calls_inside(dir@, s@, all),
            paths::as_ints(out@) + calls_inside(dir@, s@, all.skip(i as int)) == want,
            forall|k: int|
                0 <= k < spans@.len() ==> (#[trigger] spans@[k]).0 <= spans@[k].1 <= s@.len(),
            forall|k: int| 0 <= k < out@.len() ==> (#[trigger] out@[k]).0 <= out@[k].1 <= s@.len(),
        decreases spans@.len() - i,
    {
        let (a, b) = spans[i];
        let arg = slice_subrange(s, a, b);
        let ghost before = out@;
        proof {
            assert(all.skip(i as int)[0] == (a as int, b as int));
            assert(all.skip(i as int).drop_first() =~= all.skip(i + 1));
            assert(arg@ == argument(s@, (a as int, b as int)));
            assert(paths::as_ints(out@) + seq![] =~= paths::as_ints(out@));
        }
        if text::contains_str(arg, "__file__") {
            let up = climb_from(dir, climb_levels(arg));
            if up.is_none() {
                assert(leads_outside(dir@, arg@));
                return out;
            }
        }
        assert(!leads_outside(dir@, arg@));
        out.push((a, b));
        proof {
            let rest = calls_inside(dir@, s@, all.skip(i + 1));
            assert(paths::as_ints(out@) =~= paths::as_ints(before).push((a as int, b as int)));
            assert(paths::as_ints(before) + (seq![(a as int, b as int)] + rest) =~= paths::as_ints(
                out@,
            ) + rest);
        }
        i += 1;
    }
    assert(paths::as_ints(out@) + calls_inside(dir@, s@, all.skip(i as int)) =~= paths::as_ints(
        out@,
    ));
    out
}

fn syspath_call_args<'a>(dir: &[char], s: &'a [char]) -> (r: Vec<&'a [char]>)
    ensures
        text::slices(r@) == call_args(dir@, s@),
{
    proof {
        reveal_strlit("sys.path.insert(");
        reveal_strlit("sys.path.append(");
    }
    let inserts = find_calls(s, "sys.path.insert(");
    let appends = find_calls(s, "sys.path.append(");
    let first = keep_inside(dir, s, &inserts);
    assert(paths::as_ints(first@).len() == first@.len());
    assert(paths::as_ints(inserts@).len() == inserts@.len());
    let spans = if first.len() < inserts.len() {
        first
    } else {
        merge(&inserts, &keep_inside(dir, s, &appends))
    };
    let ghost want = call_args(dir@, s@);
    let mut out: Vec<&'a [char]> = Vec::new();
    let mut i: usize = 0;
    while i < spans.len()
        invariant
            i <= spans@.len(),
            want == paths::as_ints(spans@).map_values(|c: (int, int)| argument(s@, c)),
            forall|k: int|
                0 <= k < spans@.len() ==> (#[trigger] spans@[k]).0 <= spans@[k].1 <= s@.len(),
            text::slices(out@) =~= want.take(i as int),
        decreases spans@.len() - i,
    {
        let ghost before = out@;
        let (a, b) = spans[i];
        let x = slice_subrange(s, a, b);
        out.push(x);
        assert(text::slices(out@) =~= text::slices(before).push(x@));
        assert(want[i as int] == x@);
        i += 1;
    }
    assert(text::slices(out@) =~= want);
    out
}

/// The source roots that a file adds, in the order in which they stand in it.
/// From a call on that leads out of the project, nothing more is looked at.
pub fn extract_roots(from_path: &str, source: &str) -> (r: Vec<String>)
    ensures
        text::texts(r@) == roots_of(from_path@, source@),
{
    let path = text::chars_of(from_path);
    let empty: Vec<char> = Vec::new();
    let dir: &[char] = match text::rsplit_once(path.as_slice(), '/') {
        Some((d, _)) => d,
        None => empty.as_slice(),
    };
    assert(dir@ =~= directory_of(from_path@));
    let cs = text::chars_of(source);
    let args = syspath_call_args(dir, cs.as_slice());
    let ghost all = call_args(dir@, source@);
    let ghost want = roots_of(from_path@, source@);
    assert(text::slices(args@).len() == args@.len());
    let mut out: Vec<String> = Vec::new();
    let mut i: usize = 0;
    assert(all.skip(0) =~= all);
    assert(text::texts(out@) =~= seq![]);
    while i < args.len()
        invariant
            i <= args@.len(),
            text::slices(args@) == all,
            all.len() == args@.len(),
            want == roots_of(from_path@, source@),
            roots_from(dir@, all.skip(i as int), text::texts(out@)) == want,
        decreases args@.len() - i,
    {
        let arg = args[i];
        proof {
            assert(all[i as int] == arg@);
            assert(all.skip(i as int)[0] == arg@);
            assert(all.skip(i as int).drop_first() =~= all.skip(i + 1));
        }
        if text::contains_str(arg, "__file__") {
            let levels = climb_levels(arg);
            if let Some(up) = climb_from(dir, levels) {
                let segs = literal_segments(arg);
                let root = descend(up, &segs);
                let ghost before = out@;
                if !root.as_str().is_empty() && !text::has_text(&out, root.as_str()) {
                    out.push(root);
                    assert(text::texts(out@) =~= text::texts(before).push(root@));
                }
            }
        }
        i += 1;
    }
    out
}

/// The extra source roots of every Python file that adds some.
pub struct PySysPathMap {
    files: NameTable,
    roots: Vec<Vec<String>>,
}

impl Default for PySysPathMap {
    fn default() -> (r: Self)
        ensures
            r.wf(),
            r@ == Map::<Seq<char>, Seq<Seq<char>>>::empty(),
    {
        let r = PySysPathMap { files: NameTable::new(), roots: Vec::new() };
        assert(r@ =~= Map::<Seq<char>, Seq<Seq<char>>>::empty());
        r
    }
}

impl Clone for PySysPathMap {
    fn clone(&self) -> (r: Self)
        ensures
            self.wf() ==> r.wf() && r@ == self@,
    {
        let mut roots: Vec<Vec<String>> = Vec::new();
        let mut i: usize = 0;
        while i < self.roots.len()
            invariant
                i <= self.roots@.len(),
                roots@.len() == i,
                forall|k: int|
                    0 <= k < i ==> text::texts((#[trigger] roots@[k])@) == text::texts(
                        self.roots@[k]@,
                    ),
            decreases self.roots@.len() - i,
        {
            roots.push(text::copy_texts(&self.roots[i]));
            i += 1;
        }
        let r = PySysPathMap { files: self.files.clone(), roots };
        proof {
            if self.wf() {
                assert forall|p: Seq<char>| #[trigger] r@.contains_key(p) implies r@[p]
                    == self@[p] by {
                    let k = self.files@.index_of(p);
                    assert(0 <= k < self.files@.len());
                    assert(text::texts(r.roots@[k]@) == text::texts(self.roots@[k]@));
                }
                assert(r@ =~= self@);
            }
        }
        r
    }
}

/// Does the file contribute roots: a Python file that touches `sys.path`?
pub open spec fn adds_roots(f: SourceFile) -> bool {
    paths::extension(f.path@) == Some("py"@) && text::occurs_in(f.source@, "sys.path"@)
        && roots_of(f.path@, f.source@).len() > 0
}

/// The roots in effect for each file of a list that adds some.
pub open spec fn roots_by_file(files: Seq<SourceFile>) -> Map<Seq<char>, Seq<Seq<char>>>
    decreases files.len(),
{
    if files.len() == 0 {
        Map::empty()
    } else {
        let init = roots_by_file(files.drop_last());
        let f = files.last();
        if adds_roots(f) {
            init.insert(f.path@, roots_of(f.path@, f.source@))
        } else {
            init
        }
    }
}

impl PySysPathMap {
    /// The extra roots, by file.
    pub closed spec fn view(&self) -> Map<Seq<char>, Seq<Seq<char>>> {
        Map::new(
            |p: Seq<char>| self.files@.contains(p),
            |p: Seq<char>| text::texts(self.roots@[self.files@.index_of(p)]@),
        )
    }

    pub closed spec fn wf(&self) -> bool {
        self.files.wf() && self.files@.len() == self.roots@.len()
    }

    fn set(&mut self, path: &str, roots: Vec<String>)
        requires
            old(self).wf(),
        ensures
            final(self).wf(),
            final(self)@ == old(self)@.insert(path@, text::texts(roots@)),
    {
        let ghost before = *self;
        let id = self.files.intern(path);
        if id < self.roots.len() {
            self.roots.set(id, roots);
        } else {
            self.roots.push(roots);
        }
        proof {
            let after = *self;
            assert(after.files@[id as int] == path@);
            assert forall|p: Seq<char>| #[trigger]
                after@.contains_key(p) <==> before@.insert(path@, text::texts(roots@)).contains_key(
                    p,
                ) by {
                if before.files@.contains(p) {
                    let k = choose|k: int| 0 <= k < before.files@.len() && before.files@[k] == p;
                    assert(after.files@[k] == p);
                }
                if after.files@.contains(p) && p != path@ {
                    let k = choose|k: int| 0 <= k < after.files@.len() && after.files@[k] == p;
                    assert(before.files@[k] == p);
                }
            }
            assert forall|p: Seq<char>| #[trigger] after@.contains_key(p) implies after@[p]
                == before@.insert(path@, text::texts(roots@))[p] by {
                let k = after.files@.index_of(p);
                if p == path@ {
                    after.files.lemma_distinct(k, id as int);
                } else {
                    assert(before.files@[k] == p);
                    assert(before.files@.contains(p));
                    let m = before.files@.index_of(p);
                    before.files.lemma_distinct(k, m);
                }
            }
            assert(after@ =~= before@.insert(path@, text::texts(roots@)));
        }
    }

    /// Read the heads of the project's Python files.
    pub fn build(files: &Vec<SourceFile>) -> (r: Self)
        ensures
            r.wf(),
            r@ == roots_by_file(files@),
    {
        let mut r = PySysPathMap { files: NameTable::new(), roots: Vec::new() };
        let mut i: usize = 0;
        assert(r@ =~= roots_by_file(files@.take(0)));
        while i < files.len()
            invariant
                i <= files@.len(),
                r.wf(),
                r@ == roots_by_file(files@.take(i as int)),
            decreases files@.len() - i,
        {
            let f = &files[i];
            proof {
                assert(files@.take(i + 1).drop_last() =~= files@.take(i as int));
                assert(files@.take(i + 1).last() == *f);
            }
            let p = text::chars_of(f.path.as_str());
            let is_py = match paths::ext(p.as_slice()) {
                Some(e) => text::is(e, "py"),
                None => false,
            };
            let s = text::chars_of(f.source.as_str());
            if is_py && text::contains_str(s.as_slice(), "sys.path") {
                let roots = extract_roots(f.path.as_str(), f.source.as_str());
                assert(text::texts(roots@).len() == roots@.len());
                if roots.len() > 0 {
                    r.set(f.path.as_str(), roots);
                }
            }
            i += 1;
        }
        assert(files@.take(files@.len() as int) =~= files@);
        r
    }

    pub fn is_empty(&self) -> (r: bool)
        requires
            self.wf(),
        ensures
            r == (forall|p: Seq<char>| !self@.contains_key(p)),
    {
        if self.files.len() > 0 {
            assert(self.files@.contains(self.files@[0]));
            assert(self@.contains_key(self.files@[0]));
            return false;
        }
        true
    }

    /// The extra roots for the imports of `from_path`; none for a file that
    /// does not touch `sys.path`.
    pub fn roots_for(&self, from_path: &str) -> (r: &[String])
        requires
            self.wf(),
        ensures
            text::texts(r@) == (if self@.contains_key(from_path@) {
                self@[from_path@]
            } else {
                seq![]
            }),
    {
        match self.files.lookup(from_path) {
            Some(id) => {
                proof {
                    let k = self.files@.index_of(from_path@);
                    assert(self.files@.contains(from_path@));
                    self.files.lemma_distinct(k, id as int);
                }
                self.roots[id].as_slice()
            },
            None => {
                let none: &[String] = &[];
                assert(text::texts(none@) =~= seq![]);
                none
            },
        }
    }
}

proof fn lemma_distinct_from(
    dir: Seq<char>,
    args: Seq<Seq<char>>,
    roots: Seq<Seq<char>>,
)
    requires
        roots.no_duplicates(),
        forall|i: int| 0 <= i < roots.len() ==> (#[trigger] roots[i]).len() > 0,
    ensures
        roots_from(dir, args, roots).no_duplicates(),
        forall|i: int|
            0 <= i < roots_from(dir, args, roots).len() ==> (#[trigger] roots_from(
                dir,
                args,
                roots,
            )[i]).len() > 0,
    decreases args.len(),
{
    if args.len() > 0 {
        if !text::occurs_in(args[0], "__file__"@) || root_of(dir, args[0]) is None {
            lemma_distinct_from(dir, args.drop_first(), roots);
        } else if root_of(dir, args[0]) is Some {
            let r = root_of(dir, args[0])->Some_0;
            if r.len() > 0 && !roots.contains(r) {
                let more = roots.push(r);
                assert forall|i: int, j: int| 0 <= i < j < more.len() implies more[i]
                    != more[j] by {
                    if j == roots.len() {
                        assert(roots.contains(roots[i]));
                    }
                }
                lemma_distinct_from(dir, args.drop_first(), more);
            } else {
                lemma_distinct_from(dir, args.drop_first(), roots);
            }
        }
    }
}

/// Every root is a directory: none is empty, and none is listed twice.
pub proof fn lemma_roots_distinct(path: Seq<char>, source: Seq<char>)
    ensures
        roots_of(path, source).no_duplicates(),
        forall|i: int|
            0 <= i < roots_of(path, source).len() ==> (#[trigger] roots_of(path, source)[i]).len()
                > 0,
{
    lemma_distinct_from(directory_of(path), call_args(directory_of(path), source), seq![]);
}

proof fn lemma_unanchored(dir: Seq<char>, args: Seq<Seq<char>>, roots: Seq<Seq<char>>)
    requires
        forall|i: int|
            0 <= i < args.len() ==> !text::occurs_in(#[trigger] args[i], "__file__"@),
    ensures
        roots_from(dir, args, roots) == roots,
    decreases args.len(),
{
    if args.len() > 0 {
        assert forall|i: int| 0 <= i < args.drop_first().len() implies !text::occurs_in(
            #[trigger] args.drop_first()[i],
            "__file__"@,
        ) by {
            assert(args.drop_first()[i] == args[i + 1]);
        }
        lemma_unanchored(dir, args.drop_first(), roots);
    }
}

/// Insertions that are not anchored at `__file__` add nothing.
pub proof fn lemma_unanchored_adds_nothing(path: Seq<char>, source: Seq<char>)
    requires
        forall|i: int|
            0 <= i < call_args(directory_of(path), source).len() ==> !text::occurs_in(
                #[trigger] call_args(directory_of(path), source)[i],
                "__file__"@,
            ),
    ensures
        roots_of(path, source).len() == 0,
{
    lemma_unanchored(directory_of(path), call_args(directory_of(path), source), seq![]);
}

/// The spans are listed by where they start.
pub open spec fn in_order(v: Seq<(int, int)>) -> bool {
    forall|i: int, j: int| 0 <= i < j < v.len() ==> (#[trigger] v[i]).0 <= (#[trigger] v[j]).0
}

pub open spec fn starts_after(v: Seq<(int, int)>, x: int) -> bool {
    forall|i: int| 0 <= i < v.len() ==> x <= (#[trigger] v[i]).0
}

proof fn lemma_calls_in_order(s: Seq<char>, marker: Seq<char>, from: int)
    requires
        0 <= from <= s.len(),
    ensures
        in_order(calls_from(s, marker, from)),
        starts_after(calls_from(s, marker, from), from),
    decreases s.len() + 1 - from,
{
    text::lemma_seek_from(s, marker, from);
    let v = calls_from(s, marker, from);
    if v.len() > 0 {
        let end = v[0].1;
        lemma_calls_in_order(s, marker, end);
        let rest = calls_from(s, marker, end);
        assert forall|i: int, j: int| 0 <= i < j < v.len() implies (#[trigger] v[i]).0
            <= (#[trigger] v[j]).0 by {
            assert(v[j] == rest[j - 1]);
            if i > 0 {
                assert(v[i] == rest[i - 1]);
            }
        }
        assert forall|i: int| 0 <= i < v.len() implies from <= (#[trigger] v[i]).0 by {
            if i > 0 {
                assert(v[i] == rest[i - 1]);
            }
        }
    }
}

proof fn lemma_merged_in_order(a: Seq<(int, int)>, b: Seq<(int, int)>, x: int)
    requires
        in_order(a),
        in_order(b),
        starts_after(a, x),
        starts_after(b, x),
    ensures
        in_order(merged(a, b)),
        starts_after(merged(a, b), x),
    decreases a.len() + b.len(),
{
    if a.len() > 0 && b.len() > 0 {
        let first = a[0].0 <= b[0].0;
        let (u, w) = if first {
            (a.drop_first(), b)
        } else {
            (a, b.drop_first())
        };
        let p = if first {
            a[0]
        } else {
            b[0]
        };
        assert forall|i: int| 0 <= i < u.len() implies p.0 <= (#[trigger] u[i]).0 by {
            if first {
                assert(u[i] == a[i + 1]);
            } else {
                assert(a[0].0 <= a[i].0 || i == 0);
            }
        }
        assert forall|i: int| 0 <= i < w.len() implies p.0 <= (#[trigger] w[i]).0 by {
            if first {
                assert(b[0].0 <= b[i].0 || i == 0);
            } else {
                assert(w[i] == b[i + 1]);
            }
        }
        assert(in_order(u) && in_order(w));
        lemma_merged_in_order(u, w, p.0);
        let rest = merged(u, w);
        let v = merged(a, b);
        assert(v == seq![p] + rest);
        assert forall|i: int, j: int| 0 <= i < j < v.len() implies (#[trigger] v[i]).0
            <= (#[trigger] v[j]).0 by {
            assert(v[j] == rest[j - 1]);
            if i > 0 {
                assert(v[i] == rest[i - 1]);
            }
        }
        assert forall|i: int| 0 <= i < v.len() implies x <= (#[trigger] v[i]).0 by {
            if i > 0 {
                assert(v[i] == rest[i - 1]);
            }
        }
    }
}

proof fn lemma_inside_is_a_prefix(dir: Seq<char>, s: Seq<char>, calls: Seq<(int, int)>)
    ensures
        calls_inside(dir, s, calls).len() <= calls.len(),
        calls_inside(dir, s, calls) == calls.take(calls_inside(dir, s, calls).len() as int),
        forall|i: int|
            0 <= i < calls_inside(dir, s, calls).len() ==> !leads_outside(
                dir,
                argument(s, #[trigger] calls_inside(dir, s, calls)[i]),
            ),
        calls_inside(dir, s, calls).len() < calls.len() ==> leads_outside(
            dir,
            argument(s, calls[calls_inside(dir, s, calls).len() as int]),
        ),
    decreases calls.len(),
{
    let kept = calls_inside(dir, s, calls);
    if calls.len() > 0 && !leads_outside(dir, argument(s, calls[0])) {
        let rest = calls.drop_first();
        lemma_inside_is_a_prefix(dir, s, rest);
        let tail = calls_inside(dir, s, rest);
        assert(kept =~= calls.take(kept.len() as int));
        assert forall|i: int| 0 <= i < kept.len() implies !leads_outside(
            dir,
            argument(s, #[trigger] kept[i]),
        ) by {
            if i > 0 {
                assert(kept[i] == tail[i - 1]);
            }
        }
    } else {
        assert(kept =~= calls.take(0));
    }
}

/// The calls that count are read in the order in which they stand in the file,
/// whichever of the two methods they use.
pub proof fn lemma_file_order(dir: Seq<char>, source: Seq<char>)
    ensures
        in_order(counting_calls(dir, source)),
{
    let inserts = calls_from(source, "sys.path.insert("@, 0);
    let appends = calls_from(source, "sys.path.append("@, 0);
    lemma_calls_in_order(source, "sys.path.insert("@, 0);
    lemma_calls_in_order(source, "sys.path.append("@, 0);
    lemma_inside_is_a_prefix(dir, source, inserts);
    lemma_inside_is_a_prefix(dir, source, appends);
    lemma_merged_in_order(inserts, calls_inside(dir, source, appends), 0);
}

/// Where no call leads out of the project, every call counts.
pub proof fn lemma_all_calls_count(dir: Seq<char>, source: Seq<char>)
    requires
        forall|i: int|
            0 <= i < calls_from(source, "sys.path.insert("@, 0).len() ==> !leads_outside(
                dir,
                argument(source, #[trigger] calls_from(source, "sys.path.insert("@, 0)[i]),
            ),
        forall|i: int|
            0 <= i < calls_from(source, "sys.path.append("@, 0).len() ==> !leads_outside(
                dir,
                argument(source, #[trigger] calls_from(source, "sys.path.append("@, 0)[i]),
            ),
    ensures
        counting_calls(dir, source) == merged(
            calls_from(source, "sys.path.insert("@, 0),
            calls_from(source, "sys.path.append("@, 0),
        ),
{
    let inserts = calls_from(source, "sys.path.insert("@, 0);
    let appends = calls_from(source, "sys.path.append("@, 0);
    lemma_inside_is_a_prefix(dir, source, inserts);
    lemma_inside_is_a_prefix(dir, source, appends);
    assert(appends.take(appends.len() as int) =~= appends);
}

} // verus!
