//! Text as a sequence of characters: searching, trimming, splitting, joining.
//!
//! Every function works on a slice of characters and is specified by a spec
//! function on `Seq<char>`, so that parsers elsewhere can be stated over the
//! text itself.

use vstd::prelude::*;
use vstd::slice::slice_subrange;

verus! {

/// `String::push`: the new text is the old one with the character appended.
pub assume_specification[ String::push ](s: &mut String, c: char)
    ensures
        final(s)@ == old(s)@.push(c),
;

/// The characters of `s`, in order.
pub fn chars_of(s: &str) -> (r: Vec<char>)
    ensures
        r@ == s@,
{
    let mut out: Vec<char> = Vec::new();
    for c in it: s.chars()
        invariant
            out@ == it.seq().take(it.index()),
            it.seq() == s@,
    {
        out.push(c);
    }
    out
}

/// The string that holds exactly the characters of `s`.
pub fn string_of(s: &[char]) -> (r: String)
    ensures
        r@ == s@,
{
    let mut out: String = String::new();
    let mut i: usize = 0;
    while i < s.len()
        invariant
            i <= s@.len(),
            out@ == s@.take(i as int),
        decreases s@.len() - i,
    {
        out.push(s[i]);
        i += 1;
        assert(s@.take(i as int) =~= s@.take(i - 1).push(s@[i - 1]));
    }
    assert(s@.take(s@.len() as int) =~= s@);
    out
}

/// Do the two texts hold the same characters?
pub fn same(a: &[char], b: &[char]) -> (r: bool)
    ensures
        r == (a@ == b@),
{
    if a.len() != b.len() {
        return false;
    }
    let mut i: usize = 0;
    while i < a.len()
        invariant
            i <= a@.len(),
            a@.len() == b@.len(),
            forall|k: int| 0 <= k < i ==> a@[k] == b@[k],
        decreases a@.len() - i,
    {
        if a[i] != b[i] {
            return false;
        }
        i += 1;
    }
    assert(a@ =~= b@);
    true
}

/// Is `s` exactly the text `lit`?
pub fn is(s: &[char], lit: &str) -> (r: bool)
    ensures
        r == (s@ == lit@),
{
    let l = chars_of(lit);
    same(s, l.as_slice())
}

/// Do the two strings hold the same characters?
pub fn str_eq(a: &str, b: &str) -> (r: bool)
    ensures
        r == (a@ == b@),
{
    let a = chars_of(a);
    let b = chars_of(b);
    same(a.as_slice(), b.as_slice())
}

// ---------------------------------------------------------------------------
// Prefixes and suffixes
// ---------------------------------------------------------------------------

/// `p` stands at the front of `s`.
pub open spec fn begins_with(s: Seq<char>, p: Seq<char>) -> bool {
    p.len() <= s.len() && s.take(p.len() as int) == p
}

/// `p` stands at the back of `s`.
pub open spec fn finishes_with(s: Seq<char>, p: Seq<char>) -> bool {
    p.len() <= s.len() && s.skip(s.len() - p.len()) == p
}

/// `p` stands in `s` at position `i`.
pub open spec fn stands_at(s: Seq<char>, p: Seq<char>, i: int) -> bool {
    0 <= i && i + p.len() <= s.len() && s.subrange(i, i + p.len()) == p
}

/// `p` stands somewhere in `s`.
pub open spec fn occurs_in(s: Seq<char>, p: Seq<char>) -> bool {
    exists|i: int| stands_at(s, p, i)
}

pub fn matches_at(s: &[char], p: &[char], i: usize) -> (r: bool)
    ensures
        r == stands_at(s@, p@, i as int),
{
    if s.len() < p.len() || s.len() - p.len() < i {
        return false;
    }
    let mid = slice_subrange(s, i, i + p.len());
    same(mid, p)
}

pub fn starts_with(s: &[char], p: &str) -> (r: bool)
    ensures
        r == begins_with(s@, p@),
{
    let p = chars_of(p);
    if s.len() < p.len() {
        return false;
    }
    let head = slice_subrange(s, 0, p.len());
    assert(head@ =~= s@.take(p@.len() as int));
    same(head, p.as_slice())
}

pub fn ends_with(s: &[char], p: &str) -> (r: bool)
    ensures
        r == finishes_with(s@, p@),
{
    let p = chars_of(p);
    if s.len() < p.len() {
        return false;
    }
    let tail = slice_subrange(s, s.len() - p.len(), s.len());
    assert(tail@ =~= s@.skip(s@.len() - p@.len()));
    same(tail, p.as_slice())
}

/// What follows the prefix `p`, where `s` begins with it.
pub open spec fn after_prefix(s: Seq<char>, p: Seq<char>) -> Option<Seq<char>> {
    if begins_with(s, p) {
        Some(s.skip(p.len() as int))
    } else {
        None
    }
}

pub fn strip_prefix<'a>(s: &'a [char], p: &str) -> (r: Option<&'a [char]>)
    ensures
        match r {
            Some(x) => after_prefix(s@, p@) == Some(x@),
            None => after_prefix(s@, p@) is None,
        },
{
    if starts_with(s, p) {
        let p = chars_of(p);
        let tail = slice_subrange(s, p.len(), s.len());
        assert(tail@ =~= s@.skip(p@.len() as int));
        Some(tail)
    } else {
        None
    }
}

/// What stands before the suffix `p`, where `s` finishes with it.
pub open spec fn before_suffix(s: Seq<char>, p: Seq<char>) -> Option<Seq<char>> {
    if finishes_with(s, p) {
        Some(s.take(s.len() - p.len()))
    } else {
        None
    }
}

pub fn strip_suffix<'a>(s: &'a [char], p: &str) -> (r: Option<&'a [char]>)
    ensures
        match r {
            Some(x) => before_suffix(s@, p@) == Some(x@),
            None => before_suffix(s@, p@) is None,
        },
{
    if ends_with(s, p) {
        let p = chars_of(p);
        let head = slice_subrange(s, 0, s.len() - p.len());
        assert(head@ =~= s@.take(s@.len() - p@.len()));
        Some(head)
    } else {
        None
    }
}

/// `s` with every leading repetition of `p` removed.
pub open spec fn without_leading(s: Seq<char>, p: Seq<char>) -> Seq<char>
    decreases s.len(),
{
    if p.len() > 0 && begins_with(s, p) {
        without_leading(s.skip(p.len() as int), p)
    } else {
        s
    }
}

pub fn trim_start_matches<'a>(s: &'a [char], p: &str) -> (r: &'a [char])
    requires
        p@.len() > 0,
    ensures
        r@ == without_leading(s@, p@),
{
    let mut cur: &'a [char] = s;
    loop
        invariant
            p@.len() > 0,
            without_leading(cur@, p@) == without_leading(s@, p@),
        ensures
            cur@ == without_leading(s@, p@),
        decreases cur@.len(),
    {
        match strip_prefix(cur, p) {
            Some(next) => {
                cur = next;
            },
            None => {
                break;
            },
        }
    }
    cur
}

/// `s` without the characters of `set` at its front.
pub open spec fn drop_front(s: Seq<char>, set: Seq<char>) -> Seq<char>
    decreases s.len(),
{
    if s.len() > 0 && set.contains(s[0]) {
        drop_front(s.drop_first(), set)
    } else {
        s
    }
}

/// `s` without the characters of `set` at its back.
pub open spec fn drop_back(s: Seq<char>, set: Seq<char>) -> Seq<char>
    decreases s.len(),
{
    if s.len() > 0 && set.contains(s.last()) {
        drop_back(s.drop_last(), set)
    } else {
        s
    }
}

pub fn has_char(set: &[char], c: char) -> (r: bool)
    ensures
        r == set@.contains(c),
{
    let mut i: usize = 0;
    while i < set.len()
        invariant
            i <= set@.len(),
            forall|k: int| 0 <= k < i ==> set@[k] != c,
        decreases set@.len() - i,
    {
        if set[i] == c {
            assert(set@[i as int] == c);
            return true;
        }
        i += 1;
    }
    false
}

pub fn trim_front_set<'a>(s: &'a [char], set: &str) -> (r: &'a [char])
    ensures
        r@ == drop_front(s@, set@),
{
    let cs = chars_of(set);
    let mut i: usize = 0;
    assert(s@.skip(0) =~= s@);
    while i < s.len() && has_char(cs.as_slice(), s[i])
        invariant
            i <= s@.len(),
            cs@ == set@,
            drop_front(s@.skip(i as int), set@) == drop_front(s@, set@),
        decreases s@.len() - i,
    {
        assert(s@.skip(i as int).drop_first() =~= s@.skip(i + 1));
        i += 1;
    }
    let r = slice_subrange(s, i, s.len());
    assert(r@ =~= s@.skip(i as int));
    r
}

pub fn trim_back_set<'a>(s: &'a [char], set: &str) -> (r: &'a [char])
    ensures
        r@ == drop_back(s@, set@),
{
    let cs = chars_of(set);
    let mut n: usize = s.len();
    assert(s@.take(n as int) =~= s@);
    while n > 0 && has_char(cs.as_slice(), s[n - 1])
        invariant
            n <= s@.len(),
            cs@ == set@,
            drop_back(s@.take(n as int), set@) == drop_back(s@, set@),
        decreases n,
    {
        assert(s@.take(n as int).drop_last() =~= s@.take(n - 1));
        n -= 1;
    }
    let r = slice_subrange(s, 0, n);
    assert(r@ =~= s@.take(n as int));
    r
}

// ---------------------------------------------------------------------------
// White space
// ---------------------------------------------------------------------------

/// The characters with the Unicode property `White_Space`.
pub open spec fn is_space(c: char) -> bool {
    ||| '\u{9}' <= c <= '\u{d}'
    ||| c == '\u{20}'
    ||| c == '\u{85}'
    ||| c == '\u{a0}'
    ||| c == '\u{1680}'
    ||| '\u{2000}' <= c <= '\u{200a}'
    ||| c == '\u{2028}'
    ||| c == '\u{2029}'
    ||| c == '\u{202f}'
    ||| c == '\u{205f}'
    ||| c == '\u{3000}'
}

pub fn space(c: char) -> (r: bool)
    ensures
        r == is_space(c),
{
    ('\u{9}' <= c && c <= '\u{d}') || c == '\u{20}' || c == '\u{85}' || c == '\u{a0}' || c
        == '\u{1680}' || ('\u{2000}' <= c && c <= '\u{200a}') || c == '\u{2028}' || c == '\u{2029}'
        || c == '\u{202f}' || c == '\u{205f}' || c == '\u{3000}'
}

/// `s` without the white space at its front.
pub open spec fn trimmed_front(s: Seq<char>) -> Seq<char>
    decreases s.len(),
{
    if s.len() > 0 && is_space(s[0]) {
        trimmed_front(s.drop_first())
    } else {
        s
    }
}

/// `s` without the white space at its back.
pub open spec fn trimmed_back(s: Seq<char>) -> Seq<char>
    decreases s.len(),
{
    if s.len() > 0 && is_space(s.last()) {
        trimmed_back(s.drop_last())
    } else {
        s
    }
}

/// `s` without the white space at either end.
pub open spec fn trimmed(s: Seq<char>) -> Seq<char> {
    trimmed_back(trimmed_front(s))
}

pub fn trim_start(s: &[char]) -> (r: &[char])
    ensures
        r@ == trimmed_front(s@),
{
    let mut i: usize = 0;
    assert(s@.skip(0) =~= s@);
    while i < s.len() && space(s[i])
        invariant
            i <= s@.len(),
            trimmed_front(s@.skip(i as int)) == trimmed_front(s@),
        decreases s@.len() - i,
    {
        assert(s@.skip(i as int).drop_first() =~= s@.skip(i + 1));
        i += 1;
    }
    let r = slice_subrange(s, i, s.len());
    assert(r@ =~= s@.skip(i as int));
    r
}

pub fn trim_end(s: &[char]) -> (r: &[char])
    ensures
        r@ == trimmed_back(s@),
{
    let mut n: usize = s.len();
    assert(s@.take(n as int) =~= s@);
    while n > 0 && space(s[n - 1])
        invariant
            n <= s@.len(),
            trimmed_back(s@.take(n as int)) == trimmed_back(s@),
        decreases n,
    {
        assert(s@.take(n as int).drop_last() =~= s@.take(n - 1));
        n -= 1;
    }
    let r = slice_subrange(s, 0, n);
    assert(r@ =~= s@.take(n as int));
    r
}

pub fn trim(s: &[char]) -> (r: &[char])
    ensures
        r@ == trimmed(s@),
{
    trim_end(trim_start(s))
}

// ---------------------------------------------------------------------------
// Searching
// ---------------------------------------------------------------------------

/// The first position at or after `from` that holds `c`; the length of `s`
/// where there is none.
pub open spec fn find_from(s: Seq<char>, c: char, from: int) -> int
    decreases s.len() - from,
{
    if from < 0 || from >= s.len() {
        s.len() as int
    } else if s[from] == c {
        from
    } else {
        find_from(s, c, from + 1)
    }
}

pub proof fn lemma_find_from(s: Seq<char>, c: char, from: int)
    requires
        0 <= from <= s.len(),
    ensures
        from <= find_from(s, c, from) <= s.len(),
        find_from(s, c, from) < s.len() ==> s[find_from(s, c, from)] == c,
        forall|k: int| from <= k < find_from(s, c, from) ==> s[k] != c,
    decreases s.len() - from,
{
    if from < s.len() && s[from] != c {
        lemma_find_from(s, c, from + 1);
    }
}

pub fn find_char(s: &[char], c: char, from: usize) -> (r: usize)
    requires
        from <= s@.len(),
    ensures
        r == find_from(s@, c, from as int),
        from <= r <= s@.len(),
        r < s@.len() ==> s@[r as int] == c,
        forall|k: int| from <= k < r ==> s@[k] != c,
{
    let mut i: usize = from;
    while i < s.len() && s[i] != c
        invariant
            from <= i <= s@.len(),
            find_from(s@, c, i as int) == find_from(s@, c, from as int),
            forall|k: int| from <= k < i ==> s@[k] != c,
        decreases s@.len() - i,
    {
        i += 1;
    }
    i
}

/// The first position at or after `from` at which `p` stands.
pub open spec fn seek_from(s: Seq<char>, p: Seq<char>, from: int) -> Option<int>
    decreases s.len() + 1 - from,
{
    if from < 0 || from > s.len() {
        None
    } else if stands_at(s, p, from) {
        Some(from)
    } else {
        seek_from(s, p, from + 1)
    }
}

pub proof fn lemma_seek_from(s: Seq<char>, p: Seq<char>, from: int)
    requires
        0 <= from <= s.len() + 1,
    ensures
        match seek_from(s, p, from) {
            Some(i) => from <= i && stands_at(s, p, i) && forall|k: int|
                from <= k < i ==> !stands_at(s, p, k),
            None => forall|k: int| from <= k ==> !stands_at(s, p, k),
        },
    decreases s.len() + 1 - from,
{
    if from <= s.len() && !stands_at(s, p, from) {
        lemma_seek_from(s, p, from + 1);
    }
}

pub fn seek(s: &[char], p: &[char], from: usize) -> (r: Option<usize>)
    ensures
        match r {
            Some(i) => seek_from(s@, p@, from as int) == Some(i as int) && from <= i && i + p@.len()
                <= s@.len() && stands_at(s@, p@, i as int),
            None => seek_from(s@, p@, from as int) is None,
        },
{
    let mut i: usize = from;
    while i < s.len()
        invariant
            from <= i,
            from <= s@.len() ==> i <= s@.len(),
            from > s@.len() ==> i == from,
            from <= s@.len() ==> seek_from(s@, p@, i as int) == seek_from(s@, p@, from as int),
        decreases s@.len() - i,
    {
        if matches_at(s, p, i) {
            return Some(i);
        }
        i += 1;
    }
    if from <= s.len() && matches_at(s, p, i) {
        return Some(i);
    }
    proof {
        if from <= s@.len() {
            assert(seek_from(s@, p@, i + 1) is None);
        }
    }
    None
}

/// Does `p` stand anywhere in `s`?
pub fn contains(s: &[char], p: &[char]) -> (r: bool)
    ensures
        r == occurs_in(s@, p@),
{
    let hit = seek(s, p, 0);
    proof {
        lemma_seek_from(s@, p@, 0);
        if occurs_in(s@, p@) {
            let i = choose|i: int| stands_at(s@, p@, i);
            assert(stands_at(s@, p@, i));
        }
    }
    hit.is_some()
}

pub fn contains_str(s: &[char], p: &str) -> (r: bool)
    ensures
        r == occurs_in(s@, p@),
{
    let p = chars_of(p);
    contains(s, p.as_slice())
}

/// The last position below `n` that holds `c`; -1 where there is none.
pub open spec fn last_before(s: Seq<char>, c: char, n: int) -> int
    decreases n,
{
    if n <= 0 || n > s.len() {
        -1
    } else if s[n - 1] == c {
        n - 1
    } else {
        last_before(s, c, n - 1)
    }
}

pub proof fn lemma_last_before(s: Seq<char>, c: char, n: int)
    requires
        0 <= n <= s.len(),
    ensures
        -1 <= last_before(s, c, n) < n || n == 0 && last_before(s, c, n) == -1,
        last_before(s, c, n) >= 0 ==> s[last_before(s, c, n)] == c,
        forall|k: int| last_before(s, c, n) < k < n ==> s[k] != c,
    decreases n,
{
    if n > 0 && s[n - 1] != c {
        lemma_last_before(s, c, n - 1);
    }
}

/// `s` split at the last `c` in it.
pub open spec fn cut_at_last(s: Seq<char>, c: char) -> Option<(Seq<char>, Seq<char>)> {
    let i = last_before(s, c, s.len() as int);
    if i < 0 {
        None
    } else {
        Some((s.take(i), s.skip(i + 1)))
    }
}

pub fn rsplit_once(s: &[char], c: char) -> (r: Option<(&[char], &[char])>)
    ensures
        match r {
            Some((a, b)) => cut_at_last(s@, c) == Some((a@, b@)) && a@.len() < s@.len(),
            None => cut_at_last(s@, c) is None,
        },
{
    let mut n: usize = s.len();
    while n > 0 && s[n - 1] != c
        invariant
            n <= s@.len(),
            last_before(s@, c, n as int) == last_before(s@, c, s@.len() as int),
        decreases n,
    {
        n -= 1;
    }
    if n == 0 {
        return None;
    }
    let a = slice_subrange(s, 0, n - 1);
    let b = slice_subrange(s, n, s.len());
    assert(a@ =~= s@.take(n - 1));
    assert(b@ =~= s@.skip(n as int));
    Some((a, b))
}

/// The last position below `n` at which `p` stands.
pub open spec fn last_standing(s: Seq<char>, p: Seq<char>, n: int) -> Option<int>
    decreases n,
{
    if n <= 0 {
        None
    } else if stands_at(s, p, n - 1) {
        Some(n - 1)
    } else {
        last_standing(s, p, n - 1)
    }
}

/// What follows the last `p` in `s`, or all of `s` where there is none.
pub open spec fn after_last(s: Seq<char>, p: Seq<char>) -> Seq<char> {
    match last_standing(s, p, s.len() as int) {
        Some(i) => s.skip(i + p.len()),
        None => s,
    }
}

/// The last position at which `p` stands in `s`; `p` is not empty.
pub fn seek_last(s: &[char], p: &str) -> (r: Option<usize>)
    ensures
        match r {
            Some(i) => last_standing(s@, p@, s@.len() as int) == Some(i as int) && i + p@.len()
                <= s@.len(),
            None => last_standing(s@, p@, s@.len() as int) is None,
        },
{
    let pat = chars_of(p);
    let mut n: usize = s.len();
    while n > 0
        invariant
            n <= s@.len(),
            pat@ == p@,
            last_standing(s@, p@, n as int) == last_standing(s@, p@, s@.len() as int),
        decreases n,
    {
        if matches_at(s, pat.as_slice(), n - 1) {
            return Some(n - 1);
        }
        n -= 1;
    }
    None
}

pub fn after_last_text<'a>(s: &'a [char], p: &str) -> (r: &'a [char])
    ensures
        r@ == after_last(s@, p@),
{
    match seek_last(s, p) {
        Some(i) => {
            let n = chars_of(p).len();
            assert(i + n <= s.len());
            let r = slice_subrange(s, i + n, s.len());
            assert(r@ =~= s@.skip(i + p@.len()));
            r
        },
        None => s,
    }
}

/// `s` up to the first character of `set`, or all of it.
pub open spec fn up_to_any(s: Seq<char>, set: Seq<char>) -> Seq<char>
    decreases s.len(),
{
    if s.len() == 0 || set.contains(s[0]) {
        seq![]
    } else {
        seq![s[0]] + up_to_any(s.drop_first(), set)
    }
}

pub fn before_any<'a>(s: &'a [char], set: &str) -> (r: &'a [char])
    ensures
        r@ == up_to_any(s@, set@),
        r@ == s@.take(r@.len() as int),
        r@.len() <= s@.len(),
{
    let cs = chars_of(set);
    let mut i: usize = 0;
    assert(s@.skip(0) =~= s@);
    assert(s@.take(0) + up_to_any(s@.skip(0), set@) =~= up_to_any(s@, set@));
    while i < s.len() && !has_char(cs.as_slice(), s[i])
        invariant
            i <= s@.len(),
            cs@ == set@,
            s@.take(i as int) + up_to_any(s@.skip(i as int), set@) =~= up_to_any(s@, set@),
        decreases s@.len() - i,
    {
        assert(s@.skip(i as int).drop_first() =~= s@.skip(i + 1));
        assert(s@.take(i + 1) =~= s@.take(i as int) + seq![s@[i as int]]);
        i += 1;
    }
    let r = slice_subrange(s, 0, i);
    assert(r@ =~= s@.take(i as int));
    r
}

/// What stands before the first `c`, or all of `s` where there is none.
pub open spec fn up_to(s: Seq<char>, c: char) -> Seq<char> {
    s.take(find_from(s, c, 0))
}

pub fn before_char(s: &[char], c: char) -> (r: &[char])
    ensures
        r@ == up_to(s@, c),
{
    let i = find_char(s, c, 0);
    let r = slice_subrange(s, 0, i);
    assert(r@ =~= s@.take(i as int));
    r
}

/// What stands before the first `p`, or all of `s` where there is none.
pub open spec fn up_to_text(s: Seq<char>, p: Seq<char>) -> Seq<char> {
    match seek_from(s, p, 0) {
        Some(i) => s.take(i),
        None => s,
    }
}

pub fn before_text<'a>(s: &'a [char], p: &str) -> (r: &'a [char])
    ensures
        r@ == up_to_text(s@, p@),
{
    let p = chars_of(p);
    match seek(s, p.as_slice(), 0) {
        Some(i) => {
            let r = slice_subrange(s, 0, i);
            assert(r@ =~= s@.take(i as int));
            r
        },
        None => s,
    }
}

// ---------------------------------------------------------------------------
// Splitting
// ---------------------------------------------------------------------------

/// A list of owned texts, seen as the texts themselves.
pub open spec fn texts(v: Seq<String>) -> Seq<Seq<char>> {
    v.map_values(|s: String| s@)
}

/// A copy of a list of texts.
pub fn copy_texts(v: &Vec<String>) -> (r: Vec<String>)
    ensures
        texts(r@) == texts(v@),
{
    let mut out: Vec<String> = Vec::new();
    let mut i: usize = 0;
    while i < v.len()
        invariant
            i <= v@.len(),
            texts(out@) =~= texts(v@).take(i as int),
        decreases v@.len() - i,
    {
        let ghost before = out@;
        out.push(v[i].clone());
        assert(texts(out@) =~= texts(before).push(v@[i as int]@));
        i += 1;
    }
    out
}

/// A list of borrowed texts, seen as the texts themselves.
pub open spec fn slices(v: Seq<&[char]>) -> Seq<Seq<char>> {
    v.map_values(|s: &[char]| s@)
}

/// The pieces of `s` from position `from` on, cut at every `sep`.
pub open spec fn split_from(s: Seq<char>, sep: char, from: int) -> Seq<Seq<char>>
    decreases s.len() - from,
{
    if from < 0 || from > s.len() {
        seq![]
    } else {
        let e = find_from(s, sep, from);
        if from <= e < s.len() {
            seq![s.subrange(from, e)] + split_from(s, sep, e + 1)
        } else {
            seq![s.subrange(from, s.len() as int)]
        }
    }
}

/// The pieces of `s` between its `sep` characters; always at least one.
pub open spec fn split_on(s: Seq<char>, sep: char) -> Seq<Seq<char>> {
    split_from(s, sep, 0)
}

pub fn split<'a>(s: &'a [char], sep: char) -> (r: Vec<&'a [char]>)
    ensures
        slices(r@) == split_on(s@, sep),
        r@.len() > 0,
{
    let mut out: Vec<&'a [char]> = Vec::new();
    let mut from: usize = 0;
    loop
        invariant_except_break
            from <= s@.len(),
            slices(out@) + split_from(s@, sep, from as int) =~= split_on(s@, sep),
        ensures
            slices(out@) == split_on(s@, sep),
            out@.len() > 0,
        decreases s@.len() - from,
    {
        let e = find_char(s, sep, from);
        let piece = slice_subrange(s, from, e);
        let ghost before = out@;
        out.push(piece);
        assert(slices(out@) =~= slices(before).push(piece@));
        if e < s.len() {
            from = e + 1;
        } else {
            break;
        }
    }
    out
}

/// The pieces of `s` from `from` on, cut at every standing of `sep`, left to
/// right without overlap.
pub open spec fn split_text_from(s: Seq<char>, sep: Seq<char>, from: int) -> Seq<Seq<char>>
    decreases s.len() - from,
{
    if sep.len() == 0 || from < 0 || from > s.len() {
        seq![]
    } else {
        match seek_from(s, sep, from) {
            Some(e) => if from <= e && e + sep.len() <= s.len() {
                seq![s.subrange(from, e)] + split_text_from(s, sep, e + sep.len())
            } else {
                seq![]
            },
            None => seq![s.subrange(from, s.len() as int)],
        }
    }
}

/// The pieces of `s` between the standings of `sep` in it.
pub open spec fn split_on_text(s: Seq<char>, sep: Seq<char>) -> Seq<Seq<char>> {
    split_text_from(s, sep, 0)
}

pub fn split_text<'a>(s: &'a [char], sep: &str) -> (r: Vec<&'a [char]>)
    requires
        sep@.len() > 0,
    ensures
        slices(r@) == split_on_text(s@, sep@),
{
    let p = chars_of(sep);
    let mut out: Vec<&'a [char]> = Vec::new();
    let mut from: usize = 0;
    loop
        invariant_except_break
            from <= s@.len(),
            p@ == sep@,
            p@.len() > 0,
            slices(out@) + split_text_from(s@, sep@, from as int) =~= split_on_text(s@, sep@),
        ensures
            slices(out@) == split_on_text(s@, sep@),
        decreases s@.len() - from,
    {
        let ghost before = out@;
        match seek(s, p.as_slice(), from) {
            Some(e) => {
                let piece = slice_subrange(s, from, e);
                out.push(piece);
                assert(slices(out@) =~= slices(before).push(piece@));
                assert(e + p@.len() <= s.len());
                from = e + p.len();
            },
            None => {
                let piece = slice_subrange(s, from, s.len());
                out.push(piece);
                assert(slices(out@) =~= slices(before).push(piece@));
                break;
            },
        }
    }
    out
}

/// A line as it reads once its ending is taken off: a line that was ended by
/// a line feed also gives up one carriage return before it.
pub open spec fn line_text(piece: Seq<char>, ended: bool) -> Seq<char> {
    if ended && piece.len() > 0 && piece.last() == '\r' {
        piece.drop_last()
    } else {
        piece
    }
}

/// The lines of `s` from position `from` on.
pub open spec fn lines_from(s: Seq<char>, from: int) -> Seq<Seq<char>>
    decreases s.len() - from,
{
    if from < 0 || from >= s.len() {
        seq![]
    } else {
        let e = find_from(s, '\n', from);
        if from <= e < s.len() {
            seq![line_text(s.subrange(from, e), true)] + lines_from(s, e + 1)
        } else {
            seq![s.subrange(from, s.len() as int)]
        }
    }
}

/// The lines of `s`: cut at every line feed, without line endings, and
/// without an empty last line.
pub open spec fn lines_of(s: Seq<char>) -> Seq<Seq<char>> {
    lines_from(s, 0)
}

/// What stands before a text does not change where its lines are cut.
pub proof fn lemma_find_from_shift(p: Seq<char>, s: Seq<char>, c: char, from: int)
    requires
        0 <= from <= s.len(),
    ensures
        find_from(p + s, c, p.len() + from) == p.len() + find_from(s, c, from),
    decreases s.len() - from,
{
    if from < s.len() {
        assert((p + s)[p.len() + from] == s[from]);
        lemma_find_from_shift(p, s, c, from + 1);
    }
}

pub proof fn lemma_lines_shift(p: Seq<char>, s: Seq<char>, from: int)
    requires
        0 <= from <= s.len(),
    ensures
        lines_from(p + s, p.len() + from) == lines_from(s, from),
    decreases s.len() - from,
{
    if from < s.len() {
        let e = find_from(s, '\n', from);
        lemma_find_from(s, '\n', from);
        lemma_find_from_shift(p, s, '\n', from);
        assert((p + s).subrange(p.len() + from, p.len() + e) =~= s.subrange(from, e));
        if e < s.len() {
            lemma_lines_shift(p, s, e + 1);
        }
    }
}

/// What stands behind a line feed does not change where the first one is found.
pub proof fn lemma_find_from_prefix(s: Seq<char>, q: Seq<char>, c: char, from: int)
    requires
        0 <= from <= s.len(),
        q.len() > 0,
        q[0] == c,
    ensures
        find_from(s + q, c, from) == find_from(s, c, from),
    decreases s.len() - from,
{
    if from < s.len() {
        assert((s + q)[from] == s[from]);
        lemma_find_from_prefix(s, q, c, from + 1);
    } else {
        assert((s + q)[from] == q[0]);
    }
}

pub fn lines<'a>(s: &'a [char]) -> (r: Vec<&'a [char]>)
    ensures
        slices(r@) == lines_of(s@),
{
    let mut out: Vec<&'a [char]> = Vec::new();
    let mut from: usize = 0;
    while from < s.len()
        invariant
            from <= s@.len(),
            slices(out@) + lines_from(s@, from as int) =~= lines_of(s@),
        decreases s@.len() - from,
    {
        let e = find_char(s, '\n', from);
        let ghost before = out@;
        if e < s.len() {
            let piece = slice_subrange(s, from, e);
            let line = if piece.len() > 0 && piece[piece.len() - 1] == '\r' {
                slice_subrange(piece, 0, piece.len() - 1)
            } else {
                piece
            };
            assert(line@ =~= line_text(piece@, true));
            out.push(line);
            assert(slices(out@) =~= slices(before).push(line@));
            from = e + 1;
        } else {
            let piece = slice_subrange(s, from, e);
            out.push(piece);
            assert(slices(out@) =~= slices(before).push(piece@));
            from = e;
        }
    }
    out
}

/// The position of the first white space at or after `from`, or the length.
pub open spec fn space_from(s: Seq<char>, from: int) -> int
    decreases s.len() - from,
{
    if from < 0 || from >= s.len() {
        s.len() as int
    } else if is_space(s[from]) {
        from
    } else {
        space_from(s, from + 1)
    }
}

/// The words of `s`: its maximal runs without white space.
pub open spec fn words_from(s: Seq<char>, from: int) -> Seq<Seq<char>>
    decreases s.len() - from,
{
    if from < 0 || from >= s.len() {
        seq![]
    } else if is_space(s[from]) {
        words_from(s, from + 1)
    } else {
        let e = space_from(s, from);
        if from < e <= s.len() {
            seq![s.subrange(from, e)] + words_from(s, e)
        } else {
            seq![]
        }
    }
}

pub open spec fn words_of(s: Seq<char>) -> Seq<Seq<char>> {
    words_from(s, 0)
}

pub fn words<'a>(s: &'a [char]) -> (r: Vec<&'a [char]>)
    ensures
        slices(r@) == words_of(s@),
{
    let mut out: Vec<&'a [char]> = Vec::new();
    let mut from: usize = 0;
    while from < s.len()
        invariant
            from <= s@.len(),
            slices(out@) + words_from(s@, from as int) =~= words_of(s@),
        decreases s@.len() - from,
    {
        if space(s[from]) {
            from += 1;
        } else {
            let mut e: usize = from + 1;
            while e < s.len() && !space(s[e])
                invariant
                    from < e <= s@.len(),
                    space_from(s@, e as int) == space_from(s@, from as int),
                decreases s@.len() - e,
            {
                e += 1;
            }
            let piece = slice_subrange(s, from, e);
            let ghost before = out@;
            out.push(piece);
            assert(slices(out@) =~= slices(before).push(piece@));
            assert(words_from(s@, from as int) =~= seq![piece@] + words_from(s@, e as int));
            from = e;
        }
    }
    out
}

// ---------------------------------------------------------------------------
// Building
// ---------------------------------------------------------------------------

/// `parts` with `sep` between each two.
pub open spec fn joined(parts: Seq<Seq<char>>, sep: Seq<char>) -> Seq<char>
    decreases parts.len(),
{
    if parts.len() == 0 {
        seq![]
    } else if parts.len() == 1 {
        parts[0]
    } else {
        joined(parts.drop_last(), sep) + sep + parts.last()
    }
}

pub fn push_all(out: &mut String, s: &[char])
    ensures
        final(out)@ == old(out)@ + s@,
{
    let mut i: usize = 0;
    assert(out@ =~= out@ + s@.take(0));
    while i < s.len()
        invariant
            i <= s@.len(),
            out@ =~= old(out)@ + s@.take(i as int),
        decreases s@.len() - i,
    {
        out.push(s[i]);
        assert(s@.take(i + 1) =~= s@.take(i as int).push(s@[i as int]));
        i += 1;
    }
    assert(s@.take(s@.len() as int) =~= s@);
}

pub fn push_text(out: &mut String, s: &str)
    ensures
        final(out)@ == old(out)@ + s@,
{
    let cs = chars_of(s);
    push_all(out, cs.as_slice());
}

pub fn join(parts: &[&[char]], sep: &str) -> (r: String)
    ensures
        r@ == joined(slices(parts@), sep@),
{
    let mut out: String = String::new();
    let mut i: usize = 0;
    while i < parts.len()
        invariant
            i <= parts@.len(),
            out@ == joined(slices(parts@).take(i as int), sep@),
        decreases parts@.len() - i,
    {
        if i > 0 {
            push_text(&mut out, sep);
        }
        push_all(&mut out, parts[i]);
        assert(slices(parts@).take(i + 1).drop_last() =~= slices(parts@).take(i as int));
        assert(slices(parts@).take(i + 1).last() == parts@[i as int]@);
        i += 1;
    }
    assert(slices(parts@).take(parts@.len() as int) =~= slices(parts@));
    out
}

pub fn join_strings(parts: &[String], sep: &str) -> (r: String)
    ensures
        r@ == joined(texts(parts@), sep@),
{
    let mut out: String = String::new();
    let mut i: usize = 0;
    while i < parts.len()
        invariant
            i <= parts@.len(),
            out@ == joined(texts(parts@).take(i as int), sep@),
        decreases parts@.len() - i,
    {
        if i > 0 {
            push_text(&mut out, sep);
        }
        push_text(&mut out, parts[i].as_str());
        assert(texts(parts@).take(i + 1).drop_last() =~= texts(parts@).take(i as int));
        assert(texts(parts@).take(i + 1).last() == parts@[i as int]@);
        i += 1;
    }
    assert(texts(parts@).take(parts@.len() as int) =~= texts(parts@));
    out
}

/// The two texts one after the other.
pub fn concat(a: &[char], b: &[char]) -> (r: String)
    ensures
        r@ == a@ + b@,
{
    let mut out: String = string_of(a);
    push_all(&mut out, b);
    out
}

/// `s` with every `from` replaced by `to`.
pub open spec fn swapped(s: Seq<char>, from: char, to: char) -> Seq<char> {
    s.map_values(|c: char| if c == from { to } else { c })
}

pub fn replace_char(s: &[char], from: char, to: char) -> (r: Vec<char>)
    ensures
        r@ == swapped(s@, from, to),
{
    let mut out: Vec<char> = Vec::new();
    let mut i: usize = 0;
    while i < s.len()
        invariant
            i <= s@.len(),
            out@ =~= swapped(s@, from, to).take(i as int),
        decreases s@.len() - i,
    {
        let c = s[i];
        out.push(if c == from { to } else { c });
        i += 1;
    }
    out
}

/// `s` with every `p` replaced by `by`.
pub open spec fn replaced(s: Seq<char>, p: Seq<char>, by: Seq<char>) -> Seq<char> {
    joined(split_on_text(s, p), by)
}

pub fn replace_text(s: &[char], p: &str, by: &str) -> (r: String)
    requires
        p@.len() > 0,
    ensures
        r@ == replaced(s@, p@, by@),
{
    let pieces = split_text(s, p);
    join(pieces.as_slice(), by)
}

/// Is `s` one of the texts of `v`?
pub fn has_text(v: &Vec<String>, s: &str) -> (r: bool)
    ensures
        r == texts(v@).contains(s@),
{
    let mut i: usize = 0;
    while i < v.len()
        invariant
            i <= v@.len(),
            forall|k: int| 0 <= k < i ==> texts(v@)[k] != s@,
        decreases v@.len() - i,
    {
        assert(texts(v@)[i as int] == v@[i as int]@);
        if str_eq(v[i].as_str(), s) {
            return true;
        }
        i += 1;
    }
    false
}

// ---------------------------------------------------------------------------
// Order
// ---------------------------------------------------------------------------

/// `a` comes before `b` in the dictionary order of code points, which is also
/// the order of the two texts' bytes.
pub open spec fn before(a: Seq<char>, b: Seq<char>) -> bool
    decreases a.len(),
{
    if b.len() == 0 {
        false
    } else if a.len() == 0 {
        true
    } else if a[0] == b[0] {
        before(a.drop_first(), b.drop_first())
    } else {
        a[0] < b[0]
    }
}

pub fn less(a: &[char], b: &[char]) -> (r: bool)
    ensures
        r == before(a@, b@),
{
    let mut i: usize = 0;
    assert(a@.skip(0) =~= a@);
    assert(b@.skip(0) =~= b@);
    while i < a.len() && i < b.len() && a[i] == b[i]
        invariant
            i <= a@.len(),
            i <= b@.len(),
            before(a@.skip(i as int), b@.skip(i as int)) == before(a@, b@),
        decreases a@.len() - i,
    {
        assert(a@.skip(i as int).drop_first() =~= a@.skip(i + 1));
        assert(b@.skip(i as int).drop_first() =~= b@.skip(i + 1));
        i += 1;
    }
    if i == b.len() {
        false
    } else if i == a.len() {
        true
    } else {
        a[i] < b[i]
    }
}

pub fn str_less(a: &str, b: &str) -> (r: bool)
    ensures
        r == before(a@, b@),
{
    let a = chars_of(a);
    let b = chars_of(b);
    less(a.as_slice(), b.as_slice())
}

pub proof fn lemma_before_irreflexive(a: Seq<char>)
    ensures
        !before(a, a),
    decreases a.len(),
{
    if a.len() > 0 {
        lemma_before_irreflexive(a.drop_first());
    }
}

pub proof fn lemma_before_transitive(a: Seq<char>, b: Seq<char>, c: Seq<char>)
    requires
        before(a, b),
        before(b, c),
    ensures
        before(a, c),
    decreases a.len(),
{
    if a.len() > 0 && a[0] == b[0] && b[0] == c[0] {
        lemma_before_transitive(a.drop_first(), b.drop_first(), c.drop_first());
    }
}

pub proof fn lemma_before_total(a: Seq<char>, b: Seq<char>)
    ensures
        before(a, b) || before(b, a) || a == b,
    decreases a.len(),
{
    if a.len() == 0 && b.len() == 0 {
        assert(a =~= b);
    } else if a.len() > 0 && b.len() > 0 && a[0] == b[0] {
        lemma_before_total(a.drop_first(), b.drop_first());
        if a.drop_first() == b.drop_first() {
            assert(a =~= seq![a[0]] + a.drop_first());
            assert(b =~= seq![b[0]] + b.drop_first());
        }
    }
}

// ---------------------------------------------------------------------------
// Sorted lists of distinct texts
// ---------------------------------------------------------------------------

/// Each text comes before the next.
pub open spec fn ascending(r: Seq<Seq<char>>) -> bool {
    forall|i: int, j: int| 0 <= i < j < r.len() ==> before(#[trigger] r[i], #[trigger] r[j])
}

/// `r` holds the texts of `s`, each once, in ascending order.
pub open spec fn is_ordered(r: Seq<Seq<char>>, s: Seq<Seq<char>>) -> bool {
    ascending(r) && forall|t: Seq<char>| #[trigger] r.contains(t) <==> s.contains(t)
}

/// The texts of `s`, each once, in ascending order.
pub open spec fn ordered(s: Seq<Seq<char>>) -> Seq<Seq<char>> {
    choose|r: Seq<Seq<char>>| is_ordered(r, s)
}

/// There is only one such list.
pub proof fn lemma_ordered_unique(a: Seq<Seq<char>>, b: Seq<Seq<char>>)
    requires
        ascending(a),
        ascending(b),
        forall|t: Seq<char>| #[trigger] a.contains(t) <==> b.contains(t),
    ensures
        a == b,
    decreases a.len(),
{
    if a.len() == 0 {
        if b.len() > 0 {
            assert(b.contains(b[0]));
            assert(a.contains(b[0]));
        }
        assert(a =~= b);
    } else {
        assert(a.contains(a[0]));
        assert(b.contains(a[0]));
        let j = choose|j: int| 0 <= j < b.len() && b[j] == a[0];
        assert(b.contains(b[0]));
        assert(a.contains(b[0]));
        let k = choose|k: int| 0 <= k < a.len() && a[k] == b[0];
        if j > 0 {
            assert(before(b[0], b[j]));
            lemma_before_irreflexive(a[0]);
            if k > 0 {
                assert(before(a[0], a[k]));
                lemma_before_transitive(a[0], b[0], a[0]);
            }
        }
        let x = a.drop_first();
        let y = b.drop_first();
        assert forall|t: Seq<char>| #[trigger] x.contains(t) <==> y.contains(t) by {
            lemma_tail_contains(a, t);
            lemma_tail_contains(b, t);
        }
        lemma_ordered_unique(x, y);
        assert(a =~= seq![a[0]] + x);
        assert(b =~= seq![b[0]] + y);
    }
}

/// The tail of an ascending list holds all of it but the first text.
proof fn lemma_tail_contains(a: Seq<Seq<char>>, t: Seq<char>)
    requires
        ascending(a),
        a.len() > 0,
    ensures
        a.drop_first().contains(t) <==> a.contains(t) && t != a[0],
{
    if a.drop_first().contains(t) {
        let i = choose|i: int| 0 <= i < a.drop_first().len() && a.drop_first()[i] == t;
        assert(a[i + 1] == t);
        assert(before(a[0], a[i + 1]));
        lemma_before_irreflexive(a[0]);
    }
    if a.contains(t) && t != a[0] {
        let i = choose|i: int| 0 <= i < a.len() && a[i] == t;
        assert(a.drop_first()[i - 1] == t);
    }
}

/// The ordered list of `s` is whatever list has its properties.
pub proof fn lemma_is_ordered(r: Seq<Seq<char>>, s: Seq<Seq<char>>)
    requires
        is_ordered(r, s),
    ensures
        r == ordered(s),
{
    let o = ordered(s);
    assert(is_ordered(o, s));
    assert forall|t: Seq<char>| #[trigger] r.contains(t) <==> o.contains(t) by {
        assert(s.contains(t) <==> r.contains(t));
    }
    lemma_ordered_unique(r, o);
}

/// An ascending list and one more text, in ascending order.
proof fn lemma_place(r: Seq<Seq<char>>, x: Seq<char>) -> (k: int)
    requires
        ascending(r),
        !r.contains(x),
    ensures
        0 <= k <= r.len(),
        ascending(r.insert(k, x)),
        forall|t: Seq<char>| #[trigger] r.insert(k, x).contains(t) <==> r.contains(t) || t == x,
    decreases r.len(),
{
    let k = if r.len() == 0 {
        0
    } else {
        lemma_before_total(r.last(), x);
        assert(r.contains(r.last()));
        if before(r.last(), x) {
            r.len() as int
        } else {
            let init = r.drop_last();
            assert forall|t: Seq<char>| init.contains(t) implies #[trigger] r.contains(t) by {
                let i = choose|i: int| 0 <= i < init.len() && init[i] == t;
                assert(r[i] == t);
            }
            assert(ascending(init));
            let k = lemma_place(init, x);
            let p = init.insert(k, x);
            assert(r.insert(k, x) =~= p.push(r.last()));
            assert forall|i: int| 0 <= i < p.len() implies before(#[trigger] p[i], r.last()) by {
                assert(p.contains(p[i]));
                if p[i] != x {
                    let j = choose|j: int| 0 <= j < init.len() && init[j] == p[i];
                    assert(before(r[j], r[r.len() - 1]));
                }
            }
            k
        }
    };
    let w = r.insert(k, x);
    assert forall|i: int, j: int| 0 <= i < j < w.len() implies before(
        #[trigger] w[i],
        #[trigger] w[j],
    ) by {
        if k == r.len() {
            if j < r.len() {
                assert(w[i] == r[i] && w[j] == r[j]);
            } else {
                assert(w[i] == r[i]);
                if i < r.len() - 1 {
                    assert(before(r[i], r[r.len() - 1]));
                    lemma_before_transitive(r[i], r.last(), x);
                }
            }
        } else {
            let p = r.drop_last().insert(k, x);
            assert(w =~= p.push(r.last()));
            if j < p.len() {
                assert(w[i] == p[i] && w[j] == p[j]);
            } else {
                assert(w[i] == p[i]);
            }
        }
    }
    assert forall|t: Seq<char>| #[trigger] w.contains(t) <==> r.contains(t) || t == x by {
        if w.contains(t) {
            let i = choose|i: int| 0 <= i < w.len() && w[i] == t;
            if i < k {
                assert(r[i] == t);
            } else if i > k {
                assert(r[i - 1] == t);
            }
        }
        if r.contains(t) {
            let i = choose|i: int| 0 <= i < r.len() && r[i] == t;
            if i < k {
                assert(w[i] == t);
            } else {
                assert(w[i + 1] == t);
            }
        }
        if t == x {
            assert(w[k] == t);
        }
    }
    k
}

/// Every list of texts has an ordered one.
pub proof fn lemma_ordered(s: Seq<Seq<char>>)
    ensures
        is_ordered(ordered(s), s),
    decreases s.len(),
{
    if s.len() == 0 {
        let none = Seq::<Seq<char>>::empty();
        assert(is_ordered(none, s));
    } else {
        let init = s.drop_last();
        lemma_ordered(init);
        let r = ordered(init);
        let mut w = r;
        if !r.contains(s.last()) {
            let k = lemma_place(r, s.last());
            w = r.insert(k, s.last());
        }
        assert forall|t: Seq<char>| #[trigger] w.contains(t) <==> s.contains(t) by {
            assert(r.contains(t) <==> init.contains(t));
            if init.contains(t) {
                let i = choose|i: int| 0 <= i < init.len() && init[i] == t;
                assert(s[i] == t);
            }
            if s.contains(t) && t != s.last() {
                let i = choose|i: int| 0 <= i < s.len() && s[i] == t;
                assert(init[i] == t);
            }
            assert(s[s.len() - 1] == s.last());
        }
        assert(is_ordered(w, s));
    }
}

/// Put `s` into the ascending list `v`, unless it is there.
fn insert_ordered(v: &mut Vec<String>, s: &str)
    requires
        ascending(texts(old(v)@)),
    ensures
        ascending(texts(final(v)@)),
        forall|t: Seq<char>| #[trigger]
            texts(final(v)@).contains(t) <==> texts(old(v)@).contains(t) || t == s@,
{
    let ghost old_texts = texts(v@);
    let mut lo: usize = 0;
    let mut hi: usize = v.len();
    while lo < hi
        invariant
            lo <= hi <= v@.len(),
            ascending(texts(v@)),
            forall|k: int| 0 <= k < lo ==> before(#[trigger] texts(v@)[k], s@),
            forall|k: int| hi <= k < v@.len() ==> !before(#[trigger] texts(v@)[k], s@),
        decreases hi - lo,
    {
        let mid = lo + (hi - lo) / 2;
        assert(texts(v@)[mid as int] == v@[mid as int]@);
        if str_less(v[mid].as_str(), s) {
            proof {
                assert forall|k: int| 0 <= k < mid + 1 implies before(
                    #[trigger] texts(v@)[k],
                    s@,
                ) by {
                    if k < mid {
                        assert(before(texts(v@)[k], texts(v@)[mid as int]));
                        lemma_before_transitive(texts(v@)[k], texts(v@)[mid as int], s@);
                    }
                }
            }
            lo = mid + 1;
        } else {
            proof {
                assert forall|k: int| mid <= k < v@.len() implies !before(
                    #[trigger] texts(v@)[k],
                    s@,
                ) by {
                    if k > mid && before(texts(v@)[k], s@) {
                        assert(before(texts(v@)[mid as int], texts(v@)[k]));
                        lemma_before_transitive(texts(v@)[mid as int], texts(v@)[k], s@);
                    }
                }
            }
            hi = mid;
        }
    }
    if lo < v.len() {
        assert(texts(v@)[lo as int] == v@[lo as int]@);
        if str_eq(v[lo].as_str(), s) {
            proof {
                assert(texts(v@).contains(s@));
            }
            return;
        }
    }
    v.insert(lo, s.to_owned());
    proof {
        let r = texts(v@);
        assert(r =~= old_texts.insert(lo as int, s@));
        assert forall|i: int, j: int| 0 <= i < j < r.len() implies before(
            #[trigger] r[i],
            #[trigger] r[j],
        ) by {
            let x = if i < lo {
                i
            } else {
                i - 1
            };
            let y = if j < lo {
                j
            } else {
                j - 1
            };
            if i != lo && j != lo {
                assert(r[i] == old_texts[x] && r[j] == old_texts[y]);
            } else if j == lo {
                assert(r[i] == old_texts[i]);
            } else {
                assert(r[j] == old_texts[y]);
                assert(!before(old_texts[y], s@));
                lemma_before_total(s@, old_texts[y]);
                if old_texts[y] == s@ {
                    if y > lo {
                        assert(before(old_texts[lo as int], old_texts[y]));
                        assert(!before(old_texts[lo as int], s@));
                    }
                }
            }
        }
        assert forall|t: Seq<char>| #[trigger] r.contains(t) <==> old_texts.contains(t) || t
            == s@ by {
            if r.contains(t) {
                let i = choose|i: int| 0 <= i < r.len() && r[i] == t;
                if i < lo {
                    assert(old_texts[i] == t);
                } else if i > lo {
                    assert(old_texts[i - 1] == t);
                }
            }
            if old_texts.contains(t) {
                let i = choose|i: int| 0 <= i < old_texts.len() && old_texts[i] == t;
                if i < lo {
                    assert(r[i] == t);
                } else {
                    assert(r[i + 1] == t);
                }
            }
            if t == s@ {
                assert(r[lo as int] == t);
            }
        }
    }
}

/// The texts of `v`, each once, in ascending order.
pub fn sort_distinct(v: &Vec<String>) -> (r: Vec<String>)
    ensures
        texts(r@) == ordered(texts(v@)),
        is_ordered(texts(r@), texts(v@)),
{
    let mut out: Vec<String> = Vec::new();
    let mut i: usize = 0;
    while i < v.len()
        invariant
            i <= v@.len(),
            ascending(texts(out@)),
            forall|t: Seq<char>| #[trigger]
                texts(out@).contains(t) <==> texts(v@).take(i as int).contains(t),
        decreases v@.len() - i,
    {
        let ghost was = texts(out@);
        insert_ordered(&mut out, v[i].as_str());
        proof {
            let a = texts(v@).take(i as int);
            let b = texts(v@).take(i + 1);
            assert forall|t: Seq<char>| #[trigger] texts(out@).contains(t) <==> b.contains(t) by {
                assert(was.contains(t) <==> a.contains(t));
                if a.contains(t) {
                    let k = choose|k: int| 0 <= k < a.len() && a[k] == t;
                    assert(b[k] == t);
                }
                if t == v@[i as int]@ {
                    assert(b[i as int] == t);
                }
                if b.contains(t) && t != v@[i as int]@ {
                    let k = choose|k: int| 0 <= k < b.len() && b[k] == t;
                    assert(a[k] == t);
                }
            }
        }
        i += 1;
    }
    proof {
        assert(texts(v@).take(v@.len() as int) =~= texts(v@));
        lemma_is_ordered(texts(out@), texts(v@));
    }
    out
}

// ---------------------------------------------------------------------------
// Numbers
// ---------------------------------------------------------------------------

/// The character of a digit below sixteen.
pub open spec fn digit(d: int) -> char {
    if d == 0 {
        '0'
    } else if d == 1 {
        '1'
    } else if d == 2 {
        '2'
    } else if d == 3 {
        '3'
    } else if d == 4 {
        '4'
    } else if d == 5 {
        '5'
    } else if d == 6 {
        '6'
    } else if d == 7 {
        '7'
    } else if d == 8 {
        '8'
    } else if d == 9 {
        '9'
    } else if d == 10 {
        'a'
    } else if d == 11 {
        'b'
    } else if d == 12 {
        'c'
    } else if d == 13 {
        'd'
    } else if d == 14 {
        'e'
    } else {
        'f'
    }
}

pub fn digit_char(d: u64) -> (r: char)
    requires
        d < 16,
    ensures
        r == digit(d as int),
{
    match d {
        0 => '0',
        1 => '1',
        2 => '2',
        3 => '3',
        4 => '4',
        5 => '5',
        6 => '6',
        7 => '7',
        8 => '8',
        9 => '9',
        10 => 'a',
        11 => 'b',
        12 => 'c',
        13 => 'd',
        14 => 'e',
        _ => 'f',
    }
}

/// `n` in decimal digits.
pub open spec fn decimal(n: nat) -> Seq<char>
    decreases n,
{
    if n < 10 {
        seq![digit(n as int)]
    } else {
        decimal(n / 10).push(digit((n % 10) as int))
    }
}

pub fn push_decimal(out: &mut String, n: u64)
    ensures
        final(out)@ == old(out)@ + decimal(n as nat),
    decreases n,
{
    if n >= 10 {
        push_decimal(out, n / 10);
    }
    let ghost mid = out@;
    out.push(digit_char(n % 10));
    proof {
        if n >= 10 {
            assert(mid == old(out)@ + decimal((n / 10) as nat));
        }
        assert(out@ =~= old(out)@ + decimal(n as nat));
    }
}

proof fn lemma_digit_injective(a: int, b: int)
    requires
        0 <= a < 16,
        0 <= b < 16,
        digit(a) == digit(b),
    ensures
        a == b,
{
}

/// Different numbers have different decimal digits.
pub proof fn lemma_decimal_injective(a: nat, b: nat)
    requires
        decimal(a) == decimal(b),
    ensures
        a == b,
    decreases a,
{
    lemma_decimal_len(a);
    lemma_decimal_len(b);
    let x = decimal(a);
    let y = decimal(b);
    assert(x.last() == digit((a % 10) as int));
    assert(y.last() == digit((b % 10) as int));
    lemma_digit_injective((a % 10) as int, (b % 10) as int);
    if a >= 10 {
        assert(x.drop_last() =~= decimal(a / 10));
        assert(y.drop_last() =~= decimal(b / 10));
        lemma_decimal_injective(a / 10, b / 10);
    }
}

pub proof fn lemma_decimal_len(a: nat)
    ensures
        decimal(a).len() >= 1,
        decimal(a).len() == 1 <==> a < 10,
    decreases a,
{
    if a >= 10 {
        lemma_decimal_len(a / 10);
    }
}

} // verus!
