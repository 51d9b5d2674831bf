//! Symbols whose first or last line also belongs to a neighbour.

use crate::text;
use vstd::prelude::*;

verus! {

/// Where a symbol stands; the rows come by path, and by first line within one.
pub struct SpanRow {
    pub qualified_name: String,
    pub path: String,
    pub line_start: i64,
    pub line_end: i64,
}

/// Do two neighbours in one file touch, without the second being nested in the
/// first? A symbol that starts on the line of its container is not nested: a
/// range of lines cannot tell the two apart.
pub open spec fn touching(a: SpanRow, b: SpanRow) -> bool {
    &&& a.path@ == b.path@
    &&& a.line_end >= b.line_start
    &&& !(b.line_start > a.line_start && b.line_end <= a.line_end)
}

/// The names of all neighbours that touch, pair by pair.
pub open spec fn touched(rows: Seq<SpanRow>) -> Seq<Seq<char>>
    decreases rows.len(),
{
    if rows.len() < 2 {
        seq![]
    } else {
        let init = touched(rows.drop_last());
        let a = rows[rows.len() - 2];
        let b = rows.last();
        if touching(a, b) {
            init.push(a.qualified_name@).push(b.qualified_name@)
        } else {
            init
        }
    }
}

/// The symbols whose boundary is ambiguous, each once, by name.
pub fn update_boundary_ambiguous_flags(rows: &Vec<SpanRow>) -> (r: Vec<String>)
    ensures
        text::texts(r@) == text::ordered(touched(rows@)),
{
    let mut out: Vec<String> = Vec::new();
    let mut i: usize = 0;
    assert(text::texts(out@) =~= touched(rows@.take(0)));
    while i < rows.len()
        invariant
            i <= rows@.len(),
            text::texts(out@) == touched(rows@.take(i as int)),
        decreases rows@.len() - i,
    {
        let ghost before = out@;
        proof {
            assert(rows@.take(i + 1).drop_last() =~= rows@.take(i as int));
        }
        if i > 0 {
            let a = &rows[i - 1];
            let b = &rows[i];
            let nested = b.line_start > a.line_start && b.line_end <= a.line_end;
            if text::str_eq(a.path.as_str(), b.path.as_str()) && a.line_end >= b.line_start
                && !nested {
                out.push(a.qualified_name.clone());
                out.push(b.qualified_name.clone());
                assert(text::texts(out@) =~= text::texts(before).push(a.qualified_name@).push(
                    b.qualified_name@,
                ));
            }
        }
        i += 1;
    }
    assert(rows@.take(rows@.len() as int) =~= rows@);
    text::sort_distinct(&out)
}

/// A symbol is flagged exactly where it touches the one before it or the one
/// after it.
pub proof fn lemma_flagged_iff_touching(rows: Seq<SpanRow>, q: Seq<char>)
    ensures
        touched(rows).contains(q) <==> exists|i: int|
            0 <= i < rows.len() - 1 && touching(#[trigger] rows[i], rows[i + 1]) && (
            rows[i].qualified_name@ == q || rows[i + 1].qualified_name@ == q),
    decreases rows.len(),
{
    if rows.len() >= 2 {
        let rest = rows.drop_last();
        let init = touched(rest);
        let all = touched(rows);
        let n = rows.len() - 2;
        let a = rows[n];
        let b = rows[n + 1];
        lemma_flagged_iff_touching(rest, q);
        assert(b == rows.last());
        if all.contains(q) {
            let k = choose|k: int| 0 <= k < all.len() && all[k] == q;
            if k < init.len() {
                assert(init[k] == q);
                let i = choose|i: int|
                    0 <= i < rest.len() - 1 && touching(#[trigger] rest[i], rest[i + 1]) && (
                    rest[i].qualified_name@ == q || rest[i + 1].qualified_name@ == q);
                assert(rows[i] == rest[i] && rows[i + 1] == rest[i + 1]);
            } else {
                assert(touching(rows[n], rows[n + 1]));
            }
        }
        if exists|i: int|
            0 <= i < rows.len() - 1 && touching(#[trigger] rows[i], rows[i + 1]) && (
            rows[i].qualified_name@ == q || rows[i + 1].qualified_name@ == q) {
            let i = choose|i: int|
                0 <= i < rows.len() - 1 && touching(#[trigger] rows[i], rows[i + 1]) && (
                rows[i].qualified_name@ == q || rows[i + 1].qualified_name@ == q);
            if i < n {
                assert(rest[i] == rows[i] && rest[i + 1] == rows[i + 1]);
                assert(touching(rest[i], rest[i + 1]));
                assert(init.contains(q));
                let k = choose|k: int| 0 <= k < init.len() && init[k] == q;
                assert(all[k] == q);
            } else {
                assert(all == init.push(a.qualified_name@).push(b.qualified_name@));
                assert(all[init.len() as int] == a.qualified_name@);
                assert(all[init.len() as int + 1] == b.qualified_name@);
            }
        }
    }
}

/// Symbols of different files never make each other ambiguous.
pub proof fn lemma_files_are_separate(a: SpanRow, b: SpanRow)
    requires
        a.path@ != b.path@,
    ensures
        !touching(a, b),
{
}

/// A symbol that starts below its container's first line and ends within it is
/// normal nesting.
pub proof fn lemma_nesting_is_not_ambiguous(a: SpanRow, b: SpanRow)
    requires
        b.line_start > a.line_start,
        b.line_end <= a.line_end,
    ensures
        !touching(a, b),
{
}

} // verus!
