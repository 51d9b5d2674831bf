//! How sure the resolver is of an edge.

use crate::text;
use vstd::prelude::*;

verus! {

/// The confidence of a call edge, from a formal proof down to nothing.
#[derive(Clone, Copy, Debug, PartialEq, Eq, Structural)]
pub enum EdgeConfidence {
    Formal,
    Resolved,
    Inferred,
    Textual,
    Ambiguous,
    Unresolved,
}

/// The stored spelling of a confidence.
pub open spec fn spelling(c: EdgeConfidence) -> Seq<char> {
    match c {
        EdgeConfidence::Formal => "formal"@,
        EdgeConfidence::Resolved => "resolved"@,
        EdgeConfidence::Inferred => "inferred"@,
        EdgeConfidence::Textual => "textual"@,
        EdgeConfidence::Ambiguous => "ambiguous"@,
        EdgeConfidence::Unresolved => "unresolved"@,
    }
}

/// The order of confidences; the two that confirm nothing share the bottom.
pub open spec fn rank_of(c: EdgeConfidence) -> int {
    match c {
        EdgeConfidence::Formal => 4,
        EdgeConfidence::Resolved => 3,
        EdgeConfidence::Inferred => 2,
        EdgeConfidence::Textual => 1,
        EdgeConfidence::Ambiguous => 0,
        EdgeConfidence::Unresolved => 0,
    }
}

/// The confidence that is spelled `s`, if any is.
pub open spec fn parsed(s: Seq<char>) -> Option<EdgeConfidence> {
    if s == "formal"@ {
        Some(EdgeConfidence::Formal)
    } else if s == "resolved"@ {
        Some(EdgeConfidence::Resolved)
    } else if s == "inferred"@ {
        Some(EdgeConfidence::Inferred)
    } else if s == "textual"@ {
        Some(EdgeConfidence::Textual)
    } else if s == "ambiguous"@ {
        Some(EdgeConfidence::Ambiguous)
    } else if s == "unresolved"@ {
        Some(EdgeConfidence::Unresolved)
    } else {
        None
    }
}

impl EdgeConfidence {
    pub fn as_str(&self) -> (r: &'static str)
        ensures
            r@ == spelling(*self),
    {
        match self {
            EdgeConfidence::Formal => "formal",
            EdgeConfidence::Resolved => "resolved",
            EdgeConfidence::Inferred => "inferred",
            EdgeConfidence::Textual => "textual",
            EdgeConfidence::Ambiguous => "ambiguous",
            EdgeConfidence::Unresolved => "unresolved",
        }
    }

    pub fn rank(&self) -> (r: u8)
        ensures
            r == rank_of(*self),
    {
        match self {
            EdgeConfidence::Formal => 4,
            EdgeConfidence::Resolved => 3,
            EdgeConfidence::Inferred => 2,
            EdgeConfidence::Textual => 1,
            EdgeConfidence::Ambiguous => 0,
            EdgeConfidence::Unresolved => 0,
        }
    }

    pub fn parse(s: &str) -> (r: Option<Self>)
        ensures
            r == parsed(s@),
    {
        let c = text::chars_of(s);
        let c = c.as_slice();
        if text::is(c, "formal") {
            Some(EdgeConfidence::Formal)
        } else if text::is(c, "resolved") {
            Some(EdgeConfidence::Resolved)
        } else if text::is(c, "inferred") {
            Some(EdgeConfidence::Inferred)
        } else if text::is(c, "textual") {
            Some(EdgeConfidence::Textual)
        } else if text::is(c, "ambiguous") {
            Some(EdgeConfidence::Ambiguous)
        } else if text::is(c, "unresolved") {
            Some(EdgeConfidence::Unresolved)
        } else {
            None
        }
    }

    /// Is the target of such an edge known, not guessed?
    pub fn is_verified(&self) -> (r: bool)
        ensures
            r == (rank_of(*self) >= rank_of(EdgeConfidence::Resolved)),
    {
        self.rank() >= 3
    }
}

/// Reading a confidence back from its spelling gives that confidence.
pub proof fn lemma_parse_spelling(c: EdgeConfidence)
    ensures
        parsed(spelling(c)) == Some(c),
{
    reveal_strlit("formal");
    reveal_strlit("resolved");
    reveal_strlit("inferred");
    reveal_strlit("textual");
    reveal_strlit("ambiguous");
    reveal_strlit("unresolved");
    let f = "formal"@;
    let r = "resolved"@;
    let i = "inferred"@;
    let t = "textual"@;
    let a = "ambiguous"@;
    let u = "unresolved"@;
    assert(f[0] == 'f' && r[0] == 'r' && i[0] == 'i' && t[0] == 't' && a[0] == 'a' && u[0] == 'u');
}

} // verus!
