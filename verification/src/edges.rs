//! The rows of the graph: call edges, import edges, type relations, effects.

use vstd::prelude::*;

verus! {

/// One resolved call, ready to be stored.
pub struct CallEdge {
    pub from_symbol: String,
    pub to_symbol: String,
    pub call_site_line: Option<i32>,
    /// The call site the edge comes from; `None` only for rows stored before
    /// call sites had an identity of their own.
    pub call_site_id: Option<i64>,
    pub edge_confidence: String,
    pub from_path: Option<String>,
    pub to_path: Option<String>,
    /// `"call"`, or `"reference"` for a view or procedure that reads a table.
    pub edge_kind: String,
    /// 0 for a preferred candidate, 1 for an alternate one.
    pub candidate_rank: i64,
}

/// What a call edge says, with its texts as character sequences.
pub struct CallEdgeView {
    pub from_symbol: Seq<char>,
    pub to_symbol: Seq<char>,
    pub call_site_line: Option<i32>,
    pub call_site_id: Option<i64>,
    pub edge_confidence: Seq<char>,
    pub from_path: Option<Seq<char>>,
    pub to_path: Option<Seq<char>>,
    pub edge_kind: Seq<char>,
    pub candidate_rank: int,
}

/// An optional text, seen as its characters.
pub open spec fn opt_text(s: Option<String>) -> Option<Seq<char>> {
    match s {
        Some(x) => Some(x@),
        None => None,
    }
}

impl View for CallEdge {
    type V = CallEdgeView;

    open spec fn view(&self) -> CallEdgeView {
        CallEdgeView {
            from_symbol: self.from_symbol@,
            to_symbol: self.to_symbol@,
            call_site_line: self.call_site_line,
            call_site_id: self.call_site_id,
            edge_confidence: self.edge_confidence@,
            from_path: opt_text(self.from_path),
            to_path: opt_text(self.to_path),
            edge_kind: self.edge_kind@,
            candidate_rank: self.candidate_rank as int,
        }
    }
}

/// One import statement; `to_path` is the indexed file it names, if one is.
pub struct ImportEdge {
    pub from_path: String,
    pub to_path: Option<String>,
    pub module_name: String,
    pub symbols_used: String,
}

/// What an import edge says.
pub struct ImportEdgeView {
    pub from_path: Seq<char>,
    pub to_path: Option<Seq<char>>,
    pub module_name: Seq<char>,
    pub symbols_used: Seq<char>,
}

impl View for ImportEdge {
    type V = ImportEdgeView;

    open spec fn view(&self) -> ImportEdgeView {
        ImportEdgeView {
            from_path: self.from_path@,
            to_path: opt_text(self.to_path),
            module_name: self.module_name@,
            symbols_used: self.symbols_used@,
        }
    }
}

/// One `extends` or `implements` fact.
pub struct TypeRelationData {
    pub from_symbol: String,
    pub relation_kind: &'static str,
    pub target_text: String,
    pub to_symbol: Option<String>,
    pub confidence: &'static str,
    /// `"same_file_ast"` where `to_symbol` was found in the same file.
    pub resolution_source: Option<&'static str>,
    pub source_path: String,
    pub line: i64,
}

/// What a type relation says.
pub struct TypeRelationView {
    pub from_symbol: Seq<char>,
    pub relation_kind: Seq<char>,
    pub target_text: Seq<char>,
    pub to_symbol: Option<Seq<char>>,
    pub confidence: Seq<char>,
    pub resolution_source: Option<Seq<char>>,
    pub source_path: Seq<char>,
    pub line: int,
}

/// An optional literal, seen as its characters.
pub open spec fn opt_lit(s: Option<&'static str>) -> Option<Seq<char>> {
    match s {
        Some(x) => Some(x@),
        None => None,
    }
}

impl View for TypeRelationData {
    type V = TypeRelationView;

    open spec fn view(&self) -> TypeRelationView {
        TypeRelationView {
            from_symbol: self.from_symbol@,
            relation_kind: self.relation_kind@,
            target_text: self.target_text@,
            to_symbol: opt_text(self.to_symbol),
            confidence: self.confidence@,
            resolution_source: opt_lit(self.resolution_source),
            source_path: self.source_path@,
            line: self.line as int,
        }
    }
}

/// One explicit throw or field write.
pub struct SymbolEffectData {
    pub symbol_qn: String,
    pub effect_kind: &'static str,
    pub target_text: String,
    /// `"exact"` or `"none"`.
    pub target_confidence: &'static str,
    pub source_path: String,
    pub line: i64,
}

/// What an effect says.
pub struct SymbolEffectView {
    pub symbol_qn: Seq<char>,
    pub effect_kind: Seq<char>,
    pub target_text: Seq<char>,
    pub target_confidence: Seq<char>,
    pub source_path: Seq<char>,
    pub line: int,
}

impl View for SymbolEffectData {
    type V = SymbolEffectView;

    open spec fn view(&self) -> SymbolEffectView {
        SymbolEffectView {
            symbol_qn: self.symbol_qn@,
            effect_kind: self.effect_kind@,
            target_text: self.target_text@,
            target_confidence: self.target_confidence@,
            source_path: self.source_path@,
            line: self.line as int,
        }
    }
}

} // verus!
