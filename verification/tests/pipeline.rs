//! From what a parser finds in files to the edges of the graph.

use calm_core::context::{build_resolution_context, FileRow, SymbolRow};
use calm_core::digraph::EdgeRow;
use calm_core::edges::CallEdge;
use calm_core::extraction::{
    extract_file_data, ExtractedFile, ParsedFile, RawCall, TreeFacts,
};
use calm_core::graph::{rebuild_graph, refresh_caller_counts};
use calm_core::maps::NamespaceMap;
use calm_core::names::NameTable;
use calm_core::naming::{ParsedSymbol, SymbolKind};
use calm_core::reconcile::CallSiteRow;
use calm_core::types::EdgeConfidence;

fn s(x: &str) -> String {
    x.to_string()
}

fn symbol(name: &str, kind: SymbolKind, class: Option<&str>, line: usize, byte: usize) -> ParsedSymbol {
    ParsedSymbol {
        qualified_name: String::new(),
        name: s(name),
        kind,
        kind_text: String::new(),
        language: String::new(),
        path: String::new(),
        line_start: line,
        line_end: line,
        start_byte: byte,
        signature: String::new(),
        docstring: String::new(),
        name_tokens: String::new(),
        class_context: class.map(s),
        is_entry_point: false,
        is_test: false,
        complexity: 1,
        arity: None,
        arity_variadic: false,
    }
}

fn call(enclosing: &str, enclosing_line: usize, callee: &str, line: usize, start: usize) -> RawCall {
    RawCall {
        callee: s(callee),
        receiver: None,
        receiver_is_type_path: false,
        receiver_is_type_like: false,
        enclosing_name: s(enclosing),
        enclosing_line,
        enclosing_class: None,
        line,
        callee_start_byte: start,
        callee_end_byte: start + callee.len(),
        looks_option_or_result_chained: false,
        module_hint: None,
        rooted_outside: false,
        arg_count: None,
        alias: None,
        tier1: EdgeConfidence::Textual,
        tier1_path: None,
        tier2: None,
    }
}

fn local(enclosing: &str, enclosing_line: usize, callee: &str, line: usize, start: usize) -> RawCall {
    let mut c = call(enclosing, enclosing_line, callee, line, start);
    c.tier1 = EdgeConfidence::Resolved;
    c
}

fn read(
    rel: &str,
    lang: &str,
    symbols: Vec<ParsedSymbol>,
    calls: Vec<RawCall>,
    formal: &[&str],
) -> ExtractedFile {
    let mut names = NameTable::new();
    for name in formal {
        names.intern(name);
    }
    let facts = TreeFacts { imports: vec![], calls, relations: vec![], effects: vec![] };
    extract_file_data(rel, lang, ParsedFile::Tree { symbols, facts }, &Vec::new(), &names)
}

struct Index {
    names: Vec<String>,
    edges: Vec<CallEdge>,
}

fn index(lang: &str, files: Vec<(&str, ExtractedFile)>) -> Index {
    let mut rows: Vec<SymbolRow> = Vec::new();
    let mut paths: Vec<FileRow> = Vec::new();
    let mut sites: Vec<CallSiteRow> = Vec::new();
    for (rel, data) in &files {
        paths.push(FileRow { path: s(rel), language: Some(s(lang)) });
        assert_eq!(data.symbol_count, data.symbols.len());
        for x in &data.symbols {
            assert_eq!(x.path, *rel);
            rows.push(SymbolRow {
                name: x.name.clone(),
                qualified_name: x.qualified_name.clone(),
                path: x.path.clone(),
                class_context: x.class_context.clone(),
                signature: x.signature.clone(),
                language: s(lang),
                arity: x.arity,
                arity_variadic: x.arity_variadic,
            });
        }
        for c in &data.call_sites {
            sites.push(CallSiteRow {
                id: sites.len() as i64 + 1,
                from_path: s(rel),
                enclosing_qn: c.enclosing_qn.clone(),
                callee: c.callee.clone(),
                line: Some(c.line),
                confidence: c.confidence.clone(),
                receiver: c.receiver.clone(),
                target_class: c.target_class.clone(),
                looks_option_or_result_chained: c.looks_option_or_result_chained,
                module_hint: c.module_hint.clone(),
                edge_kind: c.edge_kind.clone(),
                arg_count: c.arg_count,
                import_segment: c.import_path.clone(),
                target_type_kind: c.target_type_kind.clone(),
                target_type_qn: c.target_type_qn.clone(),
            });
        }
    }
    let names = rows.iter().map(|r| r.qualified_name.clone()).collect();
    let ctx = build_resolution_context(&paths, rows, &vec![], &vec![], NamespaceMap::new());
    let update = rebuild_graph(&ctx, &sites, &vec![]);
    assert!(update.removed.is_empty());
    Index { names, edges: update.edges }
}

impl Index {
    fn between(&self, from: &str, to: &str) -> Vec<&CallEdge> {
        self.edges.iter().filter(|e| e.from_symbol == from && e.to_symbol == to).collect()
    }

    fn callers(&self, of: &str) -> usize {
        let rows: Vec<EdgeRow> = self
            .edges
            .iter()
            .map(|e| EdgeRow {
                from_symbol: e.from_symbol.clone(),
                to_symbol: e.to_symbol.clone(),
                edge_confidence: e.edge_confidence.clone(),
                ruled_out_by_scip: false,
            })
            .collect();
        refresh_caller_counts(&vec![s(of)], &rows)[0].caller_count
    }
}

#[test]
fn test_run_indexing_pipeline_real_extraction() {
    let data = read(
        "a.py",
        "python",
        vec![
            symbol("helper", SymbolKind::Function, None, 1, 0),
            symbol("main", SymbolKind::Function, None, 4, 24),
        ],
        vec![local("main", 4, "helper", 5, 40), local("main", 4, "helper", 6, 53)],
        &[],
    );
    let index = index("python", vec![("a.py", data)]);
    assert_eq!(index.names, vec!["a.py::helper", "a.py::main"]);
    assert_eq!(index.between("a.py::main", "a.py::helper").len(), 2);
    assert_eq!(index.callers("a.py::helper"), 1);
}

#[test]
fn test_tier2_go_pointer_receiver() {
    let mut process = symbol("Process", SymbolKind::Method, Some("Service"), 3, 31);
    process.arity = Some(0);
    let a = read(
        "a.go",
        "go",
        vec![symbol("Service", SymbolKind::Struct, None, 2, 10), process],
        vec![],
        &[],
    );
    let mut c = call("run", 2, "Process", 2, 46);
    c.receiver = Some(s("s"));
    c.tier2 = Some(s("Service"));
    c.arg_count = Some(0);
    let b = read("b.go", "go", vec![symbol("run", SymbolKind::Function, None, 2, 10)], vec![c], &[]);
    let index = index("go", vec![("a.go", a), ("b.go", b)]);
    assert!(index.names.contains(&s("a.go::Service::Process")));
    let edges = index.between("b.go::run", "a.go::Service::Process");
    assert_eq!(edges.len(), 1);
    assert_eq!(edges[0].edge_confidence, "inferred");
}

fn run_calls_helper(rel: &str, lang: &str, found: EdgeConfidence) -> Index {
    let mut c = call("run", 4, "helper", 5, 39);
    c.tier1 = found;
    let data = read(
        rel,
        lang,
        vec![
            symbol("helper", SymbolKind::Function, None, 1, 0),
            symbol("run", SymbolKind::Function, None, 4, 24),
        ],
        vec![c],
        &["helper"],
    );
    index(lang, vec![(rel, data)])
}

#[test]
fn test_formal_tier_upgrades_textual_python_call() {
    for (found, stored) in
        [(EdgeConfidence::Resolved, "resolved"), (EdgeConfidence::Textual, "formal")]
    {
        let index = run_calls_helper("mod.py", "python", found);
        let edges = index.between("mod.py::run", "mod.py::helper");
        assert_eq!(edges.len(), 1);
        assert_eq!(edges[0].edge_confidence, stored);
    }
}

#[test]
fn test_javascript_formal_resolver_wired_into_pipeline() {
    let index = run_calls_helper("mod.js", "javascript", EdgeConfidence::Resolved);
    let edges = index.between("mod.js::run", "mod.js::helper");
    assert_eq!(edges.len(), 1);
    assert!(matches!(edges[0].edge_confidence.as_str(), "resolved" | "formal"));
}

fn run_makes(rel: &str, lang: &str, class: &str) -> Index {
    let data = read(
        rel,
        lang,
        vec![
            symbol(class, SymbolKind::Class, None, 1, 0),
            symbol("constructor", SymbolKind::Method, Some(class), 2, 17),
            symbol("run", SymbolKind::Function, None, 6, 79),
        ],
        vec![local("run", 6, class, 7, 112)],
        &[],
    );
    index(lang, vec![(rel, data)])
}

#[test]
fn test_javascript_new_expression_resolves_as_a_call_to_the_constructed_class() {
    let index = run_makes("mod.js", "javascript", "User");
    assert_eq!(index.between("mod.js::run", "mod.js::User").len(), 1);
}

#[test]
fn test_typescript_new_expression_with_generics_resolves_as_a_call() {
    let index = run_makes("mod.ts", "typescript", "Box");
    assert_eq!(index.between("mod.ts::run", "mod.ts::Box").len(), 1);
}
