use calm_core::extraction::{
    extract_file_data, formal_resolution_timeout_count, formally_resolved_names, read_as,
    CallSiteData, ExtractedFile, FileContext, FormalEdge, FormalTimeouts, ParsedFile, RawCall,
    RawEffect, RawImport, RawTypeRelation, ReadAs, SqlReference, TreeFacts,
};
use calm_core::identity::{distinct_sites, reconcile_sites, SiteStep, StoredSite};
use calm_core::names::NameTable;
use calm_core::naming::{name_symbols, ParsedSymbol, SymbolKind};
use calm_core::types::EdgeConfidence;

fn s(x: &str) -> String {
    x.to_string()
}

fn symbol(name: &str, kind: SymbolKind, class: Option<&str>, line: usize, byte: usize) -> ParsedSymbol {
    ParsedSymbol {
        qualified_name: String::new(),
        name: s(name),
        kind,
        kind_text: String::new(),
        language: String::new(),
        path: String::new(),
        line_start: line,
        line_end: line,
        start_byte: byte,
        signature: String::new(),
        docstring: String::new(),
        name_tokens: String::new(),
        class_context: class.map(s),
        is_entry_point: false,
        is_test: false,
        complexity: 1,
        arity: None,
        arity_variadic: false,
    }
}

fn call(enclosing: &str, line: usize, callee: &str, start: usize) -> RawCall {
    RawCall {
        callee: s(callee),
        receiver: None,
        receiver_is_type_path: false,
        receiver_is_type_like: false,
        enclosing_name: s(enclosing),
        enclosing_line: line,
        enclosing_class: None,
        line,
        callee_start_byte: start,
        callee_end_byte: start + callee.len(),
        looks_option_or_result_chained: false,
        module_hint: None,
        rooted_outside: false,
        arg_count: None,
        alias: None,
        tier1: EdgeConfidence::Textual,
        tier1_path: None,
        tier2: None,
    }
}

fn facts() -> TreeFacts {
    TreeFacts { imports: vec![], calls: vec![], relations: vec![], effects: vec![] }
}

fn extract(rel: &str, lang: &str, symbols: Vec<ParsedSymbol>, facts: TreeFacts) -> ExtractedFile {
    extract_file_data(
        rel,
        lang,
        ParsedFile::Tree { symbols, facts },
        &Vec::new(),
        &NameTable::new(),
    )
}

fn relation(class: &str, line: usize, kind: &'static str, target: &str) -> RawTypeRelation {
    RawTypeRelation {
        class_name: s(class),
        class_line: line,
        relation_kind: kind,
        target_text: s(target),
    }
}

fn effect(enclosing: &str, line: usize, kind: &'static str, target: &str) -> RawEffect {
    RawEffect {
        enclosing_name: s(enclosing),
        enclosing_line: line,
        effect_kind: kind,
        target_text: s(target),
        target_confidence: "exact",
        line,
    }
}

#[test]
fn extract_file_data_js_module_level_call_gets_synthesized_module_qn() {
    let mut f = facts();
    f.calls = vec![call("<module>", 0, "helper", 26)];
    let data =
        extract("test.js", "javascript", vec![symbol("helper", SymbolKind::Function, None, 2, 39)], f);
    assert!(data
        .call_sites
        .iter()
        .any(|cs| cs.enclosing_qn == "test.js::<module>" && cs.callee == "helper"));
    assert_eq!(data.symbol_count, 1);
    assert_eq!(data.call_sites[0].identity_version, 2, "no symbol to be relative to");
    assert_eq!(data.call_sites[0].callee_start_rel, None);
}

#[test]
fn extract_file_data_resolves_java_type_relations_and_effects() {
    let mut f = facts();
    f.relations = vec![relation("Foo", 1, "extends", "Base"), relation("Foo", 1, "implements", "Baz")];
    f.effects = vec![effect("m", 3, "write_field", "x"), effect("m", 3, "explicit_throw", "InvalidToken")];
    let data = extract(
        "Foo.java",
        "java",
        vec![
            symbol("Foo", SymbolKind::Class, None, 1, 0),
            symbol("m", SymbolKind::Method, Some("Foo"), 3, 50),
        ],
        f,
    );
    assert_eq!(data.type_relations.len(), 2);
    let extends = data.type_relations.iter().find(|r| r.relation_kind == "extends").unwrap();
    assert_eq!(extends.from_symbol, "Foo.java::Foo");
    assert_eq!(extends.target_text, "Base");
    assert_eq!(extends.to_symbol, None);
    assert_eq!(extends.confidence, "textual");
    assert_eq!(extends.resolution_source, None);
    let implements = data.type_relations.iter().find(|r| r.relation_kind == "implements").unwrap();
    assert_eq!(implements.target_text, "Baz");
    assert_eq!(data.effects.len(), 2);
    let write = data.effects.iter().find(|e| e.effect_kind == "write_field").unwrap();
    assert_eq!(write.symbol_qn, "Foo.java::Foo::m");
    assert_eq!(write.target_text, "x");
    let throw = data.effects.iter().find(|e| e.effect_kind == "explicit_throw").unwrap();
    assert_eq!(throw.symbol_qn, "Foo.java::Foo::m");
    assert_eq!(throw.target_text, "InvalidToken");
}

#[test]
fn extract_file_data_resolves_type_relation_to_symbol_when_same_file() {
    let mut f = facts();
    f.relations = vec![relation("Foo", 2, "implements", "Baz")];
    let data = extract(
        "Foo.ts",
        "typescript",
        vec![
            symbol("Baz", SymbolKind::Interface, None, 1, 0),
            symbol("Foo", SymbolKind::Class, None, 2, 17),
        ],
        f,
    );
    assert_eq!(data.type_relations.len(), 1);
    let rel = &data.type_relations[0];
    assert_eq!(rel.relation_kind, "implements");
    assert_eq!(rel.target_text, "Baz");
    assert_eq!(rel.to_symbol.as_deref(), Some("Foo.ts::Baz"));
    assert_eq!(rel.confidence, "resolved");
    assert_eq!(rel.resolution_source, Some("same_file_ast"));
}

#[test]
fn extract_file_data_resolves_rust_impl_trait_by_same_file_name_fallback() {
    let mut f = facts();
    // The impl block's line is not the struct's own.
    f.relations = vec![relation("Foo", 9, "implements", "Bar")];
    let data = extract(
        "lib.rs",
        "rust",
        vec![
            symbol("Bar", SymbolKind::Trait, None, 1, 0),
            symbol("Foo", SymbolKind::Struct, None, 5, 31),
        ],
        f,
    );
    assert_eq!(data.type_relations.len(), 1);
    let rel = &data.type_relations[0];
    assert_eq!(rel.relation_kind, "implements");
    assert_eq!(rel.from_symbol, "lib.rs::Foo");
    assert_eq!(rel.target_text, "Bar");
    assert_eq!(rel.to_symbol.as_deref(), Some("lib.rs::Bar"));
    assert_eq!(rel.confidence, "resolved");
}

#[test]
fn extract_file_data_python_bases_and_write_effects() {
    let mut f = facts();
    f.relations = vec![relation("Foo", 1, "extends", "Base")];
    f.effects = vec![
        effect("__init__", 2, "write_field", "count"),
        effect("bump", 4, "write_field", "count"),
    ];
    let data = extract(
        "foo.py",
        "python",
        vec![
            symbol("Foo", SymbolKind::Class, None, 1, 0),
            symbol("__init__", SymbolKind::Method, Some("Foo"), 2, 21),
            symbol("bump", SymbolKind::Method, Some("Foo"), 4, 66),
        ],
        f,
    );
    assert_eq!(data.type_relations.len(), 1);
    assert_eq!(data.type_relations[0].from_symbol, "foo.py::Foo");
    assert_eq!(data.type_relations[0].target_text, "Base");
    let writes: Vec<&str> = data.effects.iter().map(|e| e.symbol_qn.as_str()).collect();
    assert_eq!(writes, vec!["foo.py::Foo::__init__", "foo.py::Foo::bump"]);
}

#[test]
fn formally_resolved_names_ok_returns_edge_names_unaffected() {
    let edges =
        vec![FormalEdge { reference_symbol: s("foo"), definition_symbol: s("bar") }];
    let mut timeouts = FormalTimeouts::new();
    let result = formally_resolved_names(&mut timeouts, Ok(edges));
    assert_eq!(result.len(), 1);
    assert!(result.contains("foo"));
    assert_eq!(formal_resolution_timeout_count(&timeouts), 0);
}

#[test]
fn formally_resolved_names_err_returns_empty_and_increments_counter() {
    let mut timeouts = FormalTimeouts::new();
    let before = formal_resolution_timeout_count(&timeouts);
    let result = formally_resolved_names(
        &mut timeouts,
        Err(s("Path stitching cancelled: Cancelled at \"finding complete partial paths\"")),
    );
    assert_eq!(result.len(), 0);
    assert!(formal_resolution_timeout_count(&timeouts) > before);
}

#[test]
fn test_entry_points_config_escape_hatch() {
    let named = name_symbols(
        "a.py",
        vec![
            symbol("custom_entry", SymbolKind::Function, None, 1, 0),
            symbol("helper", SymbolKind::Function, None, 4, 30),
            symbol("main", SymbolKind::Struct, None, 7, 60),
        ],
        &vec![s("a.py::custom_entry"), s("main")],
    );
    assert!(named[0].is_entry_point);
    assert!(!named[1].is_entry_point);
    assert!(!named[2].is_entry_point, "only something callable can be an entry point");
}

#[test]
fn test_c_same_line_triple_name_collision_does_not_crash_indexing() {
    let mut symbols = Vec::new();
    for line in 1..=4 {
        symbols.push(symbol("Foo", SymbolKind::Struct, None, line, 0));
    }
    symbols.push(symbol("Foo", SymbolKind::Struct, None, 5, 0));
    symbols.push(symbol("Foo", SymbolKind::Struct, None, 5, 0));
    let named = name_symbols("test.h", symbols, &Vec::new());
    let got: Vec<&str> = named.iter().map(|x| x.qualified_name.as_str()).collect();
    assert_eq!(
        got,
        vec![
            "test.h::Foo",
            "test.h::Foo#2",
            "test.h::Foo#3",
            "test.h::Foo#4",
            "test.h::Foo#5",
            "test.h::Foo#5#2",
        ]
    );
}

#[test]
fn test_alias_resolution_edge() {
    let mut c = call("main", 4, "x", 60);
    c.alias = Some(s("helper"));
    c.tier1 = EdgeConfidence::Resolved;
    let mut f = facts();
    f.calls = vec![c];
    let data = extract(
        "a.py",
        "python",
        vec![
            symbol("helper", SymbolKind::Function, None, 1, 0),
            symbol("main", SymbolKind::Function, None, 4, 26),
        ],
        f,
    );
    assert_eq!(data.call_sites.len(), 1);
    assert_eq!(data.call_sites[0].callee, "helper");
    assert_eq!(data.call_sites[0].confidence, "resolved");
    assert_eq!(data.call_sites[0].enclosing_qn, "a.py::main");
}

#[test]
fn rust_self_colon_colon_call_resolves_to_the_enclosing_impl_type() {
    let mut c = call("make", 7, "new", 90);
    c.receiver = Some(s("Self"));
    c.receiver_is_type_path = true;
    c.enclosing_class = Some(s("Widget"));
    let mut f = facts();
    f.calls = vec![c];
    let data = extract(
        "widget.rs",
        "rust",
        vec![
            symbol("Widget", SymbolKind::Struct, None, 1, 0),
            symbol("new", SymbolKind::Method, Some("Widget"), 3, 30),
            symbol("make", SymbolKind::Method, Some("Widget"), 7, 70),
        ],
        f,
    );
    let c = &data.call_sites[0];
    assert_eq!(c.target_class.as_deref(), Some("Widget"));
    assert_eq!(c.confidence, "inferred");
    assert_eq!(c.target_type_kind.as_deref(), Some("resolved_same_file"));
    assert_eq!(c.target_type_qn.as_deref(), Some("widget.rs"));
}

#[test]
fn rust_self_colon_colon_call_inside_a_trait_default_method_resolves_to_the_trait() {
    let mut c = call("greet", 5, "helper", 90);
    c.receiver = Some(s("Self"));
    c.receiver_is_type_path = true;
    c.enclosing_class = Some(s("Greeter"));
    let mut f = facts();
    f.calls = vec![c];
    let data = extract(
        "greeter.rs",
        "rust",
        vec![symbol("greet", SymbolKind::Method, Some("Greeter"), 5, 70)],
        f,
    );
    assert_eq!(data.call_sites[0].target_class.as_deref(), Some("Greeter"));
}

#[test]
fn a_type_path_in_another_language_is_taken_as_written() {
    let mut c = call("run", 1, "bar", 90);
    c.receiver = Some(s("Self"));
    c.receiver_is_type_path = true;
    c.enclosing_class = Some(s("Caller"));
    let mut f = facts();
    f.calls = vec![c];
    let data = extract(
        "main.php",
        "php",
        vec![symbol("run", SymbolKind::Method, Some("Caller"), 1, 0)],
        f,
    );
    assert_eq!(data.call_sites[0].target_class.as_deref(), Some("Self"));
    assert_eq!(data.call_sites[0].target_type_kind.as_deref(), Some("unresolved"));
}

#[test]
fn test_external_crate_root_call_does_not_bind_to_local_same_named_fn() {
    let mut c = call("run", 1, "write", 20);
    c.module_hint = Some(s("fs"));
    c.rooted_outside = true;
    let mut f = facts();
    f.calls = vec![c, call("run", 1, "local", 60)];
    let data =
        extract("main.rs", "rust", vec![symbol("run", SymbolKind::Function, None, 1, 0)], f);
    let callees: Vec<&str> = data.call_sites.iter().map(|c| c.callee.as_str()).collect();
    assert_eq!(callees, vec!["local"]);
}

#[test]
fn a_whole_module_import_is_a_hint_for_calls_on_it() {
    let mut c = call("run", 2, "setCharset", 70);
    c.receiver = Some(s("utils"));
    let mut f = facts();
    f.calls = vec![c];
    f.imports = vec![RawImport {
        module_name: s("./lib/utils"),
        imported_names: vec![s("utils")],
        last_segment: Some(s("utils")),
    }];
    let data =
        extract("caller.js", "javascript", vec![symbol("run", SymbolKind::Function, None, 2, 36)], f);
    assert_eq!(data.call_sites[0].confidence, "inferred");
    assert_eq!(data.call_sites[0].module_hint.as_deref(), Some("utils"));
}

#[test]
fn the_imported_names_are_stored_as_a_json_list() {
    let mut f = facts();
    f.imports = vec![RawImport {
        module_name: s("os"),
        imported_names: vec![s("path"), s("a\"b")],
        last_segment: None,
    }];
    let data = extract("a.py", "python", Vec::new(), f);
    assert_eq!(data.import_edges.len(), 1);
    assert_eq!(data.import_edges[0].from_path, "a.py");
    assert_eq!(data.import_edges[0].module_name, "os");
    assert_eq!(data.import_edges[0].to_path, None);
    assert_eq!(data.import_edges[0].symbols_used, "[\"path\",\"a\\\"b\"]");
}

#[test]
fn a_formally_resolved_callee_is_upgraded() {
    let mut formal = NameTable::new();
    formal.intern("helper");
    let mut f = facts();
    let mut sure = call("run", 1, "helper", 30);
    sure.tier1 = EdgeConfidence::Resolved;
    f.calls = vec![call("run", 1, "helper", 20), sure, call("run", 1, "other", 40)];
    let data = extract_file_data(
        "mod.py",
        "python",
        ParsedFile::Tree {
            symbols: vec![symbol("run", SymbolKind::Function, None, 1, 0)],
            facts: f,
        },
        &Vec::new(),
        &formal,
    );
    let got: Vec<&str> = data.call_sites.iter().map(|c| c.confidence.as_str()).collect();
    assert_eq!(got, vec!["formal", "resolved", "textual"]);
}

#[test]
fn a_call_of_an_unknown_caller_is_dropped() {
    let mut f = facts();
    f.calls = vec![call("ghost", 9, "helper", 20)];
    let data = extract("a.py", "python", vec![symbol("run", SymbolKind::Function, None, 1, 0)], f);
    assert!(data.call_sites.is_empty());
}

#[test]
fn test_sql_p3_3_end_to_end() {
    let data = extract_file_data(
        "schema.sql",
        "sql",
        ParsedFile::Sql {
            symbols: vec![
                symbol("users", SymbolKind::Struct, None, 1, 0),
                symbol("active_users", SymbolKind::Other, None, 2, 56),
                symbol("get_user", SymbolKind::Function, None, 3, 113),
            ],
            references: vec![SqlReference {
                enclosing_qn: s("schema.sql::active_users"),
                target_name: s("users"),
                line: 2,
                callee_start_byte: 105,
                callee_end_byte: 110,
                confidence: EdgeConfidence::Resolved,
                edge_kind: "reference",
            }],
        },
        &Vec::new(),
        &NameTable::new(),
    );
    assert_eq!(data.symbol_count, 3);
    assert_eq!(data.call_sites.len(), 1);
    let c = &data.call_sites[0];
    assert_eq!((c.callee.as_str(), c.edge_kind.as_str()), ("users", "reference"));
    assert_eq!(c.confidence, "resolved");
    assert_eq!(c.identity_version, 2);
}

#[test]
fn test_markdown_headings_end_to_end() {
    assert!(read_as("markdown", false) == ReadAs::Markdown);
    assert!(read_as("sql", true) == ReadAs::Sql);
    assert!(read_as("python", true) == ReadAs::Tree);
    assert!(read_as("cobol", false) == ReadAs::Shallow);
    let data = extract_file_data(
        "README.md",
        "markdown",
        ParsedFile::Listed {
            symbols: vec![
                symbol("Getting Started", SymbolKind::Other, None, 1, 0),
                symbol("Installation", SymbolKind::Other, None, 5, 40),
                symbol("Usage", SymbolKind::Other, None, 12, 120),
            ],
        },
        &Vec::new(),
        &NameTable::new(),
    );
    assert_eq!(data.symbol_count, 3);
    assert!(data.call_sites.is_empty());
    assert!(data.import_edges.is_empty());
}

#[test]
fn the_first_import_binds_a_name() {
    let imports = vec![
        RawImport { module_name: s("a"), imported_names: vec![s("x")], last_segment: None },
        RawImport { module_name: s("b"), imported_names: vec![s("x"), s("y")], last_segment: None },
    ];
    let context =
        FileContext::new(&vec![symbol("run", SymbolKind::Function, None, 1, 0)], &imports);
    assert_eq!(context.import_of("x"), Some(0));
    assert_eq!(context.import_of("y"), Some(1));
    assert_eq!(context.import_of("z"), None);
    assert!(context.defines("run"));
    assert!(!context.defines("x"));
}

// ---------------------------------------------------------------------------
// Identity
// ---------------------------------------------------------------------------

fn site_at(start: i64, end: i64) -> CallSiteData {
    CallSiteData {
        enclosing_qn: s("a.rs::caller"),
        callee: s("helper"),
        line: 3,
        callee_start_byte: Some(start),
        callee_end_byte: Some(end),
        callee_start_rel: None,
        callee_end_rel: None,
        identity_version: 2,
        confidence: s("resolved"),
        receiver: None,
        target_class: None,
        looks_option_or_result_chained: false,
        module_hint: None,
        edge_kind: s("call"),
        arg_count: Some(0),
        import_path: None,
        target_type_kind: None,
        target_type_qn: None,
    }
}

#[test]
fn persist_file_ignores_a_call_site_that_collides_on_the_full_identity_tuple() {
    let kept = distinct_sites(&vec![site_at(4, 10), site_at(4, 10)]);
    assert_eq!(kept, vec![0], "exactly one of the two identical entries is kept");
    assert_eq!(distinct_sites(&vec![site_at(4, 10), site_at(12, 18)]), vec![0, 1]);
}

#[test]
fn call_site_and_external_proof_survive_an_edit_that_only_shifts_absolute_position() {
    let read = |shift: usize| {
        let mut f = facts();
        f.calls = vec![call("caller", 1, "helper", 18 + shift)];
        extract(
            "main.py",
            "python",
            vec![
                symbol("caller", SymbolKind::Function, None, 1, shift),
                symbol("helper", SymbolKind::Function, None, 4, 28 + shift),
            ],
            f,
        )
    };
    let before = read(0);
    let old = &before.call_sites[0];
    assert_eq!(old.identity_version, 3);
    assert!(old.callee_start_rel.is_some() && old.callee_end_rel.is_some());
    let stored = vec![StoredSite {
        id: 41,
        enclosing_qn: old.enclosing_qn.clone(),
        callee_start_byte: old.callee_start_byte,
        callee_end_byte: old.callee_end_byte,
        callee_start_rel: old.callee_start_rel,
        callee_end_rel: old.callee_end_rel,
        identity_version: old.identity_version,
        edge_kind: old.edge_kind.clone(),
    }];
    // A comment line above the function moves everything.
    let after = read(49);
    let new = &after.call_sites[0];
    assert_eq!((new.callee_start_rel, new.callee_end_rel), (old.callee_start_rel, old.callee_end_rel));
    assert_ne!(new.callee_start_byte, old.callee_start_byte);
    let plan = reconcile_sites(&stored, &after.call_sites);
    assert!(plan.deletes.is_empty());
    assert_eq!(plan.steps.len(), 1);
    assert!(matches!(plan.steps[0], SiteStep::Update { id: 41, fresh: 0 }));
}

#[test]
fn a_call_that_is_gone_is_deleted_and_a_new_one_is_inserted() {
    let stored = vec![StoredSite {
        id: 5,
        enclosing_qn: s("a.rs::caller"),
        callee_start_byte: Some(4),
        callee_end_byte: Some(10),
        callee_start_rel: None,
        callee_end_rel: None,
        identity_version: 2,
        edge_kind: s("call"),
    }];
    let plan = reconcile_sites(&stored, &vec![site_at(40, 46)]);
    assert_eq!(plan.deletes, vec![5]);
    assert!(matches!(plan.steps[0], SiteStep::Insert { fresh: 0 }));
}
