use calm_core::context::{
    build_resolution_context, FileRow, ResolutionCtx, SymbolRow, TypeRelationRow, UsingRow,
};
use calm_core::digraph::EdgeRow;
use calm_core::edges::CallEdge;
use calm_core::graph::{
    incremental_graph_update, rebuild_graph, refresh_caller_counts, StoredEdge,
};
use calm_core::driver::GraphMode;
use calm_core::maps::NamespaceMap;
use calm_core::names::NameTable;
use calm_core::reconcile::{
    resolve_sites_to_edges, resolve_via_inheritance_closure, signature_returns_option_or_result,
    type_qn_matches_path, AmbiguityGroup, CallSiteRow,
};

fn s(x: &str) -> String {
    x.to_string()
}

fn symbol(path: &str, language: &str, class: Option<&str>, name: &str) -> SymbolRow {
    let qualified_name = match class {
        Some(c) => format!("{path}::{c}::{name}"),
        None => format!("{path}::{name}"),
    };
    SymbolRow {
        name: s(name),
        qualified_name,
        path: s(path),
        class_context: class.map(s),
        signature: String::new(),
        language: s(language),
        arity: None,
        arity_variadic: false,
    }
}

fn function(path: &str, language: &str, name: &str) -> SymbolRow {
    symbol(path, language, None, name)
}

fn method(path: &str, language: &str, class: &str, name: &str) -> SymbolRow {
    symbol(path, language, Some(class), name)
}

fn with_arity(mut row: SymbolRow, arity: i64, variadic: bool) -> SymbolRow {
    row.arity = Some(arity);
    row.arity_variadic = variadic;
    row
}

fn with_signature(mut row: SymbolRow, signature: &str) -> SymbolRow {
    row.signature = s(signature);
    row
}

fn site(id: i64, from_path: &str, caller: &str, callee: &str, confidence: &str) -> CallSiteRow {
    CallSiteRow {
        id,
        from_path: s(from_path),
        enclosing_qn: s(caller),
        callee: s(callee),
        line: Some(1),
        confidence: s(confidence),
        receiver: None,
        target_class: None,
        looks_option_or_result_chained: false,
        module_hint: None,
        edge_kind: s("call"),
        arg_count: None,
        import_segment: None,
        target_type_kind: None,
        target_type_qn: None,
    }
}

fn on(mut row: CallSiteRow, receiver: &str, class: Option<&str>) -> CallSiteRow {
    row.receiver = Some(s(receiver));
    row.target_class = class.map(s);
    row
}

struct Project {
    files: Vec<FileRow>,
    symbols: Vec<SymbolRow>,
    usings: Vec<UsingRow>,
    relations: Vec<TypeRelationRow>,
    namespaces: NamespaceMap,
}

impl Project {
    fn of(symbols: Vec<SymbolRow>) -> Project {
        let mut files: Vec<FileRow> = Vec::new();
        for row in &symbols {
            files.push(FileRow { path: row.path.clone(), language: Some(row.language.clone()) });
        }
        Project {
            files,
            symbols,
            usings: Vec::new(),
            relations: Vec::new(),
            namespaces: NamespaceMap::new(),
        }
    }

    fn file(mut self, path: &str, language: &str) -> Project {
        self.files.push(FileRow { path: s(path), language: Some(s(language)) });
        self
    }

    fn using(mut self, from: &str, module: &str) -> Project {
        self.usings.push(UsingRow { from_path: s(from), module_name: s(module) });
        self
    }

    fn namespace(mut self, ns: &str, file: &str) -> Project {
        self.namespaces.declare(ns, file);
        self
    }

    fn extends(mut self, from: &str, to: &str, confidence: &str) -> Project {
        self.relations.push(TypeRelationRow {
            from_symbol: s(from),
            relation_kind: s("extends"),
            to_symbol: Some(s(to)),
            confidence: s(confidence),
        });
        self
    }

    fn context(self) -> ResolutionCtx {
        build_resolution_context(
            &self.files,
            self.symbols,
            &self.usings,
            &self.relations,
            self.namespaces,
        )
    }

    fn resolve(self, sites: Vec<CallSiteRow>) -> (Vec<CallEdge>, Vec<AmbiguityGroup>) {
        resolve_sites_to_edges(&self.context(), &sites)
    }

    fn edges(self, sites: Vec<CallSiteRow>) -> Vec<CallEdge> {
        self.resolve(sites).0
    }
}

fn ends(edges: &[CallEdge]) -> Vec<(&str, &str)> {
    edges.iter().map(|e| (e.to_symbol.as_str(), e.edge_confidence.as_str())).collect()
}

#[test]
fn test_type_path_call_resolves_scoped_not_fanned_out() {
    let project = Project::of(vec![
        function("a.rs", "rust", "StructA"),
        method("a.rs", "rust", "StructA", "new"),
        function("b.rs", "rust", "StructB"),
        method("b.rs", "rust", "StructB", "new"),
        function("c.rs", "rust", "caller"),
    ]);
    let edges = project.edges(vec![
        on(site(1, "c.rs", "c.rs::caller", "new", "inferred"), "StructA", Some("StructA")),
        on(site(2, "c.rs", "c.rs::caller", "new", "inferred"), "HashMap", Some("HashMap")),
    ]);
    assert_eq!(ends(&edges), vec![("a.rs::StructA::new", "inferred")]);
}

#[test]
fn test_type_path_call_not_shadowed_by_same_file_bare_name_match() {
    let project = Project::of(vec![
        function("a.rs", "rust", "LocalType"),
        method("a.rs", "rust", "LocalType", "new"),
        function("a.rs", "rust", "caller"),
        function("b.rs", "rust", "OtherType"),
        method("b.rs", "rust", "OtherType", "new"),
    ]);
    let edges = project.edges(vec![
        on(site(1, "a.rs", "a.rs::caller", "new", "inferred"), "Vec", Some("Vec")),
        on(site(2, "a.rs", "a.rs::caller", "new", "inferred"), "LocalType", Some("LocalType")),
    ]);
    assert_eq!(ends(&edges), vec![("a.rs::LocalType::new", "inferred")]);
}

#[test]
fn test_bare_call_prefers_same_file_over_global_fan_out() {
    let symbols = vec![
        function("a.rs", "rust", "helper"),
        function("a.rs", "rust", "caller_a"),
        function("b.rs", "rust", "helper"),
        function("b.rs", "rust", "caller_b"),
    ];
    let edges = Project::of(symbols).edges(vec![
        site(1, "a.rs", "a.rs::caller_a", "helper", "resolved"),
        site(2, "b.rs", "b.rs::caller_b", "helper", "resolved"),
    ]);
    let got: Vec<(&str, &str)> =
        edges.iter().map(|e| (e.from_symbol.as_str(), e.to_symbol.as_str())).collect();
    assert_eq!(got, vec![("a.rs::caller_a", "a.rs::helper"), ("b.rs::caller_b", "b.rs::helper")]);
}

#[test]
fn test_import_path_narrows_candidates_past_max_callee_candidates() {
    let mut symbols =
        vec![function("lib.py", "python", "bar"), function("caller.py", "python", "use")];
    for i in 0..22 {
        symbols.push(function(&format!("decoy_{i}.py"), "python", "bar"));
    }
    let mut call = site(1, "caller.py", "caller.py::use", "bar", "resolved");
    call.import_segment = Some(s("lib"));
    let (edges, groups) = Project::of(symbols).resolve(vec![call]);
    assert_eq!(ends(&edges), vec![("lib.py::bar", "resolved")]);
    assert!(groups.is_empty());
}

#[test]
fn test_overflow_candidates_recorded_as_ambiguity_group_not_dropped_silently() {
    let mut symbols = vec![function("caller.py", "python", "use")];
    for i in 0..25 {
        symbols.push(function(&format!("decoy_{i}.py"), "python", "helper"));
    }
    let (edges, groups) = Project::of(symbols)
        .resolve(vec![site(9, "caller.py", "caller.py::use", "helper", "textual")]);
    assert!(edges.is_empty());
    assert_eq!(groups.len(), 1);
    assert_eq!(groups[0].call_site_id, 9);
    assert_eq!(groups[0].from_path, "caller.py");
    assert_eq!(groups[0].candidate_group_key, "helper");
    assert_eq!(groups[0].candidate_count, 25);
    assert_eq!(groups[0].candidates.len(), 25);
    assert_eq!(groups[0].candidates[3], (s("decoy_3.py::helper"), s("decoy_3.py")));
    assert_eq!(groups[0].reason, "unscoped_candidates_exceeded_max_callee_candidates");
}

#[test]
fn twenty_candidates_are_still_edges() {
    let mut symbols = vec![function("caller.py", "python", "use")];
    for i in 0..20 {
        symbols.push(function(&format!("d{i}.py"), "python", "helper"));
    }
    let (edges, groups) = Project::of(symbols)
        .resolve(vec![site(1, "caller.py", "caller.py::use", "helper", "textual")]);
    assert_eq!(edges.len(), 20);
    assert!(edges.iter().all(|e| e.edge_confidence == "ambiguous"));
    assert!(groups.is_empty());
}

#[test]
fn test_go_same_directory_call_resolves_not_fanned_out() {
    let edges = Project::of(vec![
        function("pkga/helper.go", "go", "Helper"),
        function("pkga/caller.go", "go", "CallerA"),
        function("pkgb/helper.go", "go", "Helper"),
        function("pkgb/caller.go", "go", "CallerB"),
    ])
    .edges(vec![
        site(1, "pkga/caller.go", "pkga/caller.go::CallerA", "Helper", "textual"),
        site(2, "pkgb/caller.go", "pkgb/caller.go::CallerB", "Helper", "textual"),
    ]);
    let got: Vec<(&str, &str)> =
        edges.iter().map(|e| (e.from_symbol.as_str(), e.to_symbol.as_str())).collect();
    assert_eq!(
        got,
        vec![
            ("pkga/caller.go::CallerA", "pkga/helper.go::Helper"),
            ("pkgb/caller.go::CallerB", "pkgb/helper.go::Helper"),
        ]
    );
}

#[test]
fn test_unresolved_receiver_method_call_does_not_fan_out_to_unrelated_same_named_function() {
    let edges = Project::of(vec![
        function("txn.rs", "rust", "get"),
        function("reader.rs", "rust", "read_first"),
    ])
    .edges(vec![on(site(1, "reader.rs", "reader.rs::read_first", "get", "textual"), "row", None)]);
    assert!(edges
        .iter()
        .all(|e| !(e.to_symbol == "txn.rs::get" && e.edge_confidence != "ambiguous")));
}

#[test]
fn a_call_on_self_is_not_weak() {
    let edges = Project::of(vec![
        function("txn.rs", "rust", "get"),
        function("reader.rs", "rust", "read_first"),
    ])
    .edges(vec![on(site(1, "reader.rs", "reader.rs::read_first", "get", "textual"), "self", None)]);
    assert_eq!(ends(&edges), vec![("txn.rs::get", "textual")]);
}

#[test]
fn test_java_same_package_call_resolves_not_fanned_out() {
    let edges = Project::of(vec![
        function("pkga/Helper.java", "java", "Helper"),
        method("pkga/Helper.java", "java", "Helper", "greet"),
        method("pkga/Main.java", "java", "Main", "callHelper"),
        function("pkgb/Helper.java", "java", "Helper"),
        method("pkgb/Helper.java", "java", "Helper", "greet"),
    ])
    .edges(vec![on(
        site(1, "pkga/Main.java", "pkga/Main.java::Main::callHelper", "greet", "textual"),
        "Helper",
        None,
    )]);
    assert_eq!(edges.len(), 1);
    assert_eq!(edges[0].to_symbol, "pkga/Helper.java::Helper::greet");
}

#[test]
fn test_elixir_arity_disambiguates_same_name_different_arity_clauses() {
    let mut one = with_arity(method("greeter.ex", "elixir", "Greeter", "greet"), 1, false);
    one.qualified_name = s("greeter.ex::Greeter::greet");
    let mut two = with_arity(method("greeter.ex", "elixir", "Greeter", "greet"), 2, false);
    two.qualified_name = s("greeter.ex::Greeter::greet#6");
    let mut a = site(1, "greeter.ex", "greeter.ex::Greeter::call_with_one_arg", "greet", "textual");
    a.arg_count = Some(1);
    let mut b = site(2, "greeter.ex", "greeter.ex::Greeter::call_with_two_args", "greet", "textual");
    b.arg_count = Some(2);
    let edges = Project::of(vec![one, two]).edges(vec![a, b]);
    assert_eq!(
        ends(&edges),
        vec![
            ("greeter.ex::Greeter::greet", "resolved"),
            ("greeter.ex::Greeter::greet#6", "resolved"),
        ]
    );
}

#[test]
fn test_go_arity_disambiguates_cross_package_same_name_different_arity() {
    let mut call = site(1, "caller/main.go", "caller/main.go::main", "Greet", "textual");
    call.arg_count = Some(1);
    let edges = Project::of(vec![
        with_arity(function("moda/greet.go", "go", "Greet"), 1, false),
        with_arity(function("modb/greet.go", "go", "Greet"), 2, false),
        with_arity(function("caller/main.go", "go", "main"), 0, false),
    ])
    .edges(vec![call]);
    assert_eq!(ends(&edges), vec![("moda/greet.go::Greet", "resolved")]);
}

#[test]
fn test_go_arity_variadic_candidate_accepts_more_than_minimum_args() {
    let mut call = site(1, "caller/main.go", "caller/main.go::main", "Greet", "textual");
    call.arg_count = Some(3);
    let edges = Project::of(vec![
        with_arity(function("moda/greet.go", "go", "Greet"), 1, true),
        with_arity(function("modb/greet.go", "go", "Greet"), 2, false),
        with_arity(function("caller/main.go", "go", "main"), 0, false),
    ])
    .edges(vec![call]);
    assert_eq!(ends(&edges), vec![("moda/greet.go::Greet", "resolved")]);
}

#[test]
fn test_c_same_directory_call_ranks_local_first_but_keeps_sibling_candidate() {
    let edges = Project::of(vec![
        function("moda/helper.c", "c", "helper"),
        function("moda/main.c", "c", "caller_a"),
        function("modb/helper.c", "c", "helper"),
    ])
    .edges(vec![site(1, "moda/main.c", "moda/main.c::caller_a", "helper", "textual")]);
    let got: Vec<(Option<&str>, i64, &str)> = edges
        .iter()
        .map(|e| (e.to_path.as_deref(), e.candidate_rank, e.edge_confidence.as_str()))
        .collect();
    assert_eq!(
        got,
        vec![(Some("moda/helper.c"), 0, "ambiguous"), (Some("modb/helper.c"), 1, "ambiguous")]
    );
}

#[test]
fn test_same_language_filter_excludes_cross_language_false_callee() {
    let edges = Project::of(vec![
        function("a.py", "python", "main"),
        function("c.py", "python", "helper"),
        function("b.rs", "rust", "helper"),
    ])
    .edges(vec![site(1, "a.py", "a.py::main", "helper", "textual")]);
    assert_eq!(ends(&edges), vec![("c.py::helper", "textual")]);
}

#[test]
fn test_field_type_map_resolves_same_language_cross_module_method_call() {
    let edges = Project::of(vec![
        function("odra.rs", "rust", "OdraEngine"),
        method("odra.rs", "rust", "OdraEngine", "execute"),
        function("soroban.rs", "rust", "SorobanEngine"),
        method("soroban.rs", "rust", "SorobanEngine", "execute"),
        method("main.rs", "rust", "Odra", "run"),
    ])
    .edges(vec![on(
        site(1, "main.rs", "main.rs::Odra::run", "execute", "inferred"),
        "engine",
        Some("OdraEngine"),
    )]);
    assert_eq!(ends(&edges), vec![("odra.rs::OdraEngine::execute", "inferred")]);
}

#[test]
fn test_cpp_pointer_member_call_resolves_via_field_type() {
    let edges = Project::of(vec![
        function("circle.cpp", "cpp", "Circle"),
        method("circle.cpp", "cpp", "Circle", "area"),
        function("square.cpp", "cpp", "Square"),
        method("square.cpp", "cpp", "Square", "area"),
        method("main.cpp", "cpp", "Container", "run"),
    ])
    .edges(vec![on(
        site(1, "main.cpp", "main.cpp::Container::run", "area", "inferred"),
        "shape",
        Some("Circle"),
    )]);
    assert_eq!(ends(&edges), vec![("circle.cpp::Circle::area", "inferred")]);
}

#[test]
fn test_csharp_field_type_and_var_ctor_resolve_via_declared_type() {
    let edges = Project::of(vec![
        function("circle.cs", "csharp", "Circle"),
        method("circle.cs", "csharp", "Circle", "Area"),
        function("square.cs", "csharp", "Square"),
        method("square.cs", "csharp", "Square", "Area"),
        method("main.cs", "csharp", "Container", "RunField"),
        method("main.cs", "csharp", "Container", "RunVar"),
    ])
    .edges(vec![
        on(site(1, "main.cs", "main.cs::Container::RunField", "Area", "inferred"), "shape", Some("Circle")),
        on(site(2, "main.cs", "main.cs::Container::RunVar", "Area", "inferred"), "s", Some("Circle")),
    ]);
    assert_eq!(edges.len(), 2);
    assert!(edges.iter().all(|e| e.to_symbol == "circle.cs::Circle::Area"));
}

#[test]
fn test_csharp_type_qualified_static_call_resolves_via_target_class() {
    let edges = Project::of(vec![
        function("helper.cs", "csharp", "Helper"),
        method("helper.cs", "csharp", "Helper", "Greet"),
        function("other.cs", "csharp", "Other"),
        method("other.cs", "csharp", "Other", "Greet"),
        method("program.cs", "csharp", "Program", "Main"),
    ])
    .using("program.cs", "MultiLang")
    .namespace("MultiLang", "helper.cs")
    .namespace("Elsewhere", "other.cs")
    .edges(vec![on(
        site(1, "program.cs", "program.cs::Program::Main", "Greet", "inferred"),
        "Helper",
        Some("Helper"),
    )]);
    assert_eq!(ends(&edges), vec![("helper.cs::Helper::Greet", "resolved")]);
}

#[test]
fn test_java_cross_package_bare_name_collision_resolves_via_target_type_qn() {
    let mut call = on(
        site(1, "Caller.java", "Caller.java::Caller::run", "getName", "inferred"),
        "u",
        Some("User"),
    );
    call.target_type_kind = Some(s("resolved_import"));
    call.target_type_qn = Some(s("com.foo.User"));
    let edges = Project::of(vec![
        function("com/foo/User.java", "java", "User"),
        method("com/foo/User.java", "java", "User", "getName"),
        function("com/bar/User.java", "java", "User"),
        method("com/bar/User.java", "java", "User", "getName"),
        method("Caller.java", "java", "Caller", "run"),
    ])
    .edges(vec![call]);
    assert_eq!(ends(&edges), vec![("com/foo/User.java::User::getName", "inferred")]);
}

#[test]
fn test_csharp_same_class_name_in_different_namespaces_disambiguated_by_using() {
    let edges = Project::of(vec![
        function("multilang_helper.cs", "csharp", "Helper"),
        method("multilang_helper.cs", "csharp", "Helper", "Greet"),
        function("elsewhere_helper.cs", "csharp", "Helper"),
        method("elsewhere_helper.cs", "csharp", "Helper", "Greet"),
        method("program.cs", "csharp", "Program", "Main"),
    ])
    .using("program.cs", "MultiLang")
    .namespace("MultiLang", "multilang_helper.cs")
    .namespace("Elsewhere", "elsewhere_helper.cs")
    .edges(vec![on(
        site(1, "program.cs", "program.cs::Program::Main", "Greet", "inferred"),
        "Helper",
        Some("Helper"),
    )]);
    assert_eq!(ends(&edges), vec![("multilang_helper.cs::Helper::Greet", "resolved")]);
}

#[test]
fn test_php_scoped_call_resolves_via_type_path_not_fanned_out() {
    let edges = Project::of(vec![
        function("foo.php", "php", "Foo"),
        method("foo.php", "php", "Foo", "bar"),
        function("baz.php", "php", "Baz"),
        method("baz.php", "php", "Baz", "bar"),
        method("main.php", "php", "Caller", "run"),
    ])
    .edges(vec![on(
        site(1, "main.php", "main.php::Caller::run", "bar", "inferred"),
        "Foo",
        Some("Foo"),
    )]);
    assert_eq!(ends(&edges), vec![("foo.php::Foo::bar", "inferred")]);
}

#[test]
fn test_js_require_namespace_object_property_call_resolves_via_module_hint() {
    let mut call =
        on(site(1, "caller.js", "caller.js::run", "setCharset", "inferred"), "utils", None);
    call.module_hint = Some(s("utils"));
    let edges = Project::of(vec![
        function("lib/utils.js", "javascript", "setCharset"),
        function("other/helpers.js", "javascript", "setCharset"),
        function("caller.js", "javascript", "run"),
    ])
    .edges(vec![call]);
    assert_eq!(ends(&edges), vec![("lib/utils.js::setCharset", "inferred")]);
}

#[test]
fn test_call_from_a_file_with_no_named_symbols_still_gets_a_call_edge() {
    let mut call =
        site(1, "test/utils.js", "test/utils.js::<module>", "setCharset", "resolved");
    call.import_segment = Some(s("utils"));
    let edges = Project::of(vec![function("lib/utils.js", "javascript", "setCharset")])
        .file("test/utils.js", "javascript")
        .edges(vec![call]);
    assert_eq!(ends(&edges), vec![("lib/utils.js::setCharset", "resolved")]);
}

#[test]
fn a_call_from_an_unknown_file_reaches_nothing() {
    let edges = Project::of(vec![function("lib/utils.js", "javascript", "setCharset")])
        .edges(vec![site(1, "nowhere.js", "nowhere.js::<module>", "setCharset", "resolved")]);
    assert!(edges.is_empty());
}

#[test]
fn test_java_formal_parameter_resolves_inherited_superclass_method() {
    let edges = Project::of(vec![
        function("Base.java", "java", "Base"),
        method("Base.java", "java", "Base", "getName"),
        function("Sub.java", "java", "Sub"),
        method("Caller.java", "java", "Caller", "m"),
    ])
    .extends("Sub.java::Sub", "Base.java::Base", "resolved")
    .edges(vec![on(
        site(1, "Caller.java", "Caller.java::Caller::m", "getName", "inferred"),
        "sub",
        Some("Sub"),
    )]);
    assert_eq!(ends(&edges), vec![("Base.java::Base::getName", "inferred")]);
}

#[test]
fn test_java_tied_ancestors_at_same_depth_do_not_force_a_pick() {
    let project = Project::of(vec![
        function("IA.java", "java", "IA"),
        method("IA.java", "java", "IA", "foo"),
        function("IB.java", "java", "IB"),
        method("IB.java", "java", "IB", "foo"),
        function("Mixed.java", "java", "Mixed"),
        method("Caller.java", "java", "Caller", "use"),
    ])
    .extends("Mixed.java::Mixed", "IA.java::IA", "resolved")
    .extends("Mixed.java::Mixed", "IB.java::IB", "resolved");
    let edges = project.edges(vec![on(
        site(1, "Caller.java", "Caller.java::Caller::use", "foo", "inferred"),
        "m",
        Some("Mixed"),
    )]);
    assert_eq!(
        ends(&edges),
        vec![("IA.java::IA::foo", "ambiguous"), ("IB.java::IB::foo", "ambiguous")]
    );
}

#[test]
fn an_ancestor_that_is_only_textual_is_not_followed() {
    let ctx = Project::of(vec![
        function("Base.java", "java", "Base"),
        method("Base.java", "java", "Base", "getName"),
        function("Sub.java", "java", "Sub"),
    ])
    .extends("Sub.java::Sub", "Base.java::Base", "textual")
    .context();
    assert!(resolve_via_inheritance_closure(&ctx, "getName", "Sub").is_none());
}

#[test]
fn a_circle_of_ancestors_ends() {
    let ctx = Project::of(vec![
        function("a.java", "java", "A"),
        function("b.java", "java", "B"),
        method("b.java", "java", "B", "go"),
    ])
    .extends("a.java::A", "b.java::B", "resolved")
    .extends("b.java::B", "a.java::A", "resolved")
    .context();
    let levels = ctx.ancestor_levels("A").unwrap();
    assert_eq!(levels.len(), 1);
    assert_eq!(levels[0], vec!["B"]);
    let hit = resolve_via_inheritance_closure(&ctx, "go", "A").unwrap();
    assert_eq!(ctx.symbol(hit[0]).qualified_name, "b.java::B::go");
}

#[test]
fn the_nearest_ancestor_wins() {
    let ctx = Project::of(vec![
        function("a.java", "java", "A"),
        function("b.java", "java", "B"),
        method("b.java", "java", "B", "go"),
        function("c.java", "java", "C"),
        method("c.java", "java", "C", "go"),
    ])
    .extends("a.java::A", "b.java::B", "resolved")
    .extends("b.java::B", "c.java::C", "resolved")
    .context();
    let hit = resolve_via_inheritance_closure(&ctx, "go", "A").unwrap();
    assert_eq!(hit.len(), 1);
    assert_eq!(ctx.symbol(hit[0]).qualified_name, "b.java::B::go");
}

#[test]
fn test_java_object_creation_expression_resolves_as_a_call_to_the_constructed_class() {
    let edges = Project::of(vec![
        function("Box.java", "java", "Box"),
        method("Box.java", "java", "Box", "Box"),
        method("Caller.java", "java", "Caller", "m"),
    ])
    .edges(vec![site(1, "Caller.java", "Caller.java::Caller::m", "Box", "textual")]);
    assert_eq!(
        ends(&edges),
        vec![("Box.java::Box", "ambiguous"), ("Box.java::Box::Box", "ambiguous")]
    );
}

#[test]
fn test_self_method_call_prefers_same_file_over_global_fan_out() {
    let mut call = on(
        site(1, "a.rs", "a.rs::Handler::run", "helper", "inferred"),
        "self",
        Some("Handler"),
    );
    call.target_type_kind = Some(s("resolved_same_file"));
    call.target_type_qn = Some(s("a.rs"));
    let edges = Project::of(vec![
        function("a.rs", "rust", "Handler"),
        method("a.rs", "rust", "Handler", "helper"),
        method("a.rs", "rust", "Handler", "run"),
        function("b.rs", "rust", "Handler"),
        method("b.rs", "rust", "Handler", "helper"),
        method("b.rs", "rust", "Handler", "run"),
    ])
    .edges(vec![call]);
    assert_eq!(ends(&edges), vec![("a.rs::Handler::helper", "inferred")]);
}

#[test]
fn test_qualified_call_resolves_to_named_module_not_same_file_same_name() {
    let mut call =
        site(1, "common.rs", "common.rs::Server::timed_tool", "timed_tool", "resolved");
    call.module_hint = Some(s("telemetry"));
    let edges = Project::of(vec![
        function("telemetry.rs", "rust", "timed_tool"),
        method("common.rs", "rust", "Server", "timed_tool"),
    ])
    .edges(vec![call]);
    assert_eq!(ends(&edges), vec![("telemetry.rs::timed_tool", "resolved")]);
    let counts = refresh_caller_counts(
        &vec![s("telemetry.rs::timed_tool"), s("common.rs::Server::timed_tool")],
        &edges
            .iter()
            .map(|e| EdgeRow {
                from_symbol: e.from_symbol.clone(),
                to_symbol: e.to_symbol.clone(),
                edge_confidence: e.edge_confidence.clone(),
                ruled_out_by_scip: false,
            })
            .collect(),
    );
    assert_eq!(counts[0].caller_count, 1);
    assert_eq!(counts[1].caller_count, 0);
}

#[test]
fn test_tier2_method_resolution() {
    let edges = Project::of(vec![
        function("a.py", "python", "Service"),
        method("a.py", "python", "Service", "process"),
        function("b.py", "python", "run"),
    ])
    .edges(vec![on(
        site(1, "b.py", "b.py::run", "process", "inferred"),
        "svc",
        Some("Service"),
    )]);
    assert_eq!(ends(&edges), vec![("a.py::Service::process", "inferred")]);
}

#[test]
fn test_option_chained_call_excludes_non_option_candidates() {
    let mut call =
        on(site(1, "caller.rs", "caller.rs::caller", "as_str", "textual"), "get_something()", None);
    call.looks_option_or_result_chained = true;
    let edges = Project::of(vec![
        with_signature(
            method("a.rs", "rust", "Foo", "as_str"),
            "pub fn as_str(&self) -> &'static str {",
        ),
        with_signature(
            method("b.rs", "rust", "Bar", "as_str"),
            "pub fn as_str(&self) -> Option<&'static str> {",
        ),
        function("caller.rs", "rust", "caller"),
    ])
    .edges(vec![call]);
    assert_eq!(edges.len(), 1);
    assert_eq!(edges[0].to_symbol, "b.rs::Bar::as_str");
}

#[test]
fn test_unresolved_fan_out_marked_ambiguous_not_textual() {
    let edges = Project::of(vec![
        method("a.rs", "rust", "Foo", "as_str"),
        method("b.rs", "rust", "Baz", "as_str"),
        function("caller.rs", "rust", "caller"),
    ])
    .edges(vec![on(
        site(1, "caller.rs", "caller.rs::caller", "as_str", "textual"),
        "get_something()",
        None,
    )]);
    assert_eq!(
        ends(&edges),
        vec![("a.rs::Foo::as_str", "ambiguous"), ("b.rs::Baz::as_str", "ambiguous")]
    );
}

fn counted(from: &str, to: &str, confidence: &str, ruled_out: bool) -> EdgeRow {
    EdgeRow {
        from_symbol: s(from),
        to_symbol: s(to),
        edge_confidence: s(confidence),
        ruled_out_by_scip: ruled_out,
    }
}

#[test]
fn test_caller_count_excludes_ambiguous_fan_out_edges() {
    let symbols = vec![s("a.rs::Foo::as_str"), s("b.rs::Baz::as_str")];
    let mut edges = vec![
        counted("caller.rs::caller", "a.rs::Foo::as_str", "ambiguous", false),
        counted("caller.rs::caller", "b.rs::Baz::as_str", "ambiguous", false),
        counted("b.rs::Baz::wrapper", "b.rs::Baz::as_str", "resolved", false),
    ];
    let counts = refresh_caller_counts(&symbols, &edges);
    assert_eq!(counts[0].caller_count, 0);
    assert_eq!(counts[1].caller_count, 1);
    edges[2].ruled_out_by_scip = true;
    assert_eq!(refresh_caller_counts(&symbols, &edges)[1].caller_count, 0);
}

#[test]
fn verified_caller_count_excludes_inferred_and_textual_too() {
    let edges = vec![
        counted("t::formal_caller", "t::target", "formal", false),
        counted("t::resolved_caller", "t::target", "resolved", false),
        counted("t::inferred_caller", "t::target", "inferred", false),
        counted("t::textual_caller", "t::target", "textual", false),
    ];
    let counts = refresh_caller_counts(&vec![s("t::target")], &edges);
    assert_eq!(counts[0].caller_count, 4);
    assert_eq!(counts[0].verified_caller_count, 2);
}

#[test]
fn a_caller_counts_once_however_often_it_calls() {
    let edges =
        vec![counted("a", "t", "resolved", false), counted("a", "t", "formal", false)];
    let counts = refresh_caller_counts(&vec![s("t"), s("a")], &edges);
    assert_eq!((counts[0].caller_count, counts[0].verified_caller_count), (1, 1));
    assert_eq!((counts[1].caller_count, counts[1].verified_caller_count), (0, 0));
}

#[test]
fn test_signature_returns_option_or_result() {
    assert!(signature_returns_option_or_result("pub fn as_str(&self) -> Option<&'static str> {"));
    assert!(signature_returns_option_or_result("pub fn parse(s: &str) -> Result<Self, Error> {"));
    assert!(!signature_returns_option_or_result("pub fn as_str(&self) -> &'static str {"));
    assert!(!signature_returns_option_or_result("pub struct Foo {"));
    assert!(signature_returns_option_or_result("pub fn foo(f: impl Fn() -> i32) -> Option<i32> {"));
    assert!(!signature_returns_option_or_result("pub fn foo(f: impl Fn() -> Option<i32>) -> i32 {"));
    assert!(signature_returns_option_or_result(
        "fn load_config(project_root: &Path) -> anyhow::Result<Config> {"
    ));
    assert!(signature_returns_option_or_result(
        "fn remove_file_rows(tx: &rusqlite::Transaction, rel: &str) -> rusqlite::Result<()> {"
    ));
    assert!(signature_returns_option_or_result("fn foo() -> std::result::Result<T, E> {"));
    assert!(signature_returns_option_or_result("fn foo() -> Result<foo::Bar, baz::Error> {"));
    assert!(!signature_returns_option_or_result("fn foo() -> OptionalConfig<T> {"));
    assert!(!signature_returns_option_or_result("fn foo() -> my_crate::OptionalThing<T> {"));
}

#[test]
fn a_type_text_fits_the_file_that_could_declare_it() {
    assert!(type_qn_matches_path("resolved_same_file", "a.rs", "a.rs"));
    assert!(!type_qn_matches_path("resolved_same_file", "a.rs", "b/a.rs"));
    assert!(type_qn_matches_path("resolved_import", "com.foo.User", "src/com/foo/User.java"));
    assert!(!type_qn_matches_path("resolved_import", "com.foo.User", "src/com/bar/User.java"));
    assert!(type_qn_matches_path("resolved_import", "../models/user", "src/models/user.ts"));
    assert!(!type_qn_matches_path("unresolved", "com.foo.User", "src/com/foo/User.java"));
}

#[test]
fn distinct_call_sites_in_one_caller_are_kept_as_separate_edges() {
    let mut first = site(1, "a.rs", "a.rs::caller", "helper", "resolved");
    first.line = Some(3);
    let mut second = site(2, "a.rs", "a.rs::caller", "helper", "resolved");
    second.line = Some(3);
    let edges = Project::of(vec![
        function("a.rs", "rust", "helper"),
        function("a.rs", "rust", "caller"),
    ])
    .edges(vec![first, second]);
    let got: Vec<(Option<i64>, Option<i32>)> =
        edges.iter().map(|e| (e.call_site_id, e.call_site_line)).collect();
    assert_eq!(got, vec![(Some(1), Some(3)), (Some(2), Some(3))]);
}

#[test]
fn sql_references_keep_their_kind() {
    let mut reference =
        site(1, "schema.sql", "schema.sql::active_users", "users", "resolved");
    reference.edge_kind = s("reference");
    let edges = Project::of(vec![
        function("schema.sql", "sql", "users"),
        function("schema.sql", "sql", "active_users"),
    ])
    .edges(vec![reference]);
    assert_eq!(edges.len(), 1);
    assert_eq!(edges[0].edge_kind, "reference");
    assert_eq!(edges[0].edge_confidence, "resolved");
}

// ---------------------------------------------------------------------------
// Updates of the stored graph
// ---------------------------------------------------------------------------

fn table(names: &[&str]) -> NameTable {
    let mut t = NameTable::new();
    for n in names {
        t.intern(n);
    }
    t
}

fn stored(id: i64, from_path: Option<&str>, to_symbol: &str) -> StoredEdge {
    StoredEdge { id, from_path: from_path.map(s), to_symbol: s(to_symbol) }
}

fn two_callers() -> (Project, Vec<CallSiteRow>) {
    (
        Project::of(vec![
            function("lib.py", "python", "helper"),
            function("a.py", "python", "a"),
            function("b.py", "python", "b"),
            function("c.py", "python", "c"),
        ]),
        vec![
            site(1, "a.py", "a.py::a", "helper", "textual"),
            site(2, "b.py", "b.py::b", "other", "textual"),
            site(3, "c.py", "c.py::c", "helper", "textual"),
        ],
    )
}

#[test]
fn a_renamed_symbol_reaches_the_files_that_call_it() {
    let (project, sites) = two_callers();
    let update = incremental_graph_update(
        &project.context(),
        &sites,
        &vec![
            stored(10, Some("a.py"), "lib.py::helper"),
            stored(11, Some("b.py"), "lib.py::helper"),
            stored(12, Some("b.py"), "gone.py::x"),
            stored(13, None, "lib.py::helper"),
        ],
        &vec![s("lib.py")],
        &table(&["helper"]),
    );
    assert_eq!(update.mode, GraphMode::Incremental);
    assert_eq!(update.delta.len(), 3);
    assert!(update.delta.contains("lib.py"));
    assert!(update.delta.contains("a.py"));
    assert!(update.delta.contains("c.py"));
    assert!(!update.delta.contains("b.py"));
    assert_eq!(update.removed, vec![10, 12]);
    assert_eq!(update.edges.len(), 2);
    assert!(update.edges.iter().all(|e| e.to_symbol == "lib.py::helper"));
}

#[test]
fn a_wide_change_builds_the_whole_graph() {
    let (project, sites) = two_callers();
    let mut seed: Vec<String> = Vec::new();
    for i in 0..51 {
        seed.push(format!("f{i}.py"));
    }
    let update = incremental_graph_update(
        &project.context(),
        &sites,
        &vec![stored(10, Some("b.py"), "lib.py::helper")],
        &seed,
        &table(&[]),
    );
    assert_eq!(
        update.mode,
        GraphMode::FullFallback(s("delta_paths.len()=51 > 50"))
    );
    assert_eq!(update.removed, vec![10]);
    assert_eq!(update.edges.len(), 2);
}

#[test]
fn fifty_paths_are_still_a_scoped_update() {
    let (project, sites) = two_callers();
    let mut seed: Vec<String> = Vec::new();
    for i in 0..50 {
        seed.push(format!("f{i}.py"));
    }
    let update =
        incremental_graph_update(&project.context(), &sites, &Vec::new(), &seed, &table(&[]));
    assert_eq!(update.mode, GraphMode::Incremental);
    assert!(update.edges.is_empty());
}

#[test]
fn a_scoped_update_leaves_the_graph_of_a_full_one() {
    let (before, sites) = two_callers();
    let old = rebuild_graph(&before.context(), &sites, &Vec::new());
    let old_rows: Vec<StoredEdge> = old
        .edges
        .iter()
        .enumerate()
        .map(|(i, e)| StoredEdge {
            id: i as i64,
            from_path: e.from_path.clone(),
            to_symbol: e.to_symbol.clone(),
        })
        .collect();
    // A second `helper` comes with a changed file.
    let after = || {
        Project::of(vec![
            function("lib.py", "python", "helper"),
            function("a.py", "python", "a"),
            function("b.py", "python", "b"),
            function("c.py", "python", "c"),
            function("new.py", "python", "helper"),
        ])
    };
    let update = incremental_graph_update(
        &after().context(),
        &sites,
        &old_rows,
        &vec![s("new.py")],
        &table(&["helper"]),
    );
    let mut kept: Vec<(String, String)> = old_rows
        .iter()
        .zip(&old.edges)
        .filter(|(row, _)| !update.removed.contains(&row.id))
        .map(|(_, e)| (e.from_symbol.clone(), e.to_symbol.clone()))
        .collect();
    kept.extend(update.edges.iter().map(|e| (e.from_symbol.clone(), e.to_symbol.clone())));
    kept.sort();
    let full = rebuild_graph(&after().context(), &sites, &old_rows);
    let mut all: Vec<(String, String)> =
        full.edges.iter().map(|e| (e.from_symbol.clone(), e.to_symbol.clone())).collect();
    all.sort();
    assert_eq!(kept, all);
    assert_eq!(all.len(), 4);
}
