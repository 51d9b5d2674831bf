use calm_core::type_resolve::{
    lookup_name, resolve_cross_file_type_relations, StoredRelation, TypeSymbol,
};

fn symbol(qn: &str, name: &str, language: &str) -> TypeSymbol {
    TypeSymbol {
        name: name.to_string(),
        qualified_name: qn.to_string(),
        language: language.to_string(),
    }
}

/// A stored row, and what the pass makes of it.
#[derive(Debug, PartialEq)]
struct Row {
    from_symbol: String,
    target_text: String,
    to_symbol: Option<String>,
    confidence: String,
    resolution_source: Option<String>,
}

fn relation(from_symbol: &str, target_text: &str) -> Row {
    Row {
        from_symbol: from_symbol.to_string(),
        target_text: target_text.to_string(),
        to_symbol: None,
        confidence: "textual".to_string(),
        resolution_source: None,
    }
}

fn resolve(symbols: Vec<TypeSymbol>, rows: &mut [Row]) -> usize {
    let stored: Vec<StoredRelation> = rows
        .iter()
        .enumerate()
        .map(|(i, r)| StoredRelation {
            id: i as i64,
            from_symbol: r.from_symbol.clone(),
            target_text: r.target_text.clone(),
            to_symbol: r.to_symbol.clone(),
        })
        .collect();
    let found = resolve_cross_file_type_relations(&symbols, &stored);
    let changed = found.len();
    for x in found {
        let row = &mut rows[x.id as usize];
        row.to_symbol = Some(x.to_symbol);
        row.confidence = x.confidence.to_string();
        row.resolution_source = Some(x.resolution_source.to_string());
    }
    changed
}

fn to_symbol_and_confidence(row: &Row) -> (Option<&str>, &str) {
    (row.to_symbol.as_deref(), row.confidence.as_str())
}

#[test]
fn lookup_name_strips_generics_and_qualifier() {
    assert_eq!(lookup_name("Base"), "Base");
    assert_eq!(lookup_name("pkg.Base"), "Base");
    assert_eq!(lookup_name("Base<T>"), "Base");
    assert_eq!(lookup_name("pkg.Base<T>"), "Base");
    assert_eq!(lookup_name("a.b.Base"), "Base");
}

#[test]
fn resolves_unique_cross_file_same_language_match() {
    let mut rows = vec![relation("derived.py::Derived", "Base")];
    resolve(
        vec![
            symbol("base.py::Base", "Base", "python"),
            symbol("derived.py::Derived", "Derived", "python"),
        ],
        &mut rows,
    );
    assert_eq!(to_symbol_and_confidence(&rows[0]), (Some("base.py::Base"), "resolved"));
    assert_eq!(rows[0].resolution_source.as_deref(), Some("cross_file_unique"));
}

#[test]
fn stays_textual_when_multiple_same_language_candidates_exist() {
    let mut rows = vec![relation("derived.py::Derived", "Handler")];
    resolve(
        vec![
            symbol("a.py::Handler", "Handler", "python"),
            symbol("b.py::Handler", "Handler", "python"),
            symbol("derived.py::Derived", "Derived", "python"),
        ],
        &mut rows,
    );
    let (to_symbol, confidence) = to_symbol_and_confidence(&rows[0]);
    assert_eq!(to_symbol, None, "ambiguous match must never be guessed");
    assert_eq!(confidence, "textual");
}

#[test]
fn stays_textual_when_target_is_a_different_language() {
    let mut rows = vec![relation("derived.py::Derived", "Base")];
    resolve(
        vec![
            symbol("Base.java::Base", "Base", "java"),
            symbol("derived.py::Derived", "Derived", "python"),
        ],
        &mut rows,
    );
    assert_eq!(to_symbol_and_confidence(&rows[0]), (None, "textual"));
}

#[test]
fn resolves_generic_and_qualified_target_text() {
    let mut rows = vec![relation("derived.java::Derived", "pkg.Repository<Foo>")];
    resolve(
        vec![
            symbol("base.java::Repository", "Repository", "java"),
            symbol("derived.java::Derived", "Derived", "java"),
        ],
        &mut rows,
    );
    assert_eq!(
        to_symbol_and_confidence(&rows[0]),
        (Some("base.java::Repository"), "resolved")
    );
}

#[test]
fn already_resolved_same_file_row_is_never_touched() {
    let mut rows = vec![relation("a.py::Derived", "Base")];
    rows[0].to_symbol = Some("a.py::Base".to_string());
    rows[0].confidence = "resolved".to_string();
    rows[0].resolution_source = Some("same_file_ast".to_string());
    let changed = resolve(
        vec![
            symbol("a.py::Base", "Base", "python"),
            symbol("a.py::Derived", "Derived", "python"),
            symbol("elsewhere.py::Base", "Base", "python"),
        ],
        &mut rows,
    );
    assert_eq!(changed, 0);
    assert_eq!(
        to_symbol_and_confidence(&rows[0]),
        (Some("a.py::Base"), "resolved"),
        "same-file resolution must be left exactly as extraction set it"
    );
    assert_eq!(rows[0].resolution_source.as_deref(), Some("same_file_ast"));
}

#[test]
fn self_heals_on_a_later_rebuild_once_the_target_exists() {
    let mut rows = vec![relation("derived.py::Derived", "Base")];
    resolve(vec![symbol("derived.py::Derived", "Derived", "python")], &mut rows);
    assert_eq!(
        to_symbol_and_confidence(&rows[0]).0,
        None,
        "target doesn't exist yet -- must stay unresolved"
    );
    resolve(
        vec![
            symbol("derived.py::Derived", "Derived", "python"),
            symbol("base.py::Base", "Base", "python"),
        ],
        &mut rows,
    );
    assert_eq!(
        to_symbol_and_confidence(&rows[0]),
        (Some("base.py::Base"), "resolved"),
        "a subsequent rebuild must resolve the row once its target exists"
    );
}

#[test]
fn a_second_pass_changes_nothing() {
    let symbols = || {
        vec![
            symbol("base.py::Base", "Base", "python"),
            symbol("derived.py::Derived", "Derived", "python"),
        ]
    };
    let mut rows =
        vec![relation("derived.py::Derived", "Base"), relation("derived.py::Derived", "Gone")];
    assert_eq!(resolve(symbols(), &mut rows), 1);
    assert_eq!(resolve(symbols(), &mut rows), 0);
}

#[test]
fn a_relation_of_an_unknown_symbol_is_left_alone() {
    let mut rows = vec![relation("gone.py::Derived", "Base")];
    assert_eq!(resolve(vec![symbol("base.py::Base", "Base", "python")], &mut rows), 0);
    assert_eq!(rows[0], relation("gone.py::Derived", "Base"));
}
