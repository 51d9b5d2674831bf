use calm_core::digest::{
    compute_digests, compute_recursive_symbols, render_digest, CalleeFact, DigestFacts,
    DigestSymbol, EffectFact, EffectRow, RelationRow, TypeRelationFact,
};
use calm_core::digraph::EdgeRow;

fn s(x: &str) -> String {
    x.to_string()
}

fn edge(from: &str, to: &str, confidence: &str) -> EdgeRow {
    EdgeRow {
        from_symbol: s(from),
        to_symbol: s(to),
        edge_confidence: s(confidence),
        ruled_out_by_scip: false,
    }
}

fn recursive(rows: &Vec<EdgeRow>) -> Vec<String> {
    let table = compute_recursive_symbols(rows);
    let mut out: Vec<String> = (0..table.len()).map(|i| table.name(i).clone()).collect();
    out.sort();
    out
}

fn symbol(qn: &str, name: &str, kind: &str) -> DigestSymbol {
    DigestSymbol {
        qualified_name: s(qn),
        name: s(name),
        kind: s(kind),
        signature: None,
        complexity: None,
        name_tokens: Some(s(name)),
    }
}

fn plain(name: &str, complexity: i64, recursive_component: bool) -> DigestFacts {
    DigestFacts {
        name: s(name),
        kind: s("function"),
        signature: String::new(),
        complexity,
        confirmed_callees: vec![],
        possible_callees: vec![],
        type_relations: vec![],
        effects: vec![],
        recursive_component,
        truncated: false,
    }
}

#[test]
fn no_cycle_chain_is_not_recursive() {
    let rows = vec![edge("a", "b", "resolved"), edge("b", "c", "resolved")];
    assert!(recursive(&rows).is_empty());
}

#[test]
fn three_cycle_is_recursive() {
    let rows = vec![
        edge("a", "b", "resolved"),
        edge("b", "c", "resolved"),
        edge("c", "a", "resolved"),
    ];
    assert_eq!(recursive(&rows), vec!["a", "b", "c"]);
}

#[test]
fn self_loop_is_recursive() {
    assert_eq!(recursive(&vec![edge("a", "a", "formal")]), vec!["a"]);
}

#[test]
fn diamond_is_not_recursive() {
    let rows = vec![
        edge("a", "b", "resolved"),
        edge("a", "c", "resolved"),
        edge("b", "d", "resolved"),
        edge("c", "d", "resolved"),
    ];
    assert!(recursive(&rows).is_empty());
}

#[test]
fn two_disjoint_cycles_both_detected_independently() {
    let rows = vec![
        edge("a", "b", "resolved"),
        edge("b", "a", "resolved"),
        edge("x", "y", "resolved"),
        edge("y", "x", "resolved"),
        edge("a", "x", "resolved"),
    ];
    assert_eq!(recursive(&rows), vec!["a", "b", "x", "y"]);
}

#[test]
fn textual_confidence_edges_do_not_count_toward_cycles() {
    let rows = vec![edge("a", "b", "textual"), edge("b", "a", "textual")];
    assert!(recursive(&rows).is_empty());
}

#[test]
fn inferred_confidence_alone_does_not_count_toward_cycles() {
    let rows = vec![edge("a", "b", "inferred"), edge("b", "a", "inferred")];
    assert!(recursive(&rows).is_empty());
}

#[test]
fn ruled_out_by_scip_edge_is_excluded() {
    let mut rows = vec![edge("a", "b", "resolved"), edge("b", "a", "resolved")];
    rows[0].ruled_out_by_scip = true;
    assert!(recursive(&rows).is_empty());
}

#[test]
fn empty_graph_is_fine() {
    assert!(recursive(&Vec::new()).is_empty());
}

#[test]
fn long_chain_does_not_blow_the_stack() {
    let n = 20_000;
    let mut rows = Vec::new();
    for i in 0..n {
        rows.push(edge(&format!("n{i}"), &format!("n{}", i + 1), "resolved"));
    }
    assert!(recursive(&rows).is_empty(), "a pure chain has no cycles");
}

#[test]
fn render_digest_is_factual_and_compact() {
    let facts = DigestFacts {
        name: s("refresh_session"),
        kind: s("method"),
        signature: s("fn refresh_session(token, store) -> User"),
        complexity: 7,
        confirmed_callees: vec![
            CalleeFact { name: s("verify_token"), role_tags: vec![s("verify"), s("token")] },
            CalleeFact { name: s("load_session"), role_tags: vec![] },
        ],
        possible_callees: vec![CalleeFact { name: s("emit_event"), role_tags: vec![s("emit")] }],
        type_relations: vec![TypeRelationFact {
            relation_kind: s("implements"),
            target_text: s("SessionRefresher"),
        }],
        effects: vec![
            EffectFact { effect_kind: s("write_field"), target_text: s("last_refresh") },
            EffectFact { effect_kind: s("explicit_throw"), target_text: s("ExpiredToken") },
        ],
        recursive_component: false,
        truncated: false,
    };
    let text = render_digest(&facts);
    assert_eq!(
        text,
        "method refresh_session. Signature: fn refresh_session(token, store) -> User \
         Calls: verify_token [verify token], load_session. \
         Possibly calls: emit_event [emit]. \
         Implements: SessionRefresher. Writes: last_refresh. Throws: ExpiredToken. Complexity: 7."
    );
}

#[test]
fn render_digest_minimal_symbol_has_no_empty_sections() {
    assert_eq!(render_digest(&plain("helper", 1, false)), "function helper.");
}

#[test]
fn render_digest_shows_recursive_marker() {
    assert!(render_digest(&plain("walk", 3, true)).contains("Participates in a call cycle."));
}

#[test]
fn compute_digests_end_to_end_reflects_call_graph_and_t1_facts() {
    let mut m = symbol("a.py::Foo::m", "m", "method");
    m.signature = Some(s("def m(self):"));
    m.complexity = Some(5);
    let mut helper = symbol("a.py::Foo::helper", "helper", "method");
    helper.signature = Some(s("def helper(self):"));
    helper.complexity = Some(1);
    let digests = compute_digests(
        &vec![m, helper],
        &vec![edge("a.py::Foo::m", "a.py::Foo::helper", "resolved")],
        &vec![RelationRow {
            from_symbol: s("a.py::Foo::m"),
            relation_kind: s("implements"),
            target_text: s("SomeIface"),
        }],
        &vec![EffectRow {
            symbol_qn: s("a.py::Foo::m"),
            effect_kind: s("write_field"),
            target_text: s("x"),
        }],
    );
    let row = digests.iter().find(|d| d.symbol_qn == "a.py::Foo::m").unwrap();
    assert!(row.rendered_text.contains("Calls: a.py::Foo::helper"), "{}", row.rendered_text);
    assert!(row.rendered_text.contains("Writes: x"), "{}", row.rendered_text);
    assert!(!row.facts.recursive_component);
    assert_eq!(row.facts.confirmed_callees[0].role_tags, vec!["helper"]);
}

#[test]
fn compute_digests_full_recompute_removes_deleted_symbols() {
    let none = (Vec::new(), Vec::new(), Vec::new());
    let before = compute_digests(
        &vec![symbol("a.py::f", "f", "function")],
        &none.0,
        &none.1,
        &none.2,
    );
    assert_eq!(before.len(), 1);
    let after = compute_digests(&Vec::new(), &none.0, &none.1, &none.2);
    assert_eq!(after.len(), 0, "a deleted symbol's digest must not survive");
}

#[test]
fn weak_callees_are_only_possible_and_ambiguous_ones_are_left_out() {
    let digests = compute_digests(
        &vec![
            symbol("a", "a", "function"),
            symbol("b", "b", "function"),
            symbol("c", "c", "function"),
            symbol("d", "d", "function"),
        ],
        &vec![
            edge("a", "b", "formal"),
            edge("a", "c", "inferred"),
            edge("a", "d", "ambiguous"),
        ],
        &Vec::new(),
        &Vec::new(),
    );
    let facts = &digests.iter().find(|d| d.symbol_qn == "a").unwrap().facts;
    let confirmed: Vec<&str> = facts.confirmed_callees.iter().map(|c| c.name.as_str()).collect();
    let possible: Vec<&str> = facts.possible_callees.iter().map(|c| c.name.as_str()).collect();
    assert_eq!(confirmed, vec!["b"]);
    assert!(possible.contains(&"c"));
    assert!(!confirmed.contains(&"d"));
}

#[test]
fn a_digest_of_many_callees_is_cut_and_says_so() {
    let mut symbols = vec![symbol("hub", "hub", "function")];
    let mut calls = Vec::new();
    for i in 0..200 {
        let name = format!("leaf{i}");
        symbols.push(symbol(&name, &name, "function"));
        calls.push(edge("hub", &name, "resolved"));
    }
    let digests = compute_digests(&symbols, &calls, &Vec::new(), &Vec::new());
    let row = digests.iter().find(|d| d.symbol_qn == "hub").unwrap();
    assert!(row.facts.truncated);
    assert!(row.facts.confirmed_callees.len() < 200);
}
