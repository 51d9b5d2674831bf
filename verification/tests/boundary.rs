use calm_core::boundary::{update_boundary_ambiguous_flags, SpanRow};

fn symbol(qname: &str, path: &str, line_start: i64, line_end: i64) -> SpanRow {
    SpanRow {
        qualified_name: qname.to_string(),
        path: path.to_string(),
        line_start,
        line_end,
    }
}

fn flagged(rows: &Vec<SpanRow>, qname: &str) -> bool {
    update_boundary_ambiguous_flags(rows).iter().any(|q| q == qname)
}

#[test]
fn flags_two_symbols_sharing_a_boundary_line() {
    let rows = vec![symbol("a", "f.rs", 1, 10), symbol("b", "f.rs", 10, 20)];
    assert!(flagged(&rows, "a"), "line_end shared with next symbol's line_start");
    assert!(flagged(&rows, "b"), "line_start shared with previous symbol's line_end");
}

#[test]
fn does_not_flag_symbols_with_a_normal_gap() {
    let rows = vec![symbol("a", "f.rs", 1, 10), symbol("b", "f.rs", 12, 20)];
    assert!(!flagged(&rows, "a"));
    assert!(!flagged(&rows, "b"));
}

#[test]
fn scopes_the_check_per_file_not_across_files() {
    let rows = vec![symbol("a", "f1.rs", 1, 10), symbol("b", "f2.rs", 10, 20)];
    assert!(!flagged(&rows, "a"));
}

#[test]
fn re_running_after_a_fix_clears_the_flag() {
    let mut rows = vec![symbol("a", "f.rs", 1, 10), symbol("b", "f.rs", 10, 20)];
    assert!(flagged(&rows, "a"));
    rows[0].line_end = 9;
    assert!(!flagged(&rows, "a"), "flag must clear once the boundary no longer overlaps");
}

#[test]
fn does_not_flag_pure_containment() {
    let rows = vec![
        symbol("container", "f.rs", 1, 20),
        symbol("child", "f.rs", 2, 10),
    ];
    assert!(!flagged(&rows, "container"));
    assert!(!flagged(&rows, "child"));
}

#[test]
fn flags_child_starting_on_the_same_line_as_its_container() {
    let rows = vec![
        symbol("container", "f.rs", 1, 20),
        symbol("child", "f.rs", 1, 10),
    ];
    assert!(flagged(&rows, "container"));
    assert!(flagged(&rows, "child"));
}

#[test]
fn every_flag_is_listed_once() {
    let rows = vec![
        symbol("a", "f.rs", 1, 10),
        symbol("b", "f.rs", 10, 20),
        symbol("c", "f.rs", 20, 30),
    ];
    let mut got = update_boundary_ambiguous_flags(&rows);
    got.sort();
    assert_eq!(got, vec!["a", "b", "c"]);
    assert!(update_boundary_ambiguous_flags(&Vec::new()).is_empty());
}
