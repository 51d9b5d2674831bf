use calm_core::go_module::GoModule;
use calm_core::jvm_package::{packages_declared_in, JvmPackageMap, SourceFile};
use calm_core::pysyspath::{extract_roots, PySysPathMap};

fn file(path: &str, source: &str) -> SourceFile {
    SourceFile { path: path.to_string(), source: source.to_string() }
}

#[test]
fn dotless_first_element_is_stdlib() {
    let g = GoModule::build(Some("module example.com/proj\n\ngo 1.21\n"));
    assert!(g.is_stdlib("errors"));
    assert!(g.is_stdlib("net/http"));
    assert!(g.is_stdlib("path/filepath"));
}

#[test]
fn domain_qualified_import_is_not_stdlib() {
    let g = GoModule::build(Some("module example.com/proj\n\ngo 1.21\n"));
    assert!(!g.is_stdlib("github.com/stretchr/testify"));
    assert!(!g.is_stdlib("example.com/proj/helper"));
}

#[test]
fn a_dotless_module_owns_its_own_packages() {
    let g = GoModule::build(Some("module myproject\n\ngo 1.21\n"));
    assert!(!g.is_stdlib("myproject/helper"));
    assert!(g.is_stdlib("errors"));
    assert_eq!(g.package_dir("myproject/helper").as_deref(), Some("helper"));
}

#[test]
fn package_dir_strips_the_module_prefix() {
    let g = GoModule::build(Some("module example.com/proj\n"));
    assert_eq!(g.package_dir("example.com/proj/internal/x").as_deref(), Some("internal/x"));
    assert_eq!(g.package_dir("example.com/proj").as_deref(), Some(""));
    assert_eq!(g.package_dir("github.com/other/pkg"), None);
}

#[test]
fn a_prefix_collision_is_not_ownership() {
    let g = GoModule::build(Some("module example.com/proj\n"));
    assert!(!g.owns("example.com/projector"));
    assert_eq!(g.package_dir("example.com/projector"), None);
}

#[test]
fn no_go_mod_resolves_nothing_rather_than_guessing() {
    let g = GoModule::build(None);
    assert!(!g.owns("anything"));
    assert_eq!(g.package_dir("anything"), None);
    assert!(g.is_stdlib("errors"));
}

#[test]
fn ignores_a_trailing_comment_on_the_module_line() {
    let g = GoModule::build(Some("module example.com/proj // the thing\n"));
    assert!(g.owns("example.com/proj/x"));
}

#[test]
fn resolves_a_type_under_a_maven_source_root() {
    let m = JvmPackageMap::build(&vec![file(
        "src/main/java/org/example/model/Person.java",
        "package org.example.model;\npublic class Person {}\n",
    )]);
    assert_eq!(
        m.resolve_type("org.example.model.Person").as_deref(),
        Some("src/main/java/org/example/model/Person.java")
    );
}

#[test]
fn does_not_resolve_a_package_no_file_declares() {
    let m = JvmPackageMap::build(&vec![file(
        "src/main/java/org/example/model/Person.java",
        "package org.example.model;\npublic class Person {}\n",
    )]);
    assert_eq!(m.resolve_type("java.io.Serializable"), None);
}

#[test]
fn does_not_substitute_a_same_named_type_from_another_package() {
    let m = JvmPackageMap::build(&vec![file(
        "src/main/java/org/example/a/Thing.java",
        "package org.example.a;\npublic class Thing {}\n",
    )]);
    assert_eq!(m.resolve_type("org.example.b.Thing"), None);
}

#[test]
fn wildcard_import_has_no_single_target() {
    let m = JvmPackageMap::build(&vec![file(
        "src/main/java/org/example/model/Person.java",
        "package org.example.model;\npublic class Person {}\n",
    )]);
    assert_eq!(m.resolve_type("org.example.model.*"), None);
}

#[test]
fn a_wildcard_names_no_file_even_where_one_is_called_like_it() {
    let m = JvmPackageMap::build(&vec![
        file("org/example/Model.kt", "package org.example\n\nclass Model\n"),
        file("org/example/model.kt", "package org.example\n"),
    ]);
    assert_eq!(m.resolve_type("org.example.Model.*"), None);
    assert_eq!(m.resolve_type("org.example.model.*"), None);
    assert_eq!(m.resolve_type("org.example.Model"), Some("org/example/Model.kt".to_string()));
    assert_eq!(
        m.resolve_type("org.example.Model.make"),
        Some("org/example/Model.kt".to_string())
    );
}

#[test]
fn static_import_resolves_to_the_declaring_type() {
    let m = JvmPackageMap::build(&vec![file(
        "src/main/java/org/example/util/Assertions.java",
        "package org.example.util;\npublic class Assertions {}\n",
    )]);
    assert_eq!(
        m.resolve_type("org.example.util.Assertions.assertThat").as_deref(),
        Some("src/main/java/org/example/util/Assertions.java")
    );
}

#[test]
fn covers_kotlin_and_groovy_without_a_trailing_semicolon() {
    let m = JvmPackageMap::build(&vec![
        file("src/main/kotlin/org/example/Widget.kt", "package org.example\n\nclass Widget\n"),
        file(
            "src/main/groovy/org/example/Gadget.groovy",
            "package org.example\n\nclass Gadget {}\n",
        ),
    ]);
    assert_eq!(
        m.resolve_type("org.example.Widget").as_deref(),
        Some("src/main/kotlin/org/example/Widget.kt")
    );
    assert_eq!(
        m.resolve_type("org.example.Gadget").as_deref(),
        Some("src/main/groovy/org/example/Gadget.groovy")
    );
}

#[test]
fn no_jvm_files_yields_empty_map() {
    let m = JvmPackageMap::build(&vec![file("main.py", "def f():\n    pass\n")]);
    assert!(m.is_empty());
}

#[test]
fn a_package_name_may_hold_any_letter_and_digit() {
    assert_eq!(packages_declared_in("package org.ünïcode2.x_y;\n"), vec!["org.ünïcode2.x_y"]);
    assert_eq!(packages_declared_in("package a.$b-c;\n"), vec!["a.$b"]);
    assert!(packages_declared_in("package (x)\n").is_empty());
    assert!(packages_declared_in("// nothing here\n").is_empty());
}

fn roots(from: &str, src: &str) -> Vec<String> {
    extract_roots(from, src)
}

#[test]
fn parents_index_with_subdir() {
    let src = r#"sys.path.insert(0, str(Path(__file__).resolve().parents[1] / "lib"))"#;
    assert_eq!(
        roots("benchmarks/b10_real_competitor_ab/run_benchmark.py", src),
        vec!["benchmarks/lib".to_string()]
    );
}

#[test]
fn single_parent_is_the_files_own_dir() {
    let src = r#"sys.path.insert(0, str(Path(__file__).parent / "lib"))"#;
    assert_eq!(roots("a/b/run.py", src), vec!["a/b/lib".to_string()]);
}

#[test]
fn repeated_parent_climbs_one_level_each() {
    let src = r#"sys.path.append(str(Path(__file__).parent.parent / "lib"))"#;
    assert_eq!(roots("a/b/run.py", src), vec!["a/lib".to_string()]);
}

#[test]
fn os_path_dirname_form() {
    let src = r#"sys.path.insert(0, os.path.join(os.path.dirname(os.path.abspath(__file__)), "vendor"))"#;
    assert_eq!(roots("tools/run.py", src), vec!["tools/vendor".to_string()]);
}

#[test]
fn parents_without_subdir() {
    let src = r#"sys.path.insert(0, str(Path(__file__).resolve().parents[2]))"#;
    assert_eq!(roots("a/b/c/run.py", src), vec!["a".to_string()]);
}

#[test]
fn non_file_anchored_insertion_is_ignored() {
    assert!(roots("a/run.py", r#"sys.path.insert(0, "/opt/thing")"#).is_empty());
    assert!(roots("a/run.py", r#"sys.path.insert(0, os.environ["LIBS"])"#).is_empty());
}

#[test]
fn dotdot_literal_is_refused() {
    let src = r#"sys.path.insert(0, os.path.join(os.path.dirname(__file__), "../lib"))"#;
    assert_eq!(roots("a/b/run.py", src), vec!["a/b".to_string()]);
}

#[test]
fn climbing_past_project_root_yields_nothing() {
    let src = r#"sys.path.insert(0, str(Path(__file__).resolve().parents[5] / "lib"))"#;
    assert!(roots("a/run.py", src).is_empty());
}

#[test]
fn multiple_insertions_preserved_in_order() {
    let src = r#"
sys.path.insert(0, str(Path(__file__).resolve().parents[1] / "lib"))
sys.path.insert(0, str(Path(__file__).resolve().parents[1] / "vendor"))
"#;
    assert_eq!(
        roots("bench/x/run.py", src),
        vec!["bench/lib".to_string(), "bench/vendor".to_string()]
    );
}

#[test]
fn build_finds_roots_and_skips_untouched_files() {
    let map = PySysPathMap::build(&vec![
        file(
            "bench/x/run.py",
            "import sys\nsys.path.insert(0, str(Path(__file__).resolve().parents[1] / \"lib\"))\nfrom helper import go\n",
        ),
        file("bench/lib/helper.py", "def go():\n    pass\n"),
    ]);
    assert_eq!(map.roots_for("bench/x/run.py"), ["bench/lib".to_string()]);
    assert!(map.roots_for("bench/lib/helper.py").is_empty());
}

#[test]
fn empty_project_builds_empty_map() {
    assert!(PySysPathMap::build(&Vec::new()).is_empty());
}

#[test]
fn a_root_that_is_inserted_twice_is_listed_once() {
    let src = "sys.path.insert(0, str(Path(__file__).parent / \"lib\"))\n\
               sys.path.append(str(Path(__file__).parent / \"lib\"))\n";
    assert_eq!(roots("a/run.py", src), vec!["a/lib".to_string()]);
}

const OUTSIDE: &str = "str(Path(__file__).resolve().parents[5] / \"x\"))\n";
const LIB: &str = "str(Path(__file__).parent / \"lib\"))\n";
const VENDOR: &str = "str(Path(__file__).parent / \"vendor\"))\n";

#[test]
fn an_insertion_outside_of_the_project_ends_the_list() {
    let src =
        format!("sys.path.insert(0, {OUTSIDE}sys.path.insert(0, {LIB}sys.path.append({VENDOR}");
    assert!(roots("a/run.py", &src).is_empty());
    let src =
        format!("sys.path.append({VENDOR}sys.path.insert(0, {LIB}sys.path.insert(0, {OUTSIDE}");
    assert_eq!(roots("a/run.py", &src), vec!["a/lib"]);
}

#[test]
fn an_addition_outside_of_the_project_leaves_the_insertions() {
    let src =
        format!("sys.path.append({OUTSIDE}sys.path.append({VENDOR}sys.path.insert(0, {LIB}");
    assert_eq!(roots("a/run.py", &src), vec!["a/lib"]);
    let src =
        format!("sys.path.append({VENDOR}sys.path.insert(0, {LIB}sys.path.append({OUTSIDE}");
    assert_eq!(roots("a/run.py", &src), vec!["a/vendor", "a/lib"]);
}

#[test]
fn the_maps_can_be_copied_and_start_out_empty() {
    let files = vec![file("org/example/Model.kt", "package org.example\nclass Model\n")];
    let jvm = JvmPackageMap::build(&files).clone();
    assert_eq!(jvm.resolve_type("org.example.Model"), Some("org/example/Model.kt".to_string()));
    assert!(JvmPackageMap::default().is_empty());
    let py = PySysPathMap::build(&vec![file("a/run.py", &format!("sys.path.append({LIB}"))]);
    assert_eq!(py.clone().roots_for("a/run.py"), ["a/lib".to_string()]);
    assert!(PySysPathMap::default().is_empty());
    let go = GoModule::build(Some("module example.com/app\n")).clone();
    assert!(go.owns("example.com/app/x"));
    assert!(!GoModule::default().owns("example.com/app/x"));
}

#[test]
fn a_package_name_ends_at_the_first_other_character() {
    let m = JvmPackageMap::build(&vec![file("Model.kt", "package a1.B_2$c-d\nclass Model\n")]);
    assert_eq!(m.resolve_type("a1.B_2$c.Model"), Some("Model.kt".to_string()));
}
