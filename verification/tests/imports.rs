use calm_core::go_module::GoModule;
use calm_core::jvm_package::{JvmPackageMap, SourceFile};
use calm_core::maps::{CrateMap, NamespaceMap, Psr4Map, ResolutionMaps};
use calm_core::modules::{
    resolve_import_targets, resolve_module_to_path, resolve_rust_module, ImportRow,
};
use calm_core::names::NameTable;
use calm_core::pysyspath::PySysPathMap;

fn known(paths: &[&str]) -> NameTable {
    let mut t = NameTable::new();
    for p in paths {
        t.intern(p);
    }
    t
}

fn maps() -> ResolutionMaps {
    ResolutionMaps {
        crate_map: CrateMap::new(),
        psr4: Psr4Map::new(),
        namespace_map: NamespaceMap::new(),
        pysys: PySysPathMap::build(&Vec::new()),
        jvm: JvmPackageMap::build(&Vec::new()),
        go: GoModule::build(None),
    }
}

fn file(path: &str, source: &str) -> SourceFile {
    SourceFile { path: path.to_string(), source: source.to_string() }
}

fn target(from: &str, module: &str, paths: &[&str], maps: &ResolutionMaps) -> Option<String> {
    resolve_module_to_path(from, module, &known(paths), maps)
}

#[test]
fn test_imports_and_cross_file_resolved_confidence() {
    let got = target("main.py", "helper", &["helper.py", "main.py"], &maps());
    assert_eq!(got.as_deref(), Some("helper.py"));
}

#[test]
fn test_rust_super_import_inside_inline_mod_resolves_to_own_module_dir() {
    let mut m = maps();
    m.crate_map.roots.set("supermod", "src");
    for f in ["src/lib.rs", "src/tools.rs", "src/tools/common.rs"] {
        m.crate_map.homes.set(f, "src");
    }
    let paths = ["Cargo.toml", "src/lib.rs", "src/tools.rs", "src/tools/common.rs"];
    let got = target("src/tools.rs", "super::common", &paths, &m);
    assert_eq!(got.as_deref(), Some("src/tools/common.rs"));
}

#[test]
fn test_python_dotted_import_resolves_against_package_root() {
    let paths = ["app/main.py", "app/pkg/__init__.py", "app/pkg/helper.py"];
    let got = target("app/main.py", "pkg.helper", &paths, &maps());
    assert_eq!(got.as_deref(), Some("app/pkg/helper.py"));
}

#[test]
fn test_python_import_resolves_through_sys_path_insert() {
    let run = file(
        "bench/runner/run.py",
        "import sys\nfrom pathlib import Path\n\
         sys.path.insert(0, str(Path(__file__).resolve().parents[1] / \"lib\"))\n\
         from mcp_client import Client\n",
    );
    let mut m = maps();
    m.pysys =
        PySysPathMap::build(&vec![run, file("bench/lib/mcp_client.py", "class Client:\n    pass\n")]);
    let paths = ["bench/runner/run.py", "bench/lib/mcp_client.py"];
    let got = target("bench/runner/run.py", "mcp_client", &paths, &m);
    assert_eq!(got.as_deref(), Some("bench/lib/mcp_client.py"));
    assert_eq!(
        target("bench/runner/run.py", "sys", &paths, &m),
        None,
        "stdlib import must remain unresolved"
    );
}

#[test]
fn test_commonjs_require_cross_file_resolved_confidence() {
    let got = target("main.js", "./helper", &["helper.js", "main.js"], &maps());
    assert_eq!(got.as_deref(), Some("helper.js"));
}

#[test]
fn test_js_extension_import_resolves_to_ts_sibling() {
    let got = target("index.ts", "./runtime.js", &["index.ts", "runtime.ts"], &maps());
    assert_eq!(got.as_deref(), Some("runtime.ts"));
}

#[test]
fn test_go_stdlib_import_does_not_bind_to_same_named_project_file() {
    let mut m = maps();
    m.go = GoModule::build(Some("module example.com/proj\n\ngo 1.21\n"));
    let paths = ["errors.go", "helper/helper.go", "main.go"];
    assert_eq!(target("main.go", "errors", &paths, &m), None);
    let first_party = target("main.go", "example.com/proj/helper", &paths, &m);
    assert_eq!(first_party.as_deref(), Some("helper/helper.go"));
}

#[test]
fn test_java_import_resolves_via_package_declaration_under_maven_layout() {
    let person = "src/main/java/org/example/app/model/Person.java";
    let service = "src/main/java/org/example/app/Service.java";
    let mut m = maps();
    m.jvm = JvmPackageMap::build(&vec![
        file(person, "package org.example.app.model;\n\npublic class Person {}\n"),
        file(service, "package org.example.app;\n\npublic class Service {}\n"),
    ]);
    let paths = [person, service];
    let got = target(service, "org.example.app.model.Person", &paths, &m);
    assert_eq!(got.as_deref(), Some(person));
    assert_eq!(target(service, "java.io.Serializable", &paths, &m), None);
}

#[test]
fn test_csharp_using_resolves_import_edge_to_path_when_unambiguous() {
    let mut m = maps();
    m.namespace_map.declare("MultiLang", "helper.cs");
    m.namespace_map.declare("Shared", "shared_a.cs");
    m.namespace_map.declare("Shared", "shared_b.cs");
    let paths = ["helper.cs", "shared_a.cs", "shared_b.cs", "program.cs"];
    assert_eq!(target("program.cs", "MultiLang", &paths, &m).as_deref(), Some("helper.cs"));
    assert_eq!(target("program.cs", "Shared", &paths, &m), None);
}

#[test]
fn test_php_psr4_resolves_use_import_to_real_file() {
    let mut m = maps();
    m.psr4.targets.set("App\\Service\\Foo", "src/Service/Foo.php");
    let paths = ["src/Service/Foo.php", "index.php"];
    let got = target("index.php", "App\\Service\\Foo", &paths, &m);
    assert_eq!(got.as_deref(), Some("src/Service/Foo.php"));
    assert_eq!(target("index.php", "App\\Service\\Bar", &paths, &m), None);
}

#[test]
fn test_php_p1_2_end_to_end() {
    let paths = ["helper.php", "main.php", "other.php"];
    let got = target("main.php", "./helper.php", &paths, &maps());
    assert_eq!(got.as_deref(), Some("helper.php"));
}

#[test]
fn external_crate_use_does_not_resolve_to_own_lib_rs() {
    let mut m = maps();
    m.crate_map.roots.set("myapp", "src");
    m.crate_map.homes.set("src/lib.rs", "src");
    m.crate_map.homes.set("src/thing.rs", "src");
    let paths = ["Cargo.toml", "src/lib.rs", "src/thing.rs"];
    assert_eq!(target("src/thing.rs", "rusqlite", &paths, &m), None);
}

#[test]
fn a_rust_path_is_read_from_its_crate_root() {
    let mut crates = CrateMap::new();
    crates.roots.set("app", "src");
    crates.homes.set("src/lib.rs", "src");
    crates.homes.set("src/a/b.rs", "src");
    let paths = known(&["src/lib.rs", "src/a/b.rs", "src/a/mod.rs", "src/util.rs"]);
    let got = |module: &str| resolve_rust_module("src/a/b.rs", module, &crates, &paths);
    assert_eq!(got("crate::util").as_deref(), Some("src/util.rs"));
    assert_eq!(got("crate::a").as_deref(), Some("src/a/mod.rs"));
    assert_eq!(got("app::util").as_deref(), Some("src/util.rs"));
}

#[test]
fn a_target_is_always_an_indexed_file() {
    let rows = vec![
        ImportRow { id: 1, from_path: "a.py".to_string(), module_name: "b".to_string() },
        ImportRow { id: 2, from_path: "a.py".to_string(), module_name: "nowhere".to_string() },
        ImportRow { id: 3, from_path: "x.js".to_string(), module_name: "./y".to_string() },
    ];
    let got: Vec<(i64, String)> =
        resolve_import_targets(&rows, &known(&["a.py", "b.py", "x.js", "y/index.js"]), &maps())
            .into_iter()
            .map(|t| (t.id, t.to_path))
            .collect();
    assert_eq!(got, vec![(1, "b.py".to_string()), (3, "y/index.js".to_string())]);
}

#[test]
fn the_order_of_the_files_does_not_matter() {
    let m = maps();
    let one = target("pkg/a.py", "b", &["b.py", "pkg/b.py", "pkg/a.py"], &m);
    let other = target("pkg/a.py", "b", &["pkg/a.py", "pkg/b.py", "b.py"], &m);
    assert_eq!(one, other);
    assert!(one.is_some());
}
