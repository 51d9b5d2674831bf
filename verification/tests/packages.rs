use calm_core::documents::{read_json, read_toml};
use calm_core::jvm_package::SourceFile;
use calm_core::package_deps::{
    parse_cargo_toml, parse_go_mod, parse_package_json, parse_pyproject_toml,
    parse_requirements_txt, scan_project, RawPackageDependency,
};

fn names(deps: &[RawPackageDependency]) -> Vec<&str> {
    deps.iter().map(|d| d.name.as_str()).collect()
}

fn file(path: &str, source: &str) -> SourceFile {
    SourceFile { path: path.to_string(), source: source.to_string() }
}

#[test]
fn cargo_toml_runtime_and_dev_deps_with_table_and_string_versions() {
    let deps = parse_cargo_toml(
        r#"
[package]
name = "x"

[dependencies]
serde = "1.0"
rusqlite = { version = "0.31", features = ["bundled"] }
local-crate = { path = "../local", workspace = true }

[dev-dependencies]
tempfile = "3"
"#,
    );
    assert_eq!(deps.len(), 4);
    let serde = deps.iter().find(|d| d.name == "serde").unwrap();
    assert_eq!(serde.version_spec.as_deref(), Some("1.0"));
    assert_eq!(serde.kind, "runtime");
    let rusqlite = deps.iter().find(|d| d.name == "rusqlite").unwrap();
    assert_eq!(rusqlite.version_spec.as_deref(), Some("0.31"));
    let local = deps.iter().find(|d| d.name == "local-crate").unwrap();
    assert_eq!(local.version_spec, None, "no version key present -- must not fabricate one");
    let tempfile = deps.iter().find(|d| d.name == "tempfile").unwrap();
    assert_eq!(tempfile.kind, "dev");
    assert!(deps.iter().all(|d| d.ecosystem == "cargo"));
}

#[test]
fn cargo_toml_workspace_dependencies_table_is_scanned() {
    let deps = parse_cargo_toml(
        r#"
[workspace]
members = ["crates/a"]

[workspace.dependencies]
serde = "1.0"
rusqlite = { version = "0.31", features = ["bundled"] }
"#,
    );
    assert_eq!(names(&deps).len(), 2);
    let serde = deps.iter().find(|d| d.name == "serde").unwrap();
    assert_eq!(serde.version_spec.as_deref(), Some("1.0"));
    assert_eq!(serde.kind, "runtime");
}

#[test]
fn package_json_all_four_dependency_kinds() {
    let deps = parse_package_json(
        r#"{
            "dependencies": {"react": "^18.0.0"},
            "devDependencies": {"jest": "29.0.0"},
            "peerDependencies": {"react-dom": "^18.0.0"},
            "optionalDependencies": {"fsevents": "2.0.0"}
        }"#,
    );
    assert_eq!(names(&deps).len(), 4);
    let react = deps.iter().find(|d| d.name == "react").unwrap();
    assert_eq!(react.version_spec.as_deref(), Some("^18.0.0"));
    assert_eq!(react.kind, "runtime");
    assert!(deps.iter().any(|d| d.name == "jest" && d.kind == "dev"));
    assert!(deps.iter().any(|d| d.name == "react-dom" && d.kind == "peer"));
    assert!(deps.iter().any(|d| d.name == "fsevents" && d.kind == "optional"));
}

#[test]
fn go_mod_single_line_and_block_form() {
    let deps = parse_go_mod(
        "module example.com/x\n\ngo 1.21\n\nrequire github.com/foo/bar v1.2.3\n\nrequire (\n\tgithub.com/baz/qux v0.1.0\n\tgithub.com/indirect/pkg v2.0.0 // indirect\n)\n",
    );
    assert_eq!(
        names(&deps),
        vec!["github.com/foo/bar", "github.com/baz/qux", "github.com/indirect/pkg"]
    );
    let indirect = deps.iter().find(|d| d.name == "github.com/indirect/pkg").unwrap();
    assert_eq!(
        indirect.version_spec.as_deref(),
        Some("v2.0.0"),
        "indirect comment must not leak into the version"
    );
}

#[test]
fn requirements_txt_operators_bare_names_extras_and_comments() {
    let deps = parse_requirements_txt(
        "requests==2.31.0\nflask>=2.0,<3.0\nnumpy\nboto3[crt]==1.28.0  # pinned for X\n# a full-line comment\n\n-r other-requirements.txt\n",
    );
    assert_eq!(names(&deps), vec!["requests", "flask", "numpy", "boto3"]);
    let numpy = deps.iter().find(|d| d.name == "numpy").unwrap();
    assert_eq!(numpy.version_spec, None);
    let boto3 = deps.iter().find(|d| d.name == "boto3").unwrap();
    assert_eq!(boto3.version_spec.as_deref(), Some("==1.28.0"));
}

#[test]
fn pyproject_toml_pep621_and_poetry_shapes() {
    let deps = parse_pyproject_toml(
        r#"
[project]
dependencies = ["requests>=2.0", "click"]

[tool.poetry.dependencies]
python = "^3.11"
fastapi = "^0.100"

[tool.poetry.dev-dependencies]
pytest = "^7.0"
"#,
    );
    assert!(deps
        .iter()
        .any(|d| d.name == "requests" && d.version_spec.as_deref() == Some(">=2.0")));
    assert!(deps.iter().any(|d| d.name == "click" && d.version_spec.is_none()));
    assert!(deps.iter().any(|d| d.name == "fastapi" && d.kind == "runtime"));
    assert!(
        !deps.iter().any(|d| d.name == "python"),
        "python version constraint is not a dependency"
    );
    assert!(deps.iter().any(|d| d.name == "pytest" && d.kind == "dev"));
}

#[test]
fn pyproject_toml_modern_poetry_dependency_groups() {
    let deps = parse_pyproject_toml(
        r#"
[tool.poetry.dependencies]
python = "^3.11"
fastapi = "^0.100"

[tool.poetry.group.dev.dependencies]
pytest = "^7.0"

[tool.poetry.group.docs.dependencies]
mkdocs = "^1.5"
"#,
    );
    assert!(deps.iter().any(|d| d.name == "fastapi" && d.kind == "runtime"));
    assert!(deps.iter().any(|d| d.name == "pytest" && d.kind == "dev"), "{deps:?}");
    assert!(deps.iter().any(|d| d.name == "mkdocs" && d.kind == "dev"), "{deps:?}");
    assert!(!deps.iter().any(|d| d.name == "python"));
}

#[test]
fn malformed_manifests_yield_empty_not_a_panic() {
    assert!(parse_cargo_toml("not valid toml {{{").is_empty());
    assert!(parse_package_json("not json").is_empty());
    assert!(parse_pyproject_toml("not valid toml {{{").is_empty());
}

#[test]
fn scan_project_walks_real_files_and_skips_node_modules() {
    // What a walk finds; the walk itself leaves `node_modules` out.
    let deps = scan_project(&vec![
        file("Cargo.toml", "[package]\nname = \"x\"\n[dependencies]\nserde = \"1.0\"\n"),
        file("package.json", r#"{"dependencies": {"react": "^18.0.0"}}"#),
    ]);
    assert!(deps.iter().any(|d| d.name == "serde" && d.manifest_path == "Cargo.toml"));
    assert!(deps.iter().any(|d| d.name == "react" && d.manifest_path == "package.json"));
    assert!(!deps.iter().any(|d| d.name == "should-not-appear"));
}

#[test]
fn compute_package_dependencies_persists_and_full_recomputes() {
    let with = vec![file(
        "Cargo.toml",
        "[package]\nname = \"x\"\n[dependencies]\nserde = \"1.0\"\n",
    )];
    assert_eq!(scan_project(&with).len(), 1);
    let without = vec![file("Cargo.toml", "[package]\nname = \"x\"\n")];
    assert_eq!(scan_project(&without).len(), 0, "a removed dependency does not survive");
}

#[test]
fn every_manifest_of_a_project_is_read() {
    let deps = scan_project(&vec![
        file("a/go.mod", "module m\n\nrequire example.com/x v1.0.0\n"),
        file("b/requirements.txt", "numpy\n"),
        file("c/pyproject.toml", "[project]\ndependencies = [\"click\"]\n"),
        file("src/main.rs", "fn main() {}\n"),
    ]);
    let mut got: Vec<(&str, &str, &str)> = deps
        .iter()
        .map(|d| (d.manifest_path.as_str(), d.ecosystem, d.name.as_str()))
        .collect();
    got.sort();
    assert_eq!(
        got,
        vec![
            ("a/go.mod", "go", "example.com/x"),
            ("b/requirements.txt", "pypi", "numpy"),
            ("c/pyproject.toml", "pypi", "click"),
        ]
    );
}

#[test]
fn a_toml_document_is_read_as_it_is_spelled() {
    let doc = read_toml("title = \"t\"\nn = 3\n[a]\nb = [\"x\", \"y\"]\n").unwrap();
    assert_eq!(doc.get("title").unwrap().text().unwrap(), "t");
    assert!(doc.get("n").unwrap().text().is_none());
    assert!(doc.walk(&vec!["a", "b"]).is_some());
    assert!(doc.walk(&vec!["a", "c"]).is_none());
    assert!(doc.get("title").unwrap().get("x").is_none());
    assert!(read_toml("= nothing").is_none());
}

#[test]
fn a_json_document_is_read_as_it_is_spelled() {
    let doc = read_json(r#"{"name": "n", "deep": {"k": "v"}, "none": null}"#).unwrap();
    assert_eq!(doc.get("name").unwrap().text().unwrap(), "n");
    assert_eq!(doc.walk(&vec!["deep", "k"]).unwrap().text().unwrap(), "v");
    assert!(doc.get("none").unwrap().text().is_none());
    assert!(doc.get("absent").is_none());
    assert!(read_json("{").is_none());
}

#[test]
fn requirements_of_joined_texts_follow_each_other() {
    for (a, b) in [
        ("requests>=2.0", "flask[async]==3.0 # web"),
        ("requests>=2.0\r", "numpy"),
        ("# nothing\n", "\n-r more.txt\nnumpy ; python_version > '3'"),
        ("", "numpy"),
        ("numpy", ""),
    ] {
        let mut both = parse_requirements_txt(a);
        both.extend(parse_requirements_txt(b));
        assert_eq!(parse_requirements_txt(&format!("{a}\n{b}")), both);
        for d in &both {
            assert!(!d.name.is_empty());
            assert!(!d.name.contains(['=', '<', '>', '!', '~', ';', '[', '#']));
            if let Some(v) = &d.version_spec {
                assert!(v.starts_with(['=', '<', '>', '!', '~', ';']));
            }
        }
    }
}
