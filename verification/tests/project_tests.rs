use camino::{Utf8Path, Utf8PathBuf};
use ruff_python_ast as ast;
use ruff_python_ast::visitor::{self, Visitor};
use ruff_python_parser::parse_module;
use testdiff::project::graph::EscalatedWarnings;
use testdiff::project::index::{ProjectIndex, Scanned};
use testdiff::project::resolve::{ImportKind, ImportSpec};
use testdiff::project::utils::is_test_file;
use testdiff::project::TestResult;

const ROOT: &str = "/work/project";

/// A project tree held in memory: the files written below a root, as a scan would find
/// them.
struct Tree {
    root: Utf8PathBuf,
    files: Vec<(Utf8PathBuf, String)>,
}

fn tempdir() -> Tree {
    Tree { root: Utf8PathBuf::from(ROOT), files: Vec::new() }
}

fn write_file(tree: &mut Tree, relative: &str, contents: &str) -> Utf8PathBuf {
    let path = tree.root.join(relative);
    tree.files.push((path.clone(), contents.to_string()));
    path
}

fn remove_file(tree: &mut Tree, path: &Utf8Path) {
    tree.files.retain(|(p, _)| p != path);
}

struct ImportCollector {
    imports: Vec<ImportSpec>,
}

impl<'a> Visitor<'a> for ImportCollector {
    fn visit_stmt(&mut self, stmt: &'a ast::Stmt) {
        match stmt {
            ast::Stmt::Import(ast::StmtImport { names, .. }) => {
                for alias in names {
                    self.imports.push(ImportSpec {
                        level: 0,
                        module: Some(alias.name.to_string()),
                        name: None,
                        kind: ImportKind::Import,
                    });
                }
            }
            ast::Stmt::ImportFrom(ast::StmtImportFrom { module, names, level, .. }) => {
                for alias in names {
                    self.imports.push(ImportSpec {
                        level: *level,
                        module: module.as_ref().map(|m| m.to_string()),
                        name: Some(alias.name.to_string()),
                        kind: ImportKind::ImportFrom,
                    });
                }
            }
            _ => {}
        }
        visitor::walk_stmt(self, stmt);
    }
}

fn scan(tree: &Tree) -> (Vec<Scanned>, Vec<String>) {
    let mut entries = Vec::new();
    let mut present = Vec::new();
    for (path, contents) in &tree.files {
        present.push(path.to_string());
        match parse_module(contents) {
            Ok(parsed) => {
                let mut collector = ImportCollector { imports: Vec::new() };
                for stmt in &parsed.syntax().body {
                    collector.visit_stmt(stmt);
                }
                entries.push(Scanned::Parsed { path: path.to_string(), imports: collector.imports });
            }
            Err(err) => entries.push(Scanned::Unparsable {
                path: path.to_string(),
                message: err.to_string(),
            }),
        }
    }
    (entries, present)
}

fn build(tree: &Tree) -> (ProjectIndex, Vec<String>) {
    let (entries, present) = scan(tree);
    (ProjectIndex::build(tree.root.as_str(), entries, &present), present)
}

fn abs(relative: &str) -> String {
    format!("{}/{}", ROOT, relative)
}

fn from_import(module: &str, name: &str) -> ImportSpec {
    ImportSpec {
        level: 0,
        module: Some(module.to_string()),
        name: Some(name.to_string()),
        kind: ImportKind::ImportFrom,
    }
}

fn plain_import(module: &str) -> ImportSpec {
    ImportSpec { level: 0, module: Some(module.to_string()), name: None, kind: ImportKind::Import }
}

fn parsed(relative: &str, imports: Vec<ImportSpec>) -> Scanned {
    Scanned::Parsed { path: abs(relative), imports }
}

fn present(relatives: &[&str]) -> Vec<String> {
    relatives.iter().map(|r| abs(r)).collect()
}

fn names(tests: &[TestResult]) -> Vec<&str> {
    tests.iter().map(|t| t.path.as_str()).collect()
}

fn run(
    index: &ProjectIndex,
    changed: &Vec<String>,
    files: &Vec<String>,
    max: Option<usize>,
    limit: Option<usize>,
) -> Vec<TestResult> {
    let mut said = Vec::new();
    index.impacted_tests(changed, files, max, limit, true, false, &mut said).unwrap()
}

/// What the analysis selects for the files as they stand in the tree.
fn impacted_tests(
    tree: &Tree,
    changed: &[Utf8PathBuf],
    max: Option<usize>,
    distance_limit: Option<usize>,
    quiet: bool,
    warn_as_error: bool,
) -> Result<Vec<TestResult>, EscalatedWarnings> {
    let (index, present) = build(tree);
    let changed: Vec<String> = changed.iter().map(|p| p.to_string()).collect();
    let mut said = Vec::new();
    index.impacted_tests(&changed, &present, max, distance_limit, quiet, warn_as_error, &mut said)
}

#[test]
fn import_graph_selects_reverse_dep_tests() {
    let mut tmp = tempdir();

    write_file(&mut tmp, "pkg/__init__.py", "");
    let changed_path = write_file(&mut tmp, "pkg/foo.py", "def f():\n    return 1\n");
    write_file(&mut tmp, "tests/test_foo.py", "from pkg import foo\n\n");

    let changed = vec![changed_path];
    let impacted = impacted_tests(&tmp, &changed, None, None, true, false).unwrap();

    let names: Vec<_> = impacted.iter().map(|t| t.path.as_str()).collect();
    assert!(
        names.contains(&"tests/test_foo.py"),
        "expected tests/test_foo.py in impacted tests, got {:?}",
        names
    );
}

#[test]
fn distance_limit_prunes_beyond_bound() {
    let mut tmp = tempdir();

    write_file(&mut tmp, "pkg/__init__.py", "");
    let core_path = write_file(&mut tmp, "pkg/core.py", "def core():\n    return 1\n");
    write_file(
        &mut tmp,
        "pkg/service.py",
        "from pkg import core\n\ndef use():\n    return core.core()\n",
    );
    write_file(
        &mut tmp,
        "tests/test_service.py",
        "from pkg import service\n\ndef test_use():\n    assert service.use() is not None\n",
    );

    let changed = vec![core_path];

    let impacted_unbounded = impacted_tests(&tmp, &changed, None, None, true, false).unwrap();
    let names_unbounded: Vec<_> = impacted_unbounded.iter().map(|t| t.path.as_str()).collect();
    assert!(
        names_unbounded.contains(&"tests/test_service.py"),
        "expected tests/test_service.py without distance limit, got {:?}",
        names_unbounded
    );

    let impacted_capped = impacted_tests(&tmp, &changed, None, Some(1), true, false).unwrap();
    let names_capped: Vec<_> = impacted_capped.iter().map(|t| t.path.as_str()).collect();
    assert!(
        !names_capped.contains(&"tests/test_service.py"),
        "did not expect tests/test_service.py with distance_limit=1, got {:?}",
        names_capped
    );
}

#[test]
fn deleted_python_file_still_impacts_importers() {
    let mut tmp = tempdir();

    write_file(&mut tmp, "pkg/__init__.py", "");
    let removed_path = write_file(&mut tmp, "pkg/foo.py", "def f():\n    return 1\n");
    write_file(&mut tmp, "tests/test_foo.py", "from pkg import foo\n\n");

    // simulate deletion
    remove_file(&mut tmp, &removed_path);

    let changed = vec![removed_path];
    let impacted = impacted_tests(&tmp, &changed, None, None, true, false).unwrap();

    let names: Vec<_> = impacted.iter().map(|t| t.path.as_str()).collect();
    assert!(
        names.contains(&"tests/test_foo.py"),
        "expected tests/test_foo.py when foo.py is removed, got {:?}",
        names
    );
}

#[test]
fn deleted_top_level_module_is_seeded_without_edges() {
    let mut tmp = tempdir();

    let removed_path = write_file(&mut tmp, "foo.py", "def f():\n    return 1\n");
    write_file(
        &mut tmp,
        "tests/test_bar.py",
        "import foo\n\ndef test_bar():\n    assert hasattr(foo, 'f')\n",
    );

    remove_file(&mut tmp, &removed_path);

    let (index, files) = build(&tmp);
    let changed = vec![removed_path.to_string()];
    let mut said = Vec::new();
    let impacted = index
        .impacted_tests(&changed, &files, None, None, false, true, &mut said)
        .unwrap();

    assert!(impacted.is_empty());
    assert_eq!(
        said,
        vec![format!("Warning: changed file not indexed (using module `foo`): {}", abs("foo.py"))]
    );
}

#[test]
fn conftest_is_not_considered_a_test() {
    let mut tmp = tempdir();

    let conftest = write_file(&mut tmp, "tests/conftest.py", "# helper fixtures\n");
    let real_test = write_file(
        &mut tmp,
        "tests/test_real.py",
        "def test_ok():\n    assert True\n",
    );

    assert!(
        !is_test_file(conftest.as_str()),
        "conftest.py should not be treated as a test file"
    );
    assert!(
        is_test_file(real_test.as_str()),
        "test_*.py should be treated as a test file"
    );
}

#[test]
fn parsed_sources_give_their_imports() {
    let mut tmp = tempdir();
    write_file(&mut tmp, "pkg/__init__.py", "from . import a\nfrom .b import *\n");
    write_file(
        &mut tmp,
        "pkg/a.py",
        "import os, sys as system\n\ndef f():\n    from ..up import thing\n    import pkg.b\n",
    );
    write_file(&mut tmp, "pkg/b.py", "def broken(:\n");
    let (index, _) = build(&tmp);
    let package = index.find_module("pkg").unwrap();
    assert_eq!(index.modules[package].imports, vec!["pkg.a".to_string(), "pkg.b".to_string()]);
    let module = index.find_module("pkg.a").unwrap();
    assert_eq!(
        index.modules[module].imports,
        vec!["os".to_string(), "sys".to_string(), "up.thing".to_string(), "pkg.b".to_string()]
    );
    assert!(index.find_module("pkg.b").is_none());
    assert_eq!(index.warnings.len(), 1);
    assert!(index.warnings[0].starts_with(&format!("Failed to parse {}: ", abs("pkg/b.py"))));
}

fn service_project() -> (ProjectIndex, Vec<String>) {
    let files = present(&[
        "pkg/__init__.py",
        "pkg/core.py",
        "pkg/service.py",
        "tests/test_service.py",
    ]);
    let entries = vec![
        parsed("pkg/__init__.py", vec![]),
        parsed("pkg/core.py", vec![]),
        parsed("pkg/service.py", vec![from_import("pkg", "core")]),
        parsed("tests/test_service.py", vec![from_import("pkg", "service")]),
    ];
    (ProjectIndex::build(ROOT, entries, &files), files)
}

#[test]
fn distances_count_import_steps() {
    let (index, files) = service_project();
    let changed = vec![abs("pkg/core.py")];
    let impacted = run(&index, &changed, &files, None, None);
    assert_eq!(impacted.len(), 1);
    assert_eq!(impacted[0].path, "tests/test_service.py");
    assert_eq!(impacted[0].distance, 2);
    assert_eq!(impacted[0].priority.distance, 2);
    assert_eq!(impacted[0].priority.filename_match, 0);
}

#[test]
fn module_at_the_limit_is_still_reported() {
    let (index, files) = service_project();
    let changed = vec![abs("pkg/core.py")];
    let at_limit = run(&index, &changed, &files, None, Some(2));
    assert_eq!(names(&at_limit), vec!["tests/test_service.py"]);
    assert!(at_limit.iter().all(|t| t.distance <= 2));
    let none = run(&index, &changed, &files, None, Some(0));
    assert!(none.is_empty());
}

#[test]
fn limit_zero_reports_changed_tests_only() {
    let (index, files) = service_project();
    let changed = vec![abs("tests/test_service.py"), abs("pkg/core.py")];
    let impacted = run(&index, &changed, &files, None, Some(0));
    assert_eq!(names(&impacted), vec!["tests/test_service.py"]);
    assert_eq!(impacted[0].distance, 0);
}

#[test]
fn direct_importer_is_at_distance_one() {
    let files = present(&["pkg/__init__.py", "pkg/core.py", "tests/test_core.py"]);
    let entries = vec![
        parsed("pkg/__init__.py", vec![]),
        parsed("pkg/core.py", vec![]),
        parsed("tests/test_core.py", vec![from_import("pkg", "core")]),
    ];
    let index = ProjectIndex::build(ROOT, entries, &files);
    let impacted = run(&index, &vec![abs("pkg/core.py")], &files, None, None);
    assert_eq!(names(&impacted), vec!["tests/test_core.py"]);
    assert_eq!(impacted[0].distance, 1);
}

#[test]
fn shortest_chain_gives_the_distance() {
    let files = present(&["core.py", "mid.py", "test_both.py"]);
    let entries = vec![
        parsed("core.py", vec![]),
        parsed("mid.py", vec![plain_import("core")]),
        parsed("test_both.py", vec![plain_import("mid"), plain_import("core")]),
    ];
    let index = ProjectIndex::build(ROOT, entries, &files);
    let impacted = run(&index, &vec![abs("core.py")], &files, None, None);
    assert_eq!(names(&impacted), vec!["test_both.py"]);
    assert_eq!(impacted[0].distance, 1);
}

#[test]
fn import_cycles_end() {
    let files = present(&["a.py", "b.py", "test_a.py"]);
    let entries = vec![
        parsed("a.py", vec![plain_import("b")]),
        parsed("b.py", vec![plain_import("a")]),
        parsed("test_a.py", vec![plain_import("a")]),
    ];
    let index = ProjectIndex::build(ROOT, entries, &files);
    let impacted = run(&index, &vec![abs("b.py")], &files, None, None);
    assert_eq!(names(&impacted), vec!["test_a.py"]);
    assert_eq!(impacted[0].distance, 2);
}

#[test]
fn conftest_is_never_reported() {
    let files = present(&["pkg.py", "tests/conftest.py", "tests/test_real.py"]);
    let entries = vec![
        parsed("pkg.py", vec![]),
        parsed("tests/conftest.py", vec![plain_import("pkg")]),
        parsed("tests/test_real.py", vec![plain_import("pkg")]),
    ];
    let index = ProjectIndex::build(ROOT, entries, &files);
    let impacted = run(&index, &vec![abs("pkg.py"), abs("tests/conftest.py")], &files, None, None);
    assert_eq!(names(&impacted), vec!["tests/test_real.py"]);
}

#[test]
fn ranking_prefers_matching_file_names() {
    let files = present(&["foo.py", "tests/test_bar.py", "tests/test_foo_extra.py"]);
    let entries = vec![
        parsed("foo.py", vec![]),
        parsed("tests/test_bar.py", vec![plain_import("foo")]),
        parsed("tests/test_foo_extra.py", vec![plain_import("foo")]),
    ];
    let index = ProjectIndex::build(ROOT, entries, &files);
    let impacted = run(&index, &vec![abs("foo.py")], &files, None, None);
    assert_eq!(names(&impacted), vec!["tests/test_foo_extra.py", "tests/test_bar.py"]);
    assert_eq!(impacted[0].distance, impacted[1].distance);
    assert_eq!(impacted[0].priority.filename_match, 0);
    assert_eq!(impacted[1].priority.filename_match, 1);
}

#[test]
fn equal_ranks_are_ordered_by_path() {
    let files = present(&["foo.py", "tests/test_c.py", "tests/test_a.py", "tests/test_b.py"]);
    let entries = vec![
        parsed("foo.py", vec![]),
        parsed("tests/test_c.py", vec![plain_import("foo")]),
        parsed("tests/test_a.py", vec![plain_import("foo")]),
        parsed("tests/test_b.py", vec![plain_import("foo")]),
    ];
    let index = ProjectIndex::build(ROOT, entries, &files);
    let impacted = run(&index, &vec![abs("foo.py")], &files, None, None);
    assert_eq!(names(&impacted), vec!["tests/test_a.py", "tests/test_b.py", "tests/test_c.py"]);
}

#[test]
fn nearer_tests_come_first_between_equal_matches() {
    let files = present(&["core.py", "mid.py", "test_far.py", "test_near.py"]);
    let entries = vec![
        parsed("core.py", vec![]),
        parsed("mid.py", vec![plain_import("core")]),
        parsed("test_far.py", vec![plain_import("mid")]),
        parsed("test_near.py", vec![plain_import("core")]),
    ];
    let index = ProjectIndex::build(ROOT, entries, &files);
    let impacted = run(&index, &vec![abs("core.py")], &files, None, None);
    assert_eq!(names(&impacted), vec!["test_near.py", "test_far.py"]);
    assert_eq!(impacted[0].distance, 1);
    assert_eq!(impacted[1].distance, 2);
}

#[test]
fn max_keeps_the_most_relevant() {
    let files = present(&["foo.py", "tests/test_c.py", "tests/test_a.py", "tests/test_foo.py"]);
    let entries = vec![
        parsed("foo.py", vec![]),
        parsed("tests/test_c.py", vec![plain_import("foo")]),
        parsed("tests/test_a.py", vec![plain_import("foo")]),
        parsed("tests/test_foo.py", vec![plain_import("foo")]),
    ];
    let index = ProjectIndex::build(ROOT, entries, &files);
    let changed = vec![abs("foo.py")];
    assert_eq!(
        names(&run(&index, &changed, &files, Some(2), None)),
        vec!["tests/test_foo.py", "tests/test_a.py"]
    );
    assert!(run(&index, &changed, &files, Some(0), None).is_empty());
    assert_eq!(run(&index, &changed, &files, Some(10), None).len(), 3);
}

#[test]
fn two_runs_give_the_same_report() {
    let (index, files) = service_project();
    let changed = vec![abs("pkg/core.py"), abs("pkg/service.py")];
    let first = run(&index, &changed, &files, None, None);
    let second = run(&index, &changed, &files, None, None);
    assert_eq!(names(&first), names(&second));
    let distances: Vec<usize> = first.iter().map(|t| t.distance).collect();
    assert_eq!(distances, second.iter().map(|t| t.distance).collect::<Vec<_>>());
}

#[test]
fn submodule_import_falls_back_to_package() {
    let files = present(&["pkg/__init__.py", "tests/test_pkg.py"]);
    let entries = vec![
        parsed("pkg/__init__.py", vec![]),
        parsed("tests/test_pkg.py", vec![from_import("pkg.missing", "thing")]),
    ];
    let index = ProjectIndex::build(ROOT, entries, &files);
    let impacted = run(&index, &vec![abs("pkg/__init__.py")], &files, None, None);
    assert_eq!(names(&impacted), vec!["tests/test_pkg.py"]);
}

#[test]
fn file_heuristic_finds_unpackaged_module() {
    let files = present(&["lib/helpers.py", "tests/test_helpers.py"]);
    let entries = vec![
        parsed("lib/helpers.py", vec![]),
        parsed("tests/test_helpers.py", vec![plain_import("lib.helpers")]),
    ];
    let index = ProjectIndex::build(ROOT, entries, &files);
    assert!(index.find_module("lib.helpers").is_some());
    let impacted = run(&index, &vec![abs("lib/helpers.py")], &files, None, None);
    assert_eq!(names(&impacted), vec!["tests/test_helpers.py"]);
}

#[test]
fn heuristic_maps_dotted_name_to_file_of_other_identity() {
    let files = present(&["src/app/__init__.py", "src/app/core.py", "tests/test_core.py"]);
    let entries = vec![
        parsed("src/app/__init__.py", vec![]),
        parsed("src/app/core.py", vec![]),
        parsed("tests/test_core.py", vec![plain_import("src.app.core")]),
    ];
    let index = ProjectIndex::build(ROOT, entries, &files);
    assert!(index.find_module("app.core").is_some());
    assert!(index.find_module("src.app.core").is_none());
    assert_eq!(
        index.heuristic_map("src.app.core", &files),
        Some("app.core".to_string())
    );
    assert_eq!(index.heuristic_map("src.app", &files), Some("app".to_string()));
    let impacted = run(&index, &vec![abs("src/app/core.py")], &files, None, None);
    assert_eq!(names(&impacted), vec!["tests/test_core.py"]);
}

#[test]
fn heuristic_needs_the_file_to_exist() {
    let files = present(&["src/app/__init__.py", "src/app/core.py"]);
    let entries = vec![parsed("src/app/__init__.py", vec![]), parsed("src/app/core.py", vec![])];
    let index = ProjectIndex::build(ROOT, entries, &files);
    let gone = present(&["src/app/__init__.py"]);
    assert_eq!(index.heuristic_map("src.app.core", &gone), None);
    assert_eq!(index.heuristic_map("src.app.core", &files), Some("app.core".to_string()));
}

#[test]
fn trimming_finds_nearest_known_package() {
    let files = present(&["a/__init__.py", "a/b/__init__.py"]);
    let entries = vec![parsed("a/__init__.py", vec![]), parsed("a/b/__init__.py", vec![])];
    let index = ProjectIndex::build(ROOT, entries, &files);
    assert_eq!(index.trim_to_known_module("a.b.c.d"), Some("a.b".to_string()));
    assert_eq!(index.trim_to_known_module("a.x.y"), Some("a".to_string()));
    assert_eq!(index.trim_to_known_module("a"), None);
    assert_eq!(index.trim_to_known_module("z.y"), None);
    assert_eq!(index.resolve_known_module("a.b"), Some("a.b".to_string()));
    assert_eq!(index.resolve_known_module("a.c"), None);
}

#[test]
fn unresolved_project_import_gives_a_warning() {
    let files = present(&["pkg.py", "tests/test_x.py"]);
    let entries = vec![
        parsed("pkg.py", vec![]),
        parsed("tests/test_x.py", vec![plain_import("tests.helpers"), plain_import("requests")]),
    ];
    let index = ProjectIndex::build(ROOT, entries, &files);
    let mut said = Vec::new();
    let result = index.impacted_tests(&vec![abs("pkg.py")], &files, None, None, false, false, &mut said);
    assert!(result.unwrap().is_empty());
    assert_eq!(
        said,
        vec!["Warning: Unresolved import `tests.helpers` in module `tests.test_x`".to_string()]
    );
}

#[test]
fn quiet_keeps_diagnostics_back() {
    let files = present(&["pkg.py", "tests/test_x.py"]);
    let entries = vec![
        parsed("pkg.py", vec![]),
        parsed("tests/test_x.py", vec![plain_import("tests.helpers")]),
    ];
    let index = ProjectIndex::build(ROOT, entries, &files);
    let mut said = vec!["earlier".to_string()];
    let changed = vec![abs("gone.py")];
    index.impacted_tests(&changed, &files, None, None, true, false, &mut said).unwrap();
    assert_eq!(said, vec!["earlier".to_string()]);
    index.impacted_tests(&changed, &files, None, None, false, false, &mut said).unwrap();
    assert_eq!(
        said,
        vec![
            "earlier".to_string(),
            "Warning: Unresolved import `tests.helpers` in module `tests.test_x`".to_string(),
            format!("Warning: changed file not indexed (using module `gone`): {}", abs("gone.py")),
        ]
    );
}

#[test]
fn warnings_as_errors_reports_count_and_first() {
    let files = present(&["pkg.py", "tests/test_x.py"]);
    let entries = vec![
        Scanned::Unreadable { path: abs("broken.py") },
        parsed("pkg.py", vec![]),
        parsed("tests/test_x.py", vec![plain_import("tests.helpers")]),
    ];
    let index = ProjectIndex::build(ROOT, entries, &files);
    let mut said = Vec::new();
    let result = index.impacted_tests(&vec![abs("pkg.py")], &files, None, None, true, true, &mut said);
    let error = result.unwrap_err();
    assert_eq!(
        error.message(),
        format!(
            "Warnings treated as errors (2 warnings). First: {}: Failed to read {}",
            abs("broken.py"),
            abs("broken.py")
        )
    );
    let EscalatedWarnings { count, first } = error;
    assert_eq!(count, 2);
    assert_eq!(first, format!("{}: Failed to read {}", abs("broken.py"), abs("broken.py")));
}

#[test]
fn warnings_as_errors_passes_without_warnings() {
    let (index, files) = service_project();
    let mut said = Vec::new();
    let result = index.impacted_tests(&vec![abs("pkg/core.py")], &files, None, None, true, true, &mut said);
    assert_eq!(names(&result.unwrap()), vec!["tests/test_service.py"]);
}

#[test]
fn scan_failures_become_warnings() {
    let files = present(&["ok.py"]);
    let entries = vec![
        Scanned::WalkFailed { message: "permission denied".to_string() },
        Scanned::Unparsable { path: abs("bad.py"), message: "unexpected token".to_string() },
        Scanned::Unreadable { path: abs("notes.txt") },
        Scanned::Unparsable { path: abs("notes.md"), message: "x".to_string() },
        parsed("data.json", vec![]),
        parsed("ok.py", vec![]),
    ];
    let index = ProjectIndex::build(ROOT, entries, &files);
    assert_eq!(
        index.warnings,
        vec![
            "Skipping entry: permission denied".to_string(),
            format!("Failed to parse {}: unexpected token", abs("bad.py")),
        ]
    );
    assert_eq!(index.modules.len(), 1);
    assert_eq!(index.modules[0].module, "ok");
    assert_eq!(index.path_to_module, vec![(abs("ok.py"), "ok".to_string())]);
    assert_eq!(index.root, ROOT);
}

#[test]
fn last_file_of_an_identity_wins() {
    let files = present(&["a/__init__.py", "a/m.py", "b/a/__init__.py", "b/a/m.py"]);
    let entries = vec![
        parsed("a/__init__.py", vec![]),
        parsed("a/m.py", vec![plain_import("first")]),
        parsed("b/a/__init__.py", vec![]),
        parsed("b/a/m.py", vec![plain_import("second")]),
    ];
    let index = ProjectIndex::build(ROOT, entries, &files);
    assert_eq!(index.modules.len(), 2);
    let at = index.find_module("a.m").unwrap();
    assert_eq!(index.modules[at].path, abs("b/a/m.py"));
    assert_eq!(index.modules[at].imports, vec!["second".to_string()]);
    assert_eq!(index.path_to_module.len(), 4);
    assert!(index.find_path(&abs("a/m.py")).is_some());
}

#[test]
fn index_records_resolved_imports() {
    let files = present(&["pkg/__init__.py", "pkg/sub/__init__.py", "pkg/sub/mod.py"]);
    let relative = ImportSpec {
        level: 1,
        module: None,
        name: Some("x".to_string()),
        kind: ImportKind::ImportFrom,
    };
    let wildcard = ImportSpec {
        level: 3,
        module: None,
        name: Some("*".to_string()),
        kind: ImportKind::ImportFrom,
    };
    let entries = vec![
        parsed("pkg/__init__.py", vec![relative.clone()]),
        parsed("pkg/sub/__init__.py", vec![]),
        parsed("pkg/sub/mod.py", vec![relative, wildcard, plain_import("os")]),
    ];
    let index = ProjectIndex::build(ROOT, entries, &files);
    let package = index.find_module("pkg").unwrap();
    assert_eq!(index.modules[package].imports, vec!["pkg.x".to_string()]);
    let module = index.find_module("pkg.sub.mod").unwrap();
    assert_eq!(index.modules[module].imports, vec!["pkg.sub.x".to_string(), "os".to_string()]);
}

#[test]
fn unknown_changed_file_impacts_nothing() {
    let (index, files) = service_project();
    let impacted = run(&index, &vec![abs("elsewhere/unknown.py")], &files, None, None);
    assert!(impacted.is_empty());
    let impacted = run(&index, &vec![abs("README.md")], &files, None, None);
    assert!(impacted.is_empty());
}

#[test]
fn stray_seed_leaf_still_counts_for_ranking() {
    let files = present(&["tests/test_widget.py", "tests/test_other.py", "base.py"]);
    let entries = vec![
        parsed("tests/test_widget.py", vec![plain_import("base")]),
        parsed("tests/test_other.py", vec![plain_import("base")]),
        parsed("base.py", vec![]),
    ];
    let index = ProjectIndex::build(ROOT, entries, &files);
    let changed = vec![abs("base.py"), abs("gone/widget.py")];
    let impacted = run(&index, &changed, &files, None, None);
    assert_eq!(names(&impacted), vec!["tests/test_widget.py", "tests/test_other.py"]);
    assert_eq!(impacted[0].priority.filename_match, 0);
    assert_eq!(impacted[1].priority.filename_match, 1);
}

#[test]
fn changed_path_is_matched_by_its_components() {
    let (index, files) = service_project();
    let changed = vec![format!("{}//pkg/./core.py", ROOT)];
    let impacted = run(&index, &changed, &files, None, None);
    assert_eq!(names(&impacted), vec!["tests/test_service.py"]);
}

#[test]
fn test_outside_root_is_reported_by_its_whole_path() {
    let files = vec![abs("core.py"), "/elsewhere/test_core.py".to_string()];
    let entries = vec![
        parsed("core.py", vec![]),
        Scanned::Parsed { path: "/elsewhere/test_core.py".to_string(), imports: vec![plain_import("core")] },
    ];
    let index = ProjectIndex::build(ROOT, entries, &files);
    let impacted = run(&index, &vec![abs("core.py")], &files, None, None);
    assert_eq!(names(&impacted), vec!["/elsewhere/test_core.py"]);
}

#[test]
fn ill_formed_index_is_turned_away() {
    let (index, files) = service_project();
    let changed = vec![abs("pkg/core.py")];
    let mut said = Vec::new();
    let outcome = index.try_impacted_tests(&changed, &files, None, None, false, false, &mut said);
    assert_eq!(names(&outcome.unwrap().unwrap()), vec!["tests/test_service.py"]);

    let mut twice = ProjectIndex::build(ROOT, vec![parsed("a.py", vec![])], &files);
    assert!(twice.is_well_formed());
    twice.path_to_module.push((abs("b.py"), "missing".to_string()));
    assert!(!twice.is_well_formed());
    let mut said = vec!["kept".to_string()];
    let outcome = twice.try_impacted_tests(&changed, &files, None, None, false, true, &mut said);
    assert!(outcome.is_none());
    assert_eq!(said, vec!["kept".to_string()]);

    let mut doubled = ProjectIndex::build(ROOT, vec![parsed("a.py", vec![])], &files);
    doubled.path_to_module.push((format!("{}//a.py", ROOT), "a".to_string()));
    assert!(!doubled.is_well_formed());
    assert!(doubled.has_distinct_modules());
    assert!(!doubled.has_distinct_paths());
}
