use testdiff::project::lookup::dotted_to_path;
use testdiff::project::resolve::{
    dir_is_package, dotted_module_name, enclosing_packages, file_is_present, is_package_file,
    module_name, paths_equal, resolve_import, ImportKind, ImportSpec,
};

fn from_import(level: u32, module: Option<&str>, name: &str) -> ImportSpec {
    ImportSpec {
        level,
        module: module.map(|m| m.to_string()),
        name: Some(name.to_string()),
        kind: ImportKind::ImportFrom,
    }
}

fn plain_import(module: &str) -> ImportSpec {
    ImportSpec { level: 0, module: Some(module.to_string()), name: None, kind: ImportKind::Import }
}

fn strings(items: &[&str]) -> Vec<String> {
    items.iter().map(|s| s.to_string()).collect()
}

#[test]
fn relative_import_level_one_uses_enclosing_package() {
    let target = resolve_import("pkg.sub.mod", false, &from_import(1, None, "x"));
    assert_eq!(target, Some("pkg.sub.x".to_string()));
}

#[test]
fn relative_import_level_two_removes_two_components() {
    let target = resolve_import("pkg.sub.mod", false, &from_import(2, None, "x"));
    assert_eq!(target, Some("pkg.x".to_string()));
}

#[test]
fn package_marker_at_level_one_refers_to_itself() {
    let target = resolve_import("pkg.sub", true, &from_import(1, None, "x"));
    assert_eq!(target, Some("pkg.sub.x".to_string()));
}

#[test]
fn package_marker_at_level_two_removes_two_components() {
    let target = resolve_import("pkg.sub", true, &from_import(2, None, "x"));
    assert_eq!(target, Some("x".to_string()));
}

#[test]
fn level_beyond_depth_removes_everything() {
    let target = resolve_import("pkg.mod", false, &from_import(5, Some("other"), "x"));
    assert_eq!(target, Some("other.x".to_string()));
}

#[test]
fn relative_wildcard_of_top_module_is_unresolved() {
    let target = resolve_import("mod", false, &from_import(1, None, "*"));
    assert_eq!(target, None);
}

#[test]
fn wildcard_is_not_a_component() {
    let target = resolve_import("a.b", false, &from_import(0, Some("pkg.util"), "*"));
    assert_eq!(target, Some("pkg.util".to_string()));
}

#[test]
fn absolute_from_import_appends_name() {
    let target = resolve_import("tests.test_foo", false, &from_import(0, Some("pkg"), "foo"));
    assert_eq!(target, Some("pkg.foo".to_string()));
}

#[test]
fn plain_import_ignores_name() {
    let spec = ImportSpec {
        level: 0,
        module: Some("os.path".to_string()),
        name: Some("ignored".to_string()),
        kind: ImportKind::Import,
    };
    assert_eq!(resolve_import("m", false, &spec), Some("os.path".to_string()));
    assert_eq!(resolve_import("m", false, &plain_import("foo")), Some("foo".to_string()));
}

#[test]
fn empty_import_is_unresolved() {
    let spec = ImportSpec { level: 0, module: None, name: None, kind: ImportKind::Import };
    assert_eq!(resolve_import("m", false, &spec), None);
    let empty = ImportSpec {
        level: 0,
        module: Some(String::new()),
        name: None,
        kind: ImportKind::ImportFrom,
    };
    assert_eq!(resolve_import("m", false, &empty), None);
}

#[test]
fn relative_import_with_module_path() {
    let target = resolve_import("pkg.sub.mod", false, &from_import(1, Some("helpers.io"), "read"));
    assert_eq!(target, Some("pkg.sub.helpers.io.read".to_string()));
}

#[test]
fn module_name_uses_package_ancestry() {
    let present = strings(&["/proj/pkg/__init__.py", "/proj/pkg/sub/__init__.py"]);
    assert_eq!(module_name("/proj", "/proj/pkg/sub/mod.py", &present), "pkg.sub.mod");
    assert_eq!(module_name("/proj", "/proj/pkg/foo.py", &present), "pkg.foo");
}

#[test]
fn module_name_of_package_marker_is_the_package() {
    let present = strings(&["/proj/pkg/__init__.py", "/proj/pkg/sub/__init__.py"]);
    assert_eq!(module_name("/proj", "/proj/pkg/sub/__init__.py", &present), "pkg.sub");
    assert_eq!(module_name("/proj", "/proj/pkg/__init__.py", &present), "pkg");
}

#[test]
fn module_name_stops_at_first_unmarked_directory() {
    let present = strings(&["/proj/a/__init__.py", "/proj/a/b/c/__init__.py"]);
    assert_eq!(module_name("/proj", "/proj/a/b/c/m.py", &present), "c.m");
}

#[test]
fn module_name_falls_back_to_path_below_root() {
    let present = strings(&[]);
    assert_eq!(module_name("/proj", "/proj/tests/test_foo.py", &present), "tests.test_foo");
    assert_eq!(module_name("/proj", "/proj/foo.py", &present), "foo");
}

#[test]
fn module_name_outside_root_uses_whole_path() {
    let present = strings(&[]);
    assert_eq!(module_name("/proj", "/other/x.py", &present), "/.other.x");
}

#[test]
fn module_name_does_not_depend_on_unrelated_files() {
    let few = strings(&["/proj/pkg/__init__.py"]);
    let many = strings(&["/proj/zzz/__init__.py", "/proj/pkg/__init__.py", "/proj/pkg/other.py"]);
    assert_eq!(
        module_name("/proj", "/proj/pkg/foo.py", &few),
        module_name("/proj", "/proj/pkg/foo.py", &many)
    );
}

#[test]
fn enclosing_packages_are_outermost_first() {
    let present = strings(&["/p/a/__init__.py", "/p/a/b/__init__.py", "/p/a/b/c/__init__.py"]);
    assert_eq!(enclosing_packages("/p/a/b/c/m.py", &present), strings(&["a", "b", "c"]));
    assert_eq!(enclosing_packages("/p/x/m.py", &present), strings(&[]));
}

#[test]
fn presence_is_by_path_not_by_text() {
    let present = strings(&["/p/a//b.py", "/p/c/"]);
    assert!(file_is_present(&present, "/p/a/b.py"));
    assert!(file_is_present(&present, "/p/c"));
    assert!(!file_is_present(&present, "/p/a"));
    assert!(paths_equal("a//b", "a/b"));
    assert!(paths_equal("a/./b/", "a/b"));
    assert!(!paths_equal("a/b", "a/c"));
    assert!(!paths_equal("/a/b", "a/b"));
}

#[test]
fn package_directories_hold_a_marker() {
    let present = strings(&["/p/pkg/__init__.py"]);
    assert!(dir_is_package("/p/pkg", &present));
    assert!(!dir_is_package("/p", &present));
    assert!(is_package_file("/p/pkg/__init__.py"));
    assert!(!is_package_file("/p/pkg/init.py"));
}

#[test]
fn dotted_name_prefers_packages() {
    let parts = strings(&["tests", "test_foo.py"]);
    assert_eq!(
        dotted_module_name(strings(&["pkg", "sub"]), "mod".to_string(), parts.clone()),
        "pkg.sub.mod"
    );
    assert_eq!(
        dotted_module_name(strings(&["pkg", "sub"]), "__init__".to_string(), parts.clone()),
        "pkg.sub"
    );
    assert_eq!(dotted_module_name(vec![], "__init__".to_string(), parts.clone()), "");
    assert_eq!(dotted_module_name(vec![], "test_foo".to_string(), parts), "tests.test_foo");
    assert_eq!(dotted_module_name(vec![], "x".to_string(), strings(&["a", "b.txt"])), "a.b.txt");
    assert_eq!(dotted_module_name(vec![], "x".to_string(), strings(&[".py"])), "");
    assert_eq!(dotted_module_name(vec![], "x".to_string(), vec![]), "");
}

#[test]
fn dotted_names_become_paths() {
    assert_eq!(dotted_to_path("a.b.c"), "a/b/c");
    assert_eq!(dotted_to_path("abc"), "abc");
    assert_eq!(dotted_to_path(""), "");
    assert_eq!(dotted_to_path("..x"), "//x");
}
