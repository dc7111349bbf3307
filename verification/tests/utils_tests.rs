use testdiff::project::utils::{
    filter_dir, is_python_file, is_skipped_dir, is_test_file, is_test_file_name,
};

#[test]
fn suffix_names_a_test_file() {
    assert!(is_test_file("pkg/widget_test.py"));
    assert!(!is_test_file("pkg/widget_test.txt"));
    assert!(!is_test_file("test_dir/widget.py"));
    assert!(!is_test_file("/"));
}

#[test]
fn skipped_directories_are_not_entered() {
    for name in [".git", "target", ".tox", ".venv", "venv", "__pycache__", "node_modules"] {
        assert!(!filter_dir(&format!("/repo/{}", name)), "{}", name);
    }
    assert!(filter_dir("/repo/src"));
    assert!(filter_dir("/repo/targets"));
    assert!(filter_dir("/"));
    assert!(filter_dir("/repo/venv/lib"));
}

#[test]
fn python_files_have_the_py_extension() {
    assert!(is_python_file("a/b/c.py"));
    assert!(!is_python_file("a/b/c.pyc"));
    assert!(!is_python_file("a/b/py"));
    assert!(!is_python_file("a/b/.py"));
    assert!(!is_python_file("a.py/b"));
}

#[test]
fn test_names_start_with_test_or_end_with_test_py() {
    assert!(is_test_file_name("test_real.py"));
    assert!(is_test_file_name("test_"));
    assert!(is_test_file_name("widget_test.py"));
    assert!(is_test_file_name("_test.py"));
    assert!(!is_test_file_name("conftest.py"));
    assert!(!is_test_file_name("tests.py"));
    assert!(!is_test_file_name("Test_real.py"));
    assert!(!is_test_file_name(""));
}

#[test]
fn skipped_names_are_exact() {
    assert!(is_skipped_dir("node_modules"));
    assert!(is_skipped_dir(".git"));
    assert!(!is_skipped_dir("git"));
    assert!(!is_skipped_dir(".gitignore"));
    assert!(!is_skipped_dir(""));
}
