use testdiff::cli::{
    choose_root, common_ancestor_dirs, common_prefix_len, filter_python_files, find_top, pick_dir,
    print_dry_run,
};
use testdiff::priority::Priority;
use testdiff::project::TestResult;

#[test]
fn filters_to_python_only() {
    let files = vec![
        "foo.py".to_string(),
        "bar.txt".to_string(),
        "scripts/test".to_string(),
        "nested/baz.py".to_string(),
    ];

    let filtered = filter_python_files(files);
    let strings: Vec<String> = filtered.into_iter().collect();

    assert_eq!(strings, vec!["foo.py", "nested/baz.py"]);
}

#[test]
fn common_ancestor_dirs_finds_shared_parent() {
    let a = "/tmp/a/b/c.py".to_string();
    let b = "/tmp/a/b/d.py".to_string();
    let ancestor = common_ancestor_dirs(&vec![a, b]).unwrap();
    assert_eq!(ancestor, "/tmp/a/b");
}

#[test]
fn common_ancestor_of_nothing_is_none() {
    assert_eq!(common_ancestor_dirs(&vec![]), None);
}

#[test]
fn common_ancestor_stops_at_first_difference() {
    let paths = vec![
        "/srv/app/pkg/one/a.py".to_string(),
        "/srv/app/pkg/two/b.py".to_string(),
        "/srv/app/c.py".to_string(),
    ];
    assert_eq!(common_ancestor_dirs(&paths), Some("/srv/app".to_string()));
}

#[test]
fn common_ancestor_of_unrelated_relative_paths_is_none() {
    let paths = vec!["a/x.py".to_string(), "b/y.py".to_string()];
    assert_eq!(common_ancestor_dirs(&paths), None);
}

#[test]
fn common_ancestor_of_one_path_is_its_directory() {
    let paths = vec!["/srv/app/c.py".to_string()];
    assert_eq!(common_ancestor_dirs(&paths), Some("/srv/app".to_string()));
}

fn strings(items: &[&str]) -> Vec<String> {
    items.iter().map(|s| s.to_string()).collect()
}

#[test]
fn choose_root_prefers_nearest_pyproject() {
    let cwd = "/tmp/work";
    let workspace = format!("{}/{}", cwd, "repo");
    let nested = format!("{}/{}/{}", workspace, "pkg", "module");
    let dirs = strings(&["/tmp", cwd, &workspace, &format!("{}/pkg", workspace), &nested]);
    let changed = format!("{}/{}", nested, "file.py");
    let present = vec![format!("{}/{}", workspace, "pyproject.toml"), changed.clone()];

    let root = choose_root(None, &vec![changed.clone()], &workspace, &dirs, &present);
    assert_eq!(root, workspace);
}

#[test]
fn explicit_root_wins() {
    let dirs = strings(&["/srv/app"]);
    let present = strings(&["/other/.git"]);
    let changed = strings(&["/other/x.py"]);
    assert_eq!(choose_root(Some("/srv/app".to_string()), &changed, "/cwd", &dirs, &present), "/srv/app");
    assert_eq!(
        choose_root(Some("/srv/app/setup.py".to_string()), &changed, "/cwd", &dirs, &present),
        "/srv/app"
    );
}

#[test]
fn nearest_top_over_all_changed_files_wins() {
    let dirs = strings(&[]);
    let present = strings(&["/a/.git", "/b/deep/pyproject.toml"]);
    let changed = strings(&["/a/x/y/z/f.py", "/b/deep/g.py", "/b/deep/h.py"]);
    assert_eq!(choose_root(None, &changed, "/cwd", &dirs, &present), "/b/deep");
    let tie = strings(&["/a/f.py", "/b/deep/g.py"]);
    assert_eq!(choose_root(None, &tie, "/cwd", &dirs, &present), "/a");
}

#[test]
fn without_project_top_the_common_directory_is_the_root() {
    let changed = strings(&["/srv/app/a/x.py", "/srv/app/b/y.py"]);
    assert_eq!(choose_root(None, &changed, "/cwd", &vec![], &vec![]), "/srv/app");
}

#[test]
fn working_directory_is_the_last_resort() {
    assert_eq!(choose_root(None, &vec![], "/cwd", &vec![], &vec![]), "/cwd");
    let changed = strings(&["/x.py", "/y.py"]);
    assert_eq!(choose_root(None, &changed, "/cwd", &vec![], &vec![]), "/cwd");
    assert_eq!(choose_root(Some("/".to_string()), &vec![], "/cwd", &strings(&["/"]), &vec![]), "/cwd");
}

#[test]
fn find_top_counts_steps_up() {
    let present = strings(&["/a/.git"]);
    assert_eq!(find_top("/a/b/c", &present), Some((2, "/a".to_string())));
    assert_eq!(find_top("/a", &present), Some((0, "/a".to_string())));
    assert_eq!(find_top("/z/b", &present), None);
    assert_eq!(pick_dir("/a/b", &strings(&["/a/b"])), "/a/b");
    assert_eq!(pick_dir("/a/b", &strings(&["/a"])), "/a");
    assert_eq!(pick_dir("/", &vec![]), "/");
}

#[test]
fn dry_run_lists_root_changes_and_tests() {
    let impacted = vec![
        TestResult {
            path: "tests/test_a.py".to_string(),
            priority: Priority { filename_match: 0, distance: 1 },
            distance: 1,
        },
        TestResult {
            path: "tests/test_b.py".to_string(),
            priority: Priority { filename_match: 2, distance: 12 },
            distance: 12,
        },
    ];
    let lines = print_dry_run("/repo", &strings(&["/repo/a.py"]), &impacted);
    assert_eq!(
        lines,
        strings(&[
            "Root: /repo",
            "Changed files (1):",
            "  - /repo/a.py",
            "\nSelected tests (2):",
            "  - tests/test_a.py (distance=1, filename_match=0)",
            "  - tests/test_b.py (distance=12, filename_match=2)",
        ])
    );
    assert_eq!(
        print_dry_run("/r", &vec![], &vec![]),
        strings(&["Root: /r", "Changed files (0):", "\nSelected tests (0):"])
    );
}

#[test]
fn common_prefix_len_counts_shared_items() {
    let rows = vec![strings(&["/", "a", "b"]), strings(&["/", "a", "c"]), strings(&["/", "a"])];
    assert_eq!(common_prefix_len(&rows), 2);
    assert_eq!(common_prefix_len(&vec![strings(&["x", "y"])]), 2);
    assert_eq!(common_prefix_len(&vec![strings(&["x"]), strings(&["y"])]), 0);
    assert_eq!(common_prefix_len(&vec![strings(&["x"]), vec![]]), 0);
    assert_eq!(common_prefix_len(&vec![]), 0);
}
