use testdiff::cli::SelectArgs;
use testdiff::git::{gather_git_changed, insert_path, run_git_name_only, split_lines, GitStep};

fn args() -> SelectArgs {
    SelectArgs {
        changed: vec![],
        git_diff: None,
        git_staged: false,
        git_merge_base: None,
        git_worktree: false,
        root: None,
        max: None,
        distance_limit: None,
        dry_run: false,
        warn_as_error: false,
        quiet: false,
    }
}

fn strings(items: &[&str]) -> Vec<String> {
    items.iter().map(|s| s.to_string()).collect()
}

fn run(step: GitStep) -> Vec<String> {
    match step {
        GitStep::Run(command) => command,
        GitStep::Done(paths) => panic!("expected a command, got {:?}", paths),
    }
}

fn done(step: GitStep) -> Vec<String> {
    match step {
        GitStep::Done(paths) => paths,
        GitStep::Run(command) => panic!("expected the paths, got {:?}", command),
    }
}

#[test]
fn no_git_options_ask_nothing() {
    assert_eq!(done(gather_git_changed(&args(), "/repo", &vec![])), strings(&[]));
}

#[test]
fn staged_changes_are_listed() {
    let a = SelectArgs { git_staged: true, ..args() };
    assert_eq!(
        run(gather_git_changed(&a, "/repo", &vec![])),
        strings(&["diff", "--name-only", "--cached"])
    );
    let outputs = strings(&["b.py\na/x.py\n\nb.py\n"]);
    assert_eq!(
        done(gather_git_changed(&a, "/repo", &outputs)),
        strings(&["/repo/a/x.py", "/repo/b.py"])
    );
}

#[test]
fn worktree_follows_staged() {
    let a = SelectArgs { git_staged: true, git_worktree: true, ..args() };
    assert_eq!(
        run(gather_git_changed(&a, "/repo", &strings(&["one.py\n"]))),
        strings(&["diff", "--name-only", "HEAD"])
    );
    let outputs = strings(&["one.py\n", "/abs/two.py\r\none.py"]);
    assert_eq!(
        done(gather_git_changed(&a, "/repo", &outputs)),
        strings(&["/abs/two.py", "/repo/one.py"])
    );
}

#[test]
fn diff_against_a_revision() {
    let a = SelectArgs { git_diff: Some("origin/main".to_string()), ..args() };
    assert_eq!(
        run(gather_git_changed(&a, "/repo", &vec![])),
        strings(&["diff", "--name-only", "origin/main..HEAD"])
    );
    assert_eq!(
        done(gather_git_changed(&a, "/repo", &strings(&["x.py\n"]))),
        strings(&["/repo/x.py"])
    );
}

#[test]
fn merge_base_is_asked_first_and_its_answer_used() {
    let a = SelectArgs { git_merge_base: Some("main".to_string()), ..args() };
    assert_eq!(
        run(gather_git_changed(&a, "/repo", &vec![])),
        strings(&["merge-base", "main", "HEAD"])
    );
    let sha = strings(&["abc123\n"]);
    assert_eq!(
        run(gather_git_changed(&a, "/repo", &sha)),
        strings(&["diff", "--name-only", "abc123..HEAD"])
    );
    let outputs = strings(&["abc123\n", "pkg/m.py\n"]);
    assert_eq!(done(gather_git_changed(&a, "/repo", &outputs)), strings(&["/repo/pkg/m.py"]));
}

#[test]
fn merge_base_is_taken_with_the_diff_revision() {
    let a = SelectArgs {
        git_diff: Some("feature".to_string()),
        git_merge_base: Some("main".to_string()),
        git_staged: true,
        ..args()
    };
    assert_eq!(
        run(gather_git_changed(&a, "/repo", &strings(&["s.py"]))),
        strings(&["merge-base", "feature", "HEAD"])
    );
    assert_eq!(
        run(gather_git_changed(&a, "/repo", &strings(&["s.py", " f00d \n"]))),
        strings(&["diff", "--name-only", "f00d..HEAD"])
    );
    let outputs = strings(&["s.py", "f00d\n", "d.py\n"]);
    assert_eq!(
        done(gather_git_changed(&a, "/repo", &outputs)),
        strings(&["/repo/d.py", "/repo/s.py"])
    );
}

#[test]
fn paths_are_unique_by_components() {
    let a = SelectArgs { git_staged: true, ..args() };
    let outputs = strings(&["a//b.py\na/b.py\nz.py\na/./b.py\n"]);
    assert_eq!(
        done(gather_git_changed(&a, "/repo", &outputs)),
        strings(&["/repo/a//b.py", "/repo/z.py"])
    );
}

#[test]
fn name_only_output_drops_blank_lines() {
    assert_eq!(run_git_name_only("a.py\n\n  \nb c.py\r\n"), strings(&["a.py", "b c.py"]));
    assert_eq!(run_git_name_only(""), strings(&[]));
    assert_eq!(run_git_name_only(" x.py "), strings(&[" x.py "]));
}

#[test]
fn lines_agree_with_std() {
    for text in ["", "\n", "a", "a\n", "a\nb", "a\r\nb\r\n", "a\r", "\r\n\r\n", "a\n\nb\n\n", "a\r\r\n"] {
        let expected: Vec<String> = text.lines().map(|l| l.to_string()).collect();
        assert_eq!(split_lines(text), expected, "{:?}", text);
    }
}

#[test]
fn insert_keeps_paths_in_order() {
    let mut sorted = Vec::new();
    for path in ["/b", "/a/c", "/a", "/b", "/a//c", "/a/b"] {
        insert_path(&mut sorted, path.to_string());
    }
    assert_eq!(sorted, strings(&["/a", "/a/b", "/a/c", "/b"]));
}
