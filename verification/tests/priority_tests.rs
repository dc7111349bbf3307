use testdiff::priority::{filename_match, priority, Priority};

fn leaves(names: &[&str]) -> Vec<String> {
    names.iter().map(|s| s.to_string()).collect()
}

#[test]
fn prioritizes_prefix_match_best() {
    let p = priority("tests/test_foo.py", 0, &leaves(&["foo"]));
    assert_eq!(p.filename_match, 0);
    assert_eq!(p.distance, 0);
}

#[test]
fn partial_contains_is_secondary() {
    let p = priority("tests/integration_bar_test.py", 2, &leaves(&["bar"]));
    assert_eq!(p.filename_match, 0);
    assert_eq!(p.distance, 2);
}

#[test]
fn unrelated_files_get_low_priority() {
    let p = priority("tests/other.py", 5, &leaves(&["foo"]));
    assert_eq!(p.filename_match, 2);
    assert_eq!(p.distance, 5);
}

#[test]
fn bare_substring_is_middle_rank() {
    let p = priority("tests/checkfoo.py", 3, &leaves(&["foo"]));
    assert_eq!(p, Priority { filename_match: 1, distance: 3 });
}

#[test]
fn later_leaf_can_still_give_best_rank() {
    let p = priority("tests/test_bar.py", 1, &leaves(&["ba", "bar"]));
    assert_eq!(p.filename_match, 0);
    let q = priority("tests/test_bar.py", 1, &leaves(&["bar", "ba"]));
    assert_eq!(q.filename_match, 0);
}

#[test]
fn order_of_leaves_does_not_matter() {
    let a = priority("tests/xfooy.py", 1, &leaves(&["zzz", "foo"]));
    let b = priority("tests/xfooy.py", 1, &leaves(&["foo", "zzz"]));
    assert_eq!(a, b);
    assert_eq!(a.filename_match, 1);
}

#[test]
fn no_leaves_give_worst_rank() {
    let p = priority("tests/test_foo.py", 7, &leaves(&[]));
    assert_eq!(p, Priority { filename_match: 2, distance: 7 });
}

#[test]
fn only_the_file_name_counts() {
    let p = priority("foo/test_bar.py", 0, &leaves(&["foo"]));
    assert_eq!(p.filename_match, 2);
}

#[test]
fn priorities_compare_match_first() {
    let near_poor = Priority { filename_match: 2, distance: 0 };
    let far_good = Priority { filename_match: 0, distance: 9 };
    assert!(far_good < near_poor);
    assert!(Priority { filename_match: 1, distance: 1 } < Priority { filename_match: 1, distance: 2 });
}

#[test]
fn filename_match_has_three_levels() {
    assert_eq!(filename_match("test_foo.py", &leaves(&["foo"])), 0);
    assert_eq!(filename_match("check_foo.py", &leaves(&["foo"])), 0);
    assert_eq!(filename_match("foo_check.py", &leaves(&["foo"])), 1);
    assert_eq!(filename_match("bar.py", &leaves(&["foo"])), 2);
    assert_eq!(filename_match("", &leaves(&["foo"])), 2);
    assert_eq!(filename_match("anything.py", &leaves(&[""])), 1);
    assert_eq!(filename_match("test_.py", &leaves(&[""])), 0);
    assert_eq!(filename_match("test_foo_extra.py", &leaves(&["foo"])), 0);
    assert_eq!(filename_match("test_bar.py", &leaves(&["foo"])), 2);
}
