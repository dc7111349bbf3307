//! The order in which impacted tests are reported.

use crate::priority::{priority_le, Priority};
use crate::text::{
    lemma_text_le_antisymmetric, lemma_text_le_reflexive, lemma_text_le_total,
    lemma_text_le_transitive, str_eq, str_le, text_le,
};
use vstd::prelude::*;
use vstd::relations::{sorted_by, total_ordering};

verus! {

/// One impacted test file.
#[derive(Debug)]
pub struct TestResult {
    /// The path of the file, relative to the project root where it lies below it.
    pub path: String,
    /// Its rank among the impacted tests.
    pub priority: Priority,
    /// Number of import steps between the test and a changed module.
    pub distance: usize,
}

/// An impacted test as plain values.
pub struct TestView {
    pub path: Seq<char>,
    pub priority: Priority,
    pub distance: usize,
}

impl View for TestResult {
    type V = TestView;

    open spec fn view(&self) -> TestView {
        TestView { path: self.path@, priority: self.priority, distance: self.distance }
    }
}

/// The records of a list of tests.
pub open spec fn test_views(tests: Seq<TestResult>) -> Seq<TestView> {
    Seq::new(tests.len(), |i: int| tests[i]@)
}

/// `a` is reported before `b`, or is the same record: the better file-name match first;
/// between equal matches the shorter distance; between equal ranks the path that comes
/// first in dictionary order. (Records that agree in all of these are told apart by
/// their distance field, which for the records of one analysis is the distance of the
/// rank.)
pub open spec fn test_le(a: TestView, b: TestView) -> bool {
    if a.priority != b.priority {
        priority_le(a.priority, b.priority)
    } else if a.path != b.path {
        text_le(a.path, b.path)
    } else {
        a.distance <= b.distance
    }
}

/// The order of the report, as a relation.
pub open spec fn test_order() -> spec_fn(TestView, TestView) -> bool {
    |a: TestView, b: TestView| test_le(a, b)
}

/// The records in the order of the report.
pub open spec fn ranked(found: Seq<TestView>) -> Seq<TestView> {
    found.sort_by(test_order())
}

/// The first `max` of the items, or all of them where there is no bound or there are
/// fewer.
pub open spec fn cut<T>(items: Seq<T>, max: Option<usize>) -> Seq<T> {
    match max {
        Some(m) => if m < items.len() {
            items.take(m as int)
        } else {
            items
        },
        None => items,
    }
}

/// The order of the report is a total order: any two records are comparable, and two
/// records each reported before the other are one record.
pub proof fn lemma_test_order_total()
    ensures
        total_ordering(test_order()),
{
    let r = test_order();
    assert forall|x: TestView| #[trigger] r(x, x) by {
        lemma_text_le_reflexive(x.path);
    }
    assert forall|x: TestView, y: TestView| #[trigger] r(x, y) && #[trigger] r(y, x) implies x
        == y by {
        if x.path != y.path && x.priority == y.priority {
            lemma_text_le_antisymmetric(x.path, y.path);
        }
    }
    assert forall|x: TestView, y: TestView, z: TestView| #[trigger]
        r(x, y) && #[trigger] r(y, z) implies r(x, z) by {
        if x.priority == y.priority && y.priority == z.priority {
            if x.path != y.path && y.path != z.path {
                lemma_text_le_transitive(x.path, y.path, z.path);
                if x.path == z.path {
                    lemma_text_le_antisymmetric(x.path, y.path);
                }
            }
        }
    }
    assert forall|x: TestView, y: TestView| #[trigger] r(x, y) || #[trigger] r(y, x) by {
        lemma_text_le_total(x.path, y.path);
    }
}

/// In the report no record comes before one that ranks before it: of two records that
/// are not one, the one reported first is the one that the order puts first.
pub proof fn lemma_ranked_in_order(found: Seq<TestView>, i: int, j: int)
    requires
        0 <= i < j < ranked(found).len(),
    ensures
        test_le(ranked(found)[i], ranked(found)[j]),
{
    lemma_test_order_total();
    found.lemma_sort_by_ensures(test_order());
    let r = test_order();
    assert(r(ranked(found)[i], ranked(found)[j]));
}

/// A record whose file name matches better is reported before every record whose file
/// name matches worse, whatever their distances and paths.
pub proof fn lemma_better_match_first(found: Seq<TestView>, i: int, j: int)
    requires
        0 <= i < ranked(found).len(),
        0 <= j < ranked(found).len(),
        ranked(found)[i].priority.filename_match < ranked(found)[j].priority.filename_match,
    ensures
        i < j,
{
    if j < i {
        lemma_ranked_in_order(found, j, i);
    }
}

/// Between records of equal rank the path decides: the one whose path comes first in
/// dictionary order is reported first.
pub proof fn lemma_equal_rank_by_path(found: Seq<TestView>, i: int, j: int)
    requires
        0 <= i < j < ranked(found).len(),
        ranked(found)[i].priority == ranked(found)[j].priority,
    ensures
        text_le(ranked(found)[i].path, ranked(found)[j].path),
{
    lemma_ranked_in_order(found, i, j);
    lemma_text_le_reflexive(ranked(found)[i].path);
}

/// The report does not depend on the order in which the records were found.
pub proof fn lemma_rank_ignores_order(a: Seq<TestView>, b: Seq<TestView>)
    requires
        a.to_multiset() == b.to_multiset(),
    ensures
        ranked(a) == ranked(b),
{
    lemma_test_order_total();
    a.lemma_sort_by_ensures(test_order());
    b.lemma_sort_by_ensures(test_order());
    vstd::seq_lib::lemma_sorted_unique(ranked(a), ranked(b), test_order());
}

/// Every record of the report is one of the records found.
pub proof fn lemma_cut_ranked_found(found: Seq<TestView>, max: Option<usize>, i: int)
    requires
        0 <= i < cut(ranked(found), max).len(),
    ensures
        found.contains(cut(ranked(found), max)[i]),
{
    lemma_test_order_total();
    found.lemma_sort_by_ensures(test_order());
    let all = ranked(found);
    assert(cut(all, max)[i] == all[i]);
    assert(all.contains(all[i]));
}

/// Inserting a test into a list inserts its record into the records.
pub proof fn lemma_test_views_insert(tests: Seq<TestResult>, i: int, item: TestResult)
    requires
        0 <= i <= tests.len(),
    ensures
        test_views(tests.insert(i, item)) == test_views(tests).insert(i, item@),
{
    assert(test_views(tests.insert(i, item)) =~= test_views(tests).insert(i, item@));
}

/// Whether `a` is reported before `b`, or is the same record.
pub fn test_precedes(a: &TestResult, b: &TestResult) -> (le: bool)
    ensures
        le == test_le(a@, b@),
{
    if a.priority.filename_match != b.priority.filename_match {
        a.priority.filename_match < b.priority.filename_match
    } else if a.priority.distance != b.priority.distance {
        a.priority.distance < b.priority.distance
    } else if !str_eq(a.path.as_str(), b.path.as_str()) {
        str_le(a.path.as_str(), b.path.as_str())
    } else {
        a.distance <= b.distance
    }
}

/// Puts `item` into a list that is in the order of the report, at its place in that
/// order.
pub fn insert_ranked(tests: &mut Vec<TestResult>, item: TestResult)
    requires
        sorted_by(test_views(old(tests)@), test_order()),
    ensures
        sorted_by(test_views(final(tests)@), test_order()),
        test_views(final(tests)@).to_multiset() == test_views(old(tests)@).to_multiset().insert(
            item@,
        ),
{
    let ghost before = test_views(tests@);
    let ghost r = test_order();
    let mut i: usize = 0;
    while i < tests.len() && test_precedes(&tests[i], &item)
        invariant
            i <= tests.len(),
            before == test_views(tests@),
            forall|k: int| 0 <= k < i ==> test_le(#[trigger] before[k], item@),
        decreases tests.len() - i,
    {
        i += 1;
    }
    proof {
        lemma_test_order_total();
        lemma_test_views_insert(tests@, i as int, item);
        vstd::seq_lib::to_multiset_insert(before, i as int, item@);
        let after = before.insert(i as int, item@);
        assert forall|x: int, y: int| 0 <= x < y < after.len() implies #[trigger] r(
            after[x],
            after[y],
        ) by {
            if y < i {
                assert(r(before[x], before[y]));
            } else if y == i {
                assert(test_le(before[x], item@));
            } else if x == i {
                assert(!test_le(before[i as int], item@));
                assert(r(before[i as int], item@) || r(item@, before[i as int]));
                if y - 1 > i {
                    assert(r(before[i as int], before[y - 1]));
                    assert(r(item@, before[i as int]) && r(before[i as int], before[y - 1]));
                }
            } else if x < i {
                assert(r(before[x], before[y - 1]));
            } else {
                assert(r(before[x - 1], before[y - 1]));
            }
        }
    }
    tests.insert(i, item);
}

} // verus!
