//! How closely the name of a test file matches the modules that a change touches.

use crate::paths::path_file_name;
use crate::project::utils::file_name_or_empty;
use crate::text::{chars_have_infix, chars_have_prefix, chars_of, has_infix, has_prefix, texts};
use vstd::prelude::*;

verus! {

/// The rank of an impacted test: smaller is better, the match of the file name first, the
/// distance second.
#[derive(Clone, Copy, Eq, PartialEq, Ord, PartialOrd, Debug, Structural)]
pub struct Priority {
    /// 0 where the file name names a changed leaf, 1 where it merely contains one, else 2.
    pub filename_match: u8,
    /// Number of import steps between the test and a changed module.
    pub distance: usize,
}

/// The file name names the leaf: it starts with `test_` and the leaf, or contains the
/// leaf after an underscore.
pub open spec fn names_leaf(filename: Seq<char>, leaf: Seq<char>) -> bool {
    has_prefix(filename, "test_"@ + leaf) || has_infix(filename, "_"@ + leaf)
}

/// The file name names one of the leaves.
pub open spec fn names_any(filename: Seq<char>, leaves: Seq<Seq<char>>) -> bool {
    exists|i: int| 0 <= i < leaves.len() && names_leaf(filename, #[trigger] leaves[i])
}

/// The file name contains one of the leaves.
pub open spec fn mentions_any(filename: Seq<char>, leaves: Seq<Seq<char>>) -> bool {
    exists|i: int| 0 <= i < leaves.len() && has_infix(filename, #[trigger] leaves[i])
}

/// How well the file name matches the leaves: 0 where it names one, 1 where it contains
/// one, 2 otherwise.
pub open spec fn filename_match_of(filename: Seq<char>, leaves: Seq<Seq<char>>) -> u8 {
    if names_any(filename, leaves) {
        0
    } else if mentions_any(filename, leaves) {
        1
    } else {
        2
    }
}

/// The rank of the test file at `path`, at `distance` from a change that touches modules
/// with the leaves `leaves`.
pub open spec fn priority_of(path: Seq<char>, distance: usize, leaves: Seq<Seq<char>>) -> Priority {
    Priority { filename_match: filename_match_of(file_name_or_empty(path), leaves), distance }
}

/// `a` ranks before `b`, or level with it.
pub open spec fn priority_le(a: Priority, b: Priority) -> bool {
    a.filename_match < b.filename_match || (a.filename_match == b.filename_match && a.distance
        <= b.distance)
}

/// The match depends on which leaves there are, not on their order or number: two lists
/// with the same leaves give the same match.
pub proof fn lemma_match_by_leaf_set(filename: Seq<char>, first: Seq<Seq<char>>, second: Seq<Seq<char>>)
    requires
        forall|leaf: Seq<char>| first.contains(leaf) <==> second.contains(leaf),
    ensures
        filename_match_of(filename, first) == filename_match_of(filename, second),
{
    lemma_match_covers(filename, first, second);
    lemma_match_covers(filename, second, first);
}

/// Leaves that are all among other leaves match no better than those.
pub proof fn lemma_match_covers(filename: Seq<char>, few: Seq<Seq<char>>, many: Seq<Seq<char>>)
    requires
        forall|leaf: Seq<char>| few.contains(leaf) ==> many.contains(leaf),
    ensures
        names_any(filename, few) ==> names_any(filename, many),
        mentions_any(filename, few) ==> mentions_any(filename, many),
        filename_match_of(filename, many) <= filename_match_of(filename, few),
{
    if names_any(filename, few) {
        let i = choose|i: int| 0 <= i < few.len() && names_leaf(filename, #[trigger] few[i]);
        assert(few.contains(few[i]));
        let j = choose|j: int| 0 <= j < many.len() && many[j] == few[i];
        assert(names_leaf(filename, many[j]));
    }
    if mentions_any(filename, few) {
        let i = choose|i: int| 0 <= i < few.len() && has_infix(filename, #[trigger] few[i]);
        assert(few.contains(few[i]));
        let j = choose|j: int| 0 <= j < many.len() && many[j] == few[i];
        assert(has_infix(filename, many[j]));
    }
}

/// How well the file name matches the leaves.
pub fn filename_match(filename: &str, leaves: &Vec<String>) -> (rank: u8)
    ensures
        rank == filename_match_of(filename@, texts(leaves@)),
{
    let name = chars_of(filename);
    let ghost all = texts(leaves@);
    let mut rank: u8 = 2;
    let mut i: usize = 0;
    while i < leaves.len()
        invariant
            i <= leaves.len(),
            all == texts(leaves@),
            name@ == filename@,
            !names_any(name@, all.take(i as int)),
            rank == if mentions_any(name@, all.take(i as int)) {
                1u8
            } else {
                2u8
            },
        decreases leaves.len() - i,
    {
        let leaf = chars_of(leaves[i].as_str());
        let mut test_leaf = chars_of("test_");
        let mut tail = leaf.clone();
        test_leaf.append(&mut tail);
        let mut under_leaf = chars_of("_");
        let mut tail = leaf.clone();
        under_leaf.append(&mut tail);
        assert(leaf@ == all[i as int]);
        if chars_have_prefix(&name, &test_leaf) || chars_have_infix(&name, &under_leaf) {
            assert(names_leaf(name@, all[i as int]));
            return 0;
        }
        proof {
            let before = all.take(i as int);
            let after = all.take(i + 1);
            assert forall|k: int| 0 <= k < after.len() implies !names_leaf(
                name@,
                #[trigger] after[k],
            ) by {
                if k < i {
                    assert(before[k] == after[k]);
                }
            }
            if mentions_any(name@, before) {
                let k = choose|k: int| 0 <= k < before.len() && has_infix(name@, #[trigger] before[k]);
                assert(after[k] == before[k]);
            }
            if has_infix(name@, leaf@) {
                assert(after[i as int] == leaf@);
            }
            if mentions_any(name@, after) {
                let k = choose|k: int| 0 <= k < after.len() && has_infix(name@, #[trigger] after[k]);
                if k < i {
                    assert(before[k] == after[k]);
                }
            }
        }
        if chars_have_infix(&name, &leaf) {
            rank = 1;
        }
        i += 1;
    }
    assert(all.take(leaves.len() as int) =~= all);
    rank
}

/// The rank of the test file at `path`, at `distance` from a change that touches modules
/// with the leaves `changed_leaves`.
pub fn priority(path: &str, distance: usize, changed_leaves: &Vec<String>) -> (rank: Priority)
    ensures
        rank == priority_of(path@, distance, texts(changed_leaves@)),
{
    let filename = match path_file_name(path) {
        Some(name) => name,
        None => String::new(),
    };
    Priority { filename_match: filename_match(filename.as_str(), changed_leaves), distance }
}

} // verus!
