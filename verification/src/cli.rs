//! The options of the command line, and what is worked out from the changed files before
//! a project is looked at.

use crate::format::FormatArgs;
use crate::number::{decimal, decimal_of};
use crate::paths::{
    assembled, components_of, joined, opt_text, parent_of, path_components, path_from_parts,
    path_join, path_parent, same_path,
};
use crate::project::rank::{test_views, TestResult, TestView};
use crate::project::resolve::{file_is_present, is_present, paths_equal};
use crate::project::utils::{is_python_file, is_python_path};
use crate::text::{lemma_texts_push, lemma_texts_take, str_eq, texts};
use vstd::prelude::*;
use vstd::string::*;

verus! {

/// The options that select impacted tests.
#[derive(Debug)]
pub struct SelectArgs {
    /// Changed files, relative to the working directory or absolute.
    pub changed: Vec<String>,
    /// Compare against this revision to find the changed files.
    pub git_diff: Option<String>,
    /// Take the staged changes as the changed files.
    pub git_staged: bool,
    /// Compare against the merge base with this revision.
    pub git_merge_base: Option<String>,
    /// Take the changes of the working tree against the last commit.
    pub git_worktree: bool,
    /// The project root to scan.
    pub root: Option<String>,
    /// Report no more test files than this.
    pub max: Option<usize>,
    /// Follow imports no further than this from the changed modules.
    pub distance_limit: Option<usize>,
    /// Describe the selection instead of listing it.
    pub dry_run: bool,
    /// Let any warning fail the run.
    pub warn_as_error: bool,
    /// Keep warnings off the diagnostic stream.
    pub quiet: bool,
}

/// What the program is asked to do besides selecting tests.
#[derive(Debug)]
pub enum Command {
    /// Turn a test report into annotations.
    Format(FormatArgs),
}

/// The whole command line.
#[derive(Debug)]
pub struct Cli {
    pub command: Option<Command>,
    pub select: SelectArgs,
}

/// Those of the first `count` paths that have the source-file extension, in order.
pub open spec fn python_paths(inputs: Seq<Seq<char>>, count: nat) -> Seq<Seq<char>>
    decreases count,
{
    if count == 0 {
        Seq::empty()
    } else {
        let before = python_paths(inputs, (count - 1) as nat);
        if is_python_path(inputs[count - 1]) {
            before.push(inputs[count - 1])
        } else {
            before
        }
    }
}

/// The paths that have the source-file extension, in order: no other file can affect a
/// test.
pub fn filter_python_files(inputs: Vec<String>) -> (kept: Vec<String>)
    ensures
        texts(kept@) == python_paths(texts(inputs@), inputs@.len()),
{
    let ghost all = texts(inputs@);
    let mut kept: Vec<String> = Vec::new();
    assert(texts(kept@) =~= python_paths(all, 0));
    let mut i: usize = 0;
    while i < inputs.len()
        invariant
            i <= inputs.len(),
            all == texts(inputs@),
            texts(kept@) == python_paths(all, i as nat),
        decreases inputs.len() - i,
    {
        if is_python_file(inputs[i].as_str()) {
            let path = inputs[i].clone();
            proof {
                lemma_texts_push(kept@, path);
            }
            kept.push(path);
        }
        i += 1;
    }
    kept
}

/// The directory that a path lies in, or the path itself where it has no parent.
pub open spec fn dir_of(path: Seq<char>) -> Seq<char> {
    match parent_of(path) {
        Some(dir) => dir,
        None => path,
    }
}

/// The first `k` items of every row are those of the first row.
pub open spec fn rows_share(rows: Seq<Seq<Seq<char>>>, k: nat) -> bool {
    forall|i: int|
        0 <= i < rows.len() ==> k <= (#[trigger] rows[i]).len() && rows[i].take(k as int)
            == rows[0].take(k as int)
}

/// `k` is the number of leading items that all the rows share.
pub open spec fn is_shared_length(rows: Seq<Seq<Seq<char>>>, k: nat) -> bool {
    rows_share(rows, k) && !rows_share(rows, k + 1)
}

/// The number of leading items that all the rows share; of no rows, none.
pub open spec fn shared_length(rows: Seq<Seq<Seq<char>>>) -> nat {
    if rows.len() == 0 {
        0
    } else {
        choose|k: nat| is_shared_length(rows, k)
    }
}

/// Rows that share a number of leading items share every smaller number of them.
pub proof fn lemma_rows_share_fewer(rows: Seq<Seq<Seq<char>>>, k: nat, j: nat)
    requires
        rows_share(rows, k),
        j <= k,
    ensures
        rows_share(rows, j),
{
    assert forall|i: int| 0 <= i < rows.len() implies j <= (#[trigger] rows[i]).len()
        && rows[i].take(j as int) == rows[0].take(j as int) by {
        assert(rows[i].take(k as int).take(j as int) =~= rows[i].take(j as int));
        assert(rows[0].take(k as int).take(j as int) =~= rows[0].take(j as int));
    }
}

/// There is one shared length only.
pub proof fn lemma_shared_length_unique(rows: Seq<Seq<Seq<char>>>, k: nat)
    requires
        rows.len() > 0,
        is_shared_length(rows, k),
    ensures
        shared_length(rows) == k,
{
    let c = shared_length(rows);
    if c < k {
        lemma_rows_share_fewer(rows, k, c + 1);
    } else if k < c {
        lemma_rows_share_fewer(rows, c, k + 1);
    }
}

/// The texts of a list of rows.
pub open spec fn row_texts(rows: Seq<Vec<String>>) -> Seq<Seq<Seq<char>>> {
    Seq::new(rows.len(), |i: int| texts(rows[i]@))
}

/// The components of the directory of each path.
pub open spec fn dir_rows(paths: Seq<Seq<char>>) -> Seq<Seq<Seq<char>>> {
    Seq::new(paths.len(), |i: int| components_of(dir_of(paths[i])))
}

/// The deepest directory that holds all the paths: the leading components that their
/// directories share, as one path; none for no paths, and none where they share no
/// component.
pub open spec fn common_dir(paths: Seq<Seq<char>>) -> Option<Seq<char>> {
    let rows = dir_rows(paths);
    if shared_length(rows) == 0 {
        None
    } else {
        Some(assembled(rows[0].take(shared_length(rows) as int)))
    }
}

/// The number of leading texts in which `a` and `b` agree, up to `bound`.
pub fn agreeing(a: &Vec<String>, b: &Vec<String>, bound: usize) -> (k: usize)
    requires
        bound <= a@.len(),
    ensures
        k <= bound,
        k <= b@.len(),
        texts(a@).take(k as int) == texts(b@).take(k as int),
        k < bound && k < b@.len() ==> a@[k as int]@ != b@[k as int]@,
{
    let mut k: usize = 0;
    assert(texts(a@).take(0) =~= texts(b@).take(0));
    while k < bound && k < b.len()
        invariant
            k <= bound <= a@.len(),
            k <= b@.len(),
            texts(a@).take(k as int) == texts(b@).take(k as int),
        decreases bound - k,
    {
        if !str_eq(a[k].as_str(), b[k].as_str()) {
            return k;
        }
        assert(texts(a@).take(k + 1) =~= texts(a@).take(k as int).push(a@[k as int]@));
        assert(texts(b@).take(k + 1) =~= texts(b@).take(k as int).push(b@[k as int]@));
        k += 1;
    }
    k
}

/// The number of leading texts that all the rows share.
pub fn common_prefix_len(rows: &Vec<Vec<String>>) -> (depth: usize)
    ensures
        depth == shared_length(row_texts(rows@)),
        rows@.len() > 0 ==> depth <= rows@[0]@.len(),
{
    if rows.len() == 0 {
        return 0;
    }
    let ghost all = row_texts(rows@);
    let ghost head = all[0];
    let mut depth: usize = rows[0].len();
    let ghost mut witness: int = -1;
    let mut i: usize = 1;
    assert(head.take(depth as int) =~= head);
    while i < rows.len()
        invariant
            1 <= i <= rows.len(),
            all == row_texts(rows@),
            head == all[0],
            depth <= head.len(),
            forall|j: int|
                0 <= j < i ==> depth <= (#[trigger] all[j]).len() && all[j].take(depth as int)
                    == head.take(depth as int),
            depth < head.len() ==> 0 <= witness < i && (depth >= all[witness].len()
                || all[witness][depth as int] != head[depth as int]),
        decreases rows.len() - i,
    {
        let ghost old_depth = depth;
        let shared = agreeing(&rows[0], &rows[i], depth);
        if shared < depth {
            depth = shared;
            proof {
                witness = i as int;
            }
        }
        proof {
            assert forall|j: int| 0 <= j < i + 1 implies depth <= (#[trigger] all[j]).len()
                && all[j].take(depth as int) == head.take(depth as int) by {
                let row = all[j];
                if j < i {
                    assert(row.take(old_depth as int).take(depth as int) =~= row.take(depth as int));
                    assert(head.take(old_depth as int).take(depth as int) =~= head.take(
                        depth as int,
                    ));
                } else {
                    assert(head.take(shared as int).take(depth as int) =~= head.take(depth as int));
                    assert(row.take(shared as int).take(depth as int) =~= row.take(depth as int));
                }
            }
        }
        i += 1;
    }
    proof {
        assert(rows_share(all, depth as nat));
        assert(!rows_share(all, (depth + 1) as nat)) by {
            if rows_share(all, (depth + 1) as nat) {
                if depth < head.len() {
                    let row = all[witness];
                    assert(row.take(depth + 1)[depth as int] == head.take(depth + 1)[depth as int]);
                } else {
                    assert(depth + 1 <= all[0].len());
                }
            }
        }
        lemma_shared_length_unique(all, depth as nat);
    }
    depth
}

/// The deepest directory that holds all the paths. There is none for no paths, and none
/// where their directories share no component.
pub fn common_ancestor_dirs(paths: &Vec<String>) -> (dir: Option<String>)
    ensures
        opt_text(dir) == common_dir(texts(paths@)),
{
    let ghost all = texts(paths@);
    let mut rows: Vec<Vec<String>> = Vec::new();
    let mut i: usize = 0;
    assert(row_texts(rows@) =~= dir_rows(all.take(0)));
    while i < paths.len()
        invariant
            i <= paths.len(),
            all == texts(paths@),
            rows@.len() == i,
            row_texts(rows@) == dir_rows(all.take(i as int)),
        decreases paths.len() - i,
    {
        let dir = match path_parent(paths[i].as_str()) {
            Some(d) => d,
            None => paths[i].clone(),
        };
        let row = path_components(dir.as_str());
        proof {
            assert(dir@ == dir_of(all[i as int]));
            let before = row_texts(rows@);
            let after = row_texts(rows@.push(row));
            let wanted = dir_rows(all.take(i + 1));
            assert forall|j: int| 0 <= j < after.len() implies after[j] == wanted[j] by {
                if j < i {
                    assert(before[j] == dir_rows(all.take(i as int))[j]);
                    assert(all.take(i as int)[j] == all.take(i + 1)[j]);
                    assert(after[j] == before[j]);
                } else {
                    assert(after[j] == texts(row@));
                    assert(all.take(i + 1)[j] == all[i as int]);
                }
            }
            assert(after =~= wanted);
        }
        rows.push(row);
        i += 1;
    }
    assert(all.take(paths.len() as int) =~= all);
    let depth = common_prefix_len(&rows);
    if depth == 0 {
        None
    } else {
        let mut first = rows.swap_remove(0);
        proof {
            lemma_texts_take(first@, depth as int);
        }
        first.truncate(depth);
        Some(path_from_parts(&first))
    }
}

/// The directory that a path stands for: the path itself where it is a directory, else
/// the directory it lies in, or the path itself where it has no parent.
pub open spec fn picked_dir(path: Seq<char>, dirs: Seq<Seq<char>>) -> Seq<char> {
    if is_present(dirs, path) {
        path
    } else {
        dir_of(path)
    }
}

/// The directory is the top of a project: it holds a project file or a repository.
pub open spec fn is_project_top(dir: Seq<char>, present: Seq<Seq<char>>) -> bool {
    is_present(present, joined(dir, "pyproject.toml"@)) || is_present(
        present,
        joined(dir, ".git"@),
    )
}

/// The nearest project top at or above `dir`, with the number of steps up to it counted
/// on from `depth`.
pub open spec fn nearest_top(dir: Seq<char>, depth: nat, present: Seq<Seq<char>>) -> Option<
    (nat, Seq<char>),
>
    decreases dir.len(),
{
    if is_project_top(dir, present) {
        Some((depth, dir))
    } else {
        match parent_of(dir) {
            Some(up) => if up.len() < dir.len() && !same_path(up, dir) {
                nearest_top(up, depth + 1, present)
            } else {
                None
            },
            None => None,
        }
    }
}

/// The better of two project tops: the one fewer steps up, the first of two equally far.
pub open spec fn nearer(
    first: Option<(nat, Seq<char>)>,
    second: Option<(nat, Seq<char>)>,
) -> Option<(nat, Seq<char>)> {
    match first {
        Some(a) => match second {
            Some(b) => if b.0 < a.0 {
                second
            } else {
                first
            },
            None => first,
        },
        None => second,
    }
}

/// The project top that is fewest steps above one of the first `count` changed files.
pub open spec fn best_top(
    changed: Seq<Seq<char>>,
    dirs: Seq<Seq<char>>,
    present: Seq<Seq<char>>,
    count: nat,
) -> Option<(nat, Seq<char>)>
    decreases count,
{
    if count == 0 {
        None
    } else {
        nearer(
            best_top(changed, dirs, present, (count - 1) as nat),
            nearest_top(picked_dir(changed[count - 1], dirs), 0, present),
        )
    }
}

/// The root before the last check: the directory asked for; else the nearest project
/// top above a changed file; else the deepest directory that holds all changed files;
/// else the working directory.
pub open spec fn root_choice(
    explicit: Option<Seq<char>>,
    changed: Seq<Seq<char>>,
    cwd: Seq<char>,
    dirs: Seq<Seq<char>>,
    present: Seq<Seq<char>>,
) -> Seq<char> {
    match explicit {
        Some(root) => picked_dir(root, dirs),
        None => match best_top(changed, dirs, present, changed.len()) {
            Some(top) => top.1,
            None => match common_dir(changed) {
                Some(dir) => dir,
                None => cwd,
            },
        },
    }
}

/// The project root: the choice above, unless it is a path without a parent, in whose
/// place the working directory stands.
pub open spec fn chosen_root(
    explicit: Option<Seq<char>>,
    changed: Seq<Seq<char>>,
    cwd: Seq<char>,
    dirs: Seq<Seq<char>>,
    present: Seq<Seq<char>>,
) -> Seq<char> {
    let choice = root_choice(explicit, changed, cwd, dirs, present);
    if parent_of(choice) is None {
        cwd
    } else {
        choice
    }
}

/// The directory that `path` stands for.
pub fn pick_dir(path: &str, dirs: &Vec<String>) -> (dir: String)
    ensures
        dir@ == picked_dir(path@, texts(dirs@)),
{
    if file_is_present(dirs, path) {
        path.to_owned()
    } else {
        match path_parent(path) {
            Some(up) => up,
            None => path.to_owned(),
        }
    }
}

/// The nearest project top at or above `start`, and the number of steps up to it.
pub fn find_top(start: &str, present: &Vec<String>) -> (top: Option<(usize, String)>)
    ensures
        match nearest_top(start@, 0, texts(present@)) {
            Some(found) => top matches Some(t) && t.0 == found.0 && t.1@ == found.1,
            None => top is None,
        },
{
    let ghost files = texts(present@);
    let bound: usize = start.unicode_len();
    let mut current = start.to_owned();
    let mut depth: usize = 0;
    loop
        invariant
            files == texts(present@),
            depth + current@.len() <= bound,
            nearest_top(start@, 0, files) == nearest_top(current@, depth as nat, files),
        decreases current@.len(),
    {
        let project = path_join(current.as_str(), "pyproject.toml");
        let repository = path_join(current.as_str(), ".git");
        if file_is_present(present, project.as_str()) || file_is_present(
            present,
            repository.as_str(),
        ) {
            return Some((depth, current));
        }
        match path_parent(current.as_str()) {
            Some(up) => {
                if paths_equal(up.as_str(), current.as_str()) {
                    return None;
                }
                current = up;
                depth = depth + 1;
            },
            None => {
                return None;
            },
        }
    }
}

/// The project root for the changed files: the directory asked for, the nearest
/// directory above one of them that holds a project file or a repository, the deepest
/// directory that holds them all, or the working directory. `dirs` lists the
/// directories that exist, `present` the paths that exist.
pub fn choose_root(
    explicit: Option<String>,
    changed: &Vec<String>,
    cwd: &str,
    dirs: &Vec<String>,
    present: &Vec<String>,
) -> (root: String)
    ensures
        root@ == chosen_root(opt_text(explicit), texts(changed@), cwd@, texts(dirs@), texts(present@)),
{
    let ghost paths = texts(changed@);
    let ghost folders = texts(dirs@);
    let ghost files = texts(present@);
    let choice = match explicit {
        Some(root) => pick_dir(root.as_str(), dirs),
        None => {
            let mut best: Option<(usize, String)> = None;
            let mut i: usize = 0;
            while i < changed.len()
                invariant
                    i <= changed.len(),
                    paths == texts(changed@),
                    folders == texts(dirs@),
                    files == texts(present@),
                    match best_top(paths, folders, files, i as nat) {
                        Some(found) => best matches Some(b) && b.0 == found.0 && b.1@ == found.1,
                        None => best is None,
                    },
                decreases changed.len() - i,
            {
                let start = pick_dir(changed[i].as_str(), dirs);
                let here = find_top(start.as_str(), present);
                best = match best {
                    Some(b) => match here {
                        Some(h) => if h.0 < b.0 {
                            Some(h)
                        } else {
                            Some(b)
                        },
                        None => Some(b),
                    },
                    None => here,
                };
                i += 1;
            }
            match best {
                Some(b) => b.1,
                None => match common_ancestor_dirs(changed) {
                    Some(dir) => dir,
                    None => cwd.to_owned(),
                },
            }
        },
    };
    if path_parent(choice.as_str()).is_none() {
        cwd.to_owned()
    } else {
        choice
    }
}

/// The line of a dry run for one test.
pub open spec fn dry_run_line(test: TestView) -> Seq<char> {
    "  - "@ + test.path + " (distance="@ + decimal(test.distance as nat) + ", filename_match="@
        + decimal(test.priority.filename_match as nat) + ")"@
}

/// What a dry run says: the root, the changed files, and the selected tests with their
/// distances and matches.
pub open spec fn dry_run_lines(
    root: Seq<char>,
    changed: Seq<Seq<char>>,
    impacted: Seq<TestView>,
) -> Seq<Seq<char>> {
    seq!["Root: "@ + root, "Changed files ("@ + decimal(changed.len()) + "):"@] + Seq::new(
        changed.len(),
        |i: int| "  - "@ + changed[i],
    ) + seq!["\nSelected tests ("@ + decimal(impacted.len()) + "):"@] + Seq::new(
        impacted.len(),
        |i: int| dry_run_line(impacted[i]),
    )
}

/// What a dry run says of a selection.
pub fn print_dry_run(root: &str, changed: &Vec<String>, impacted: &Vec<TestResult>) -> (lines: Vec<
    String,
>)
    ensures
        texts(lines@) == dry_run_lines(root@, texts(changed@), test_views(impacted@)),
{
    let ghost paths = texts(changed@);
    let ghost tests = test_views(impacted@);
    let mut lines: Vec<String> = Vec::new();
    let mut first = "Root: ".to_owned();
    first.append(root);
    lines.push(first);
    let mut second = "Changed files (".to_owned();
    second.append(decimal_of(changed.len()).as_str());
    second.append("):");
    lines.push(second);
    let ghost head = seq!["Root: "@ + root@, "Changed files ("@ + decimal(paths.len()) + "):"@];
    assert(texts(lines@) =~= head + Seq::new(0, |i: int| "  - "@ + paths[i]));
    let mut i: usize = 0;
    while i < changed.len()
        invariant
            i <= changed.len(),
            paths == texts(changed@),
            texts(lines@) == head + Seq::new(i as nat, |k: int| "  - "@ + paths[k]),
        decreases changed.len() - i,
    {
        let mut line = "  - ".to_owned();
        line.append(changed[i].as_str());
        proof {
            lemma_texts_push(lines@, line);
            assert((head + Seq::new(i as nat, |k: int| "  - "@ + paths[k])).push(line@) =~= head
                + Seq::new((i + 1) as nat, |k: int| "  - "@ + paths[k]));
        }
        lines.push(line);
        i += 1;
    }
    let mut third = "\nSelected tests (".to_owned();
    third.append(decimal_of(impacted.len()).as_str());
    third.append("):");
    let ghost body = head + Seq::new(paths.len(), |k: int| "  - "@ + paths[k]) + seq![
        "\nSelected tests ("@ + decimal(tests.len()) + "):"@,
    ];
    proof {
        lemma_texts_push(lines@, third);
    }
    lines.push(third);
    assert(texts(lines@) =~= body + Seq::new(0, |k: int| dry_run_line(tests[k])));
    let mut i: usize = 0;
    while i < impacted.len()
        invariant
            i <= impacted.len(),
            tests == test_views(impacted@),
            texts(lines@) == body + Seq::new(i as nat, |k: int| dry_run_line(tests[k])),
        decreases impacted.len() - i,
    {
        let test = &impacted[i];
        assert(tests[i as int] == test@);
        let mut line = "  - ".to_owned();
        line.append(test.path.as_str());
        line.append(" (distance=");
        line.append(decimal_of(test.distance).as_str());
        line.append(", filename_match=");
        line.append(decimal_of(test.priority.filename_match as usize).as_str());
        line.append(")");
        proof {
            assert(line@ =~= dry_run_line(tests[i as int]));
            lemma_texts_push(lines@, line);
            assert((body + Seq::new(i as nat, |k: int| dry_run_line(tests[k]))).push(line@) =~= body
                + Seq::new((i + 1) as nat, |k: int| dry_run_line(tests[k])));
        }
        lines.push(line);
        i += 1;
    }
    lines
}

} // verus!
