//! Finding the changed files with git: which commands to run, and what their output
//! says.

use crate::cli::SelectArgs;
use crate::paths::{joined, opt_text, path_join, path_le, path_precedes, same_path};
use crate::project::resolve::paths_equal;
use crate::text::{
    chars_of, lemma_texts_push, split, split_on, string_of_range, texts, trim_str, trimmed,
};
use vstd::prelude::*;
use vstd::string::*;

verus! {

/// What to do next to find the changed files.
#[derive(Debug)]
pub enum GitStep {
    /// Run git with these arguments and hand back what it prints.
    Run(Vec<String>),
    /// The changed files, each once, in the order of paths.
    Done(Vec<String>),
}

/// What to do next as plain values.
pub enum GitStepView {
    Run(Seq<Seq<char>>),
    Done(Seq<Seq<char>>),
}

impl View for GitStep {
    type V = GitStepView;

    open spec fn view(&self) -> GitStepView {
        match self {
            GitStep::Run(args) => GitStepView::Run(texts(args@)),
            GitStep::Done(paths) => GitStepView::Done(texts(paths@)),
        }
    }
}

/// A line without the carriage return at its end, if it has one.
pub open spec fn without_return(line: Seq<char>) -> Seq<char> {
    if line.len() > 0 && line.last() == '\r' {
        line.drop_last()
    } else {
        line
    }
}

/// The first `count` of the pieces, each without the carriage return at its end.
pub open spec fn ended_lines(pieces: Seq<Seq<char>>, count: nat) -> Seq<Seq<char>>
    decreases count,
{
    if count == 0 {
        Seq::empty()
    } else {
        ended_lines(pieces, (count - 1) as nat).push(without_return(pieces[count - 1]))
    }
}

/// The lines of a text: what stands between line feeds, without the carriage return
/// before a line feed; what follows the last line feed is a line unless it is empty.
pub open spec fn lines_of(text: Seq<char>) -> Seq<Seq<char>> {
    let pieces = split(text, '\n');
    let ended = ended_lines(pieces, (pieces.len() - 1) as nat);
    if pieces.last().len() > 0 {
        ended.push(pieces.last())
    } else {
        ended
    }
}

/// Those of the first `count` lines that are not blank.
pub open spec fn named_lines(lines: Seq<Seq<char>>, count: nat) -> Seq<Seq<char>>
    decreases count,
{
    if count == 0 {
        Seq::empty()
    } else {
        let before = named_lines(lines, (count - 1) as nat);
        if trimmed(lines[count - 1]).len() > 0 {
            before.push(lines[count - 1])
        } else {
            before
        }
    }
}

/// The file names that git printed, one to a line, blank lines left out.
pub open spec fn printed_names(output: Seq<char>) -> Seq<Seq<char>> {
    named_lines(lines_of(output), lines_of(output).len())
}

/// The lines of `text`.
pub fn split_lines(text: &str) -> (lines: Vec<String>)
    ensures
        texts(lines@) == lines_of(text@),
{
    let mut pieces = split_on(text, '\n');
    let ghost all = texts(pieces@);
    let last = pieces.pop().unwrap();
    assert(last@ == all.last());
    assert(texts(pieces@) =~= all.drop_last());
    let mut lines: Vec<String> = Vec::new();
    assert(texts(lines@) =~= ended_lines(all, 0));
    let mut i: usize = 0;
    while i < pieces.len()
        invariant
            i <= pieces.len(),
            pieces@.len() == all.len() - 1,
            texts(pieces@) == all.drop_last(),
            texts(lines@) == ended_lines(all, i as nat),
        decreases pieces.len() - i,
    {
        let chars = chars_of(pieces[i].as_str());
        assert(chars@ == all[i as int]) by {
            assert(texts(pieces@)[i as int] == all.drop_last()[i as int]);
        }
        let end: usize = if chars.len() > 0 && chars[chars.len() - 1] == '\r' {
            chars.len() - 1
        } else {
            chars.len()
        };
        let line = string_of_range(&chars, 0, end);
        proof {
            assert(line@ =~= without_return(chars@));
            lemma_texts_push(lines@, line);
        }
        lines.push(line);
        i += 1;
    }
    if !last.as_str().is_empty() {
        proof {
            lemma_texts_push(lines@, last);
        }
        lines.push(last);
    }
    lines
}

/// The file names that git printed, one to a line, blank lines left out.
pub fn run_git_name_only(output: &str) -> (names: Vec<String>)
    ensures
        texts(names@) == printed_names(output@),
{
    let lines = split_lines(output);
    let ghost all = texts(lines@);
    let mut names: Vec<String> = Vec::new();
    assert(texts(names@) =~= named_lines(all, 0));
    let mut i: usize = 0;
    while i < lines.len()
        invariant
            i <= lines.len(),
            all == texts(lines@),
            texts(names@) == named_lines(all, i as nat),
        decreases lines.len() - i,
    {
        if !trim_str(lines[i].as_str()).as_str().is_empty() {
            let name = lines[i].clone();
            proof {
                lemma_texts_push(names@, name);
            }
            names.push(name);
        }
        i += 1;
    }
    names
}

/// The options as far as they decide what git is asked.
pub struct GitOptions {
    pub staged: bool,
    pub worktree: bool,
    pub diff: Option<Seq<char>>,
    pub merge_base: Option<Seq<char>>,
}

/// What the options ask of git.
pub open spec fn git_options(args: SelectArgs) -> GitOptions {
    GitOptions {
        staged: args.git_staged,
        worktree: args.git_worktree,
        diff: opt_text(args.git_diff),
        merge_base: opt_text(args.git_merge_base),
    }
}

/// The revision to compare against: the one asked for, else the one to take the merge
/// base with.
pub open spec fn diff_base(options: GitOptions) -> Option<Seq<char>> {
    match options.diff {
        Some(base) => Some(base),
        None => options.merge_base,
    }
}

/// The command that lists the staged changes.
pub open spec fn staged_command() -> Seq<Seq<char>> {
    seq!["diff"@, "--name-only"@, "--cached"@]
}

/// The command that lists the changes of the working tree.
pub open spec fn worktree_command() -> Seq<Seq<char>> {
    seq!["diff"@, "--name-only"@, "HEAD"@]
}

/// The command that finds the merge base with `base`.
pub open spec fn merge_base_command(base: Seq<char>) -> Seq<Seq<char>> {
    seq!["merge-base"@, base, "HEAD"@]
}

/// The command that lists the changes since `base`.
pub open spec fn diff_command(base: Seq<char>) -> Seq<Seq<char>> {
    seq!["diff"@, "--name-only"@, base + "..HEAD"@]
}

/// The commands whose arguments the options alone decide, in the order in which they
/// are run: the staged changes, the working tree, and the merge base.
pub open spec fn first_commands(options: GitOptions) -> Seq<Seq<Seq<char>>> {
    (if options.staged {
        seq![staged_command()]
    } else {
        Seq::empty()
    }) + (if options.worktree {
        seq![worktree_command()]
    } else {
        Seq::empty()
    }) + (match diff_base(options) {
        Some(base) => if options.merge_base is Some {
            seq![merge_base_command(base)]
        } else {
            Seq::empty()
        },
        None => Seq::empty(),
    })
}

/// The last command, where a revision is compared against: the changes since the merge
/// base that git printed, or since the revision.
pub open spec fn last_command(options: GitOptions, outputs: Seq<Seq<char>>) -> Option<
    Seq<Seq<char>>,
> {
    match diff_base(options) {
        Some(base) => if options.merge_base is Some {
            Some(diff_command(trimmed(outputs[first_commands(options).len() - 1])))
        } else {
            Some(diff_command(base))
        },
        None => None,
    }
}

/// Number of commands that the options ask for.
pub open spec fn command_count(options: GitOptions) -> nat {
    first_commands(options).len() + if diff_base(options) is Some {
        1nat
    } else {
        0nat
    }
}

/// Output number `i` lists file names: every output does but that of the merge base.
pub open spec fn lists_names(options: GitOptions, i: int) -> bool {
    !(diff_base(options) is Some && options.merge_base is Some && i == first_commands(
        options,
    ).len() - 1)
}

/// The file names that the first `count` outputs list, each made absolute from the
/// working directory, in the order in which git printed them.
pub open spec fn listed_paths(
    options: GitOptions,
    cwd: Seq<char>,
    outputs: Seq<Seq<char>>,
    count: nat,
) -> Seq<Seq<char>>
    decreases count,
{
    if count == 0 {
        Seq::empty()
    } else {
        let before = listed_paths(options, cwd, outputs, (count - 1) as nat);
        if lists_names(options, count - 1) {
            before + absolute_paths(cwd, printed_names(outputs[count - 1]))
        } else {
            before
        }
    }
}

/// Each name adjoined to the working directory, which leaves an absolute name as it is.
pub open spec fn absolute_paths(cwd: Seq<char>, names: Seq<Seq<char>>) -> Seq<Seq<char>> {
    Seq::new(names.len(), |i: int| joined(cwd, names[i]))
}

/// One of the paths of `sorted` is the path `path`.
pub open spec fn holds_path(sorted: Seq<Seq<char>>, path: Seq<char>) -> bool {
    exists|j: int| 0 <= j < sorted.len() && same_path(#[trigger] sorted[j], path)
}

/// `sorted` holds the paths of `paths`, each once, in ascending order: every path of
/// either is a path of the other, and of two neighbours the first comes before the
/// second and is not the same path.
pub open spec fn is_path_set(paths: Seq<Seq<char>>, sorted: Seq<Seq<char>>) -> bool {
    &&& forall|i: int| 0 <= i < paths.len() ==> holds_path(sorted, #[trigger] paths[i])
    &&& forall|j: int| 0 <= j < sorted.len() ==> paths.contains(#[trigger] sorted[j])
    &&& forall|j: int|
        0 <= j < sorted.len() - 1 ==> path_le(#[trigger] sorted[j], sorted[j + 1]) && !same_path(
            sorted[j],
            sorted[j + 1],
        )
}

/// What is to be done after the commands run so far have printed `outputs`: the next
/// command while one is left, the changed files when all have run.
pub open spec fn next_step(options: GitOptions, cwd: Seq<char>, outputs: Seq<Seq<char>>, step: GitStepView) -> bool {
    let first = first_commands(options);
    if outputs.len() < first.len() {
        step == GitStepView::Run(first[outputs.len() as int])
    } else if outputs.len() == first.len() && diff_base(options) is Some {
        step == GitStepView::Run(last_command(options, outputs)->0)
    } else {
        step matches GitStepView::Done(paths) && is_path_set(
            listed_paths(options, cwd, outputs, command_count(options)),
            paths,
        )
    }
}

/// A list of strings from literals.
fn command(a: &str, b: &str, c: &str) -> (out: Vec<String>)
    ensures
        texts(out@) == seq![a@, b@, c@],
{
    let mut out: Vec<String> = Vec::new();
    out.push(a.to_owned());
    out.push(b.to_owned());
    out.push(c.to_owned());
    assert(texts(out@) =~= seq![a@, b@, c@]);
    out
}

/// Puts `path` into a list of paths in ascending order, unless the same path is there.
pub fn insert_path(sorted: &mut Vec<String>, path: String)
    requires
        forall|j: int|
            0 <= j < old(sorted)@.len() - 1 ==> path_le(
                (#[trigger] old(sorted)@[j])@,
                old(sorted)@[j + 1]@,
            ) && !same_path(old(sorted)@[j]@, old(sorted)@[j + 1]@),
    ensures
        forall|j: int|
            0 <= j < final(sorted)@.len() - 1 ==> path_le(
                (#[trigger] final(sorted)@[j])@,
                final(sorted)@[j + 1]@,
            ) && !same_path(final(sorted)@[j]@, final(sorted)@[j + 1]@),
        exists|j: int| 0 <= j < final(sorted)@.len() && same_path((#[trigger] final(sorted)@[j])@, path@),
        forall|j: int|
            0 <= j < old(sorted)@.len() ==> texts(final(sorted)@).contains(
                (#[trigger] old(sorted)@[j])@,
            ),
        forall|j: int|
            0 <= j < final(sorted)@.len() ==> (#[trigger] final(sorted)@[j])@ == path@ || texts(
                old(sorted)@,
            ).contains(final(sorted)@[j]@),
        final(sorted)@ == old(sorted)@ || exists|i: int|
            0 <= i <= old(sorted)@.len() && final(sorted)@ == #[trigger] old(sorted)@.insert(i, path),
{
    let ghost before = sorted@;
    let mut i: usize = 0;
    while i < sorted.len() && !path_precedes(path.as_str(), sorted[i].as_str())
        invariant
            i <= sorted.len(),
            sorted@ == before,
            forall|k: int|
                0 <= k < i ==> !path_le(path@, (#[trigger] before[k])@) && path_le(
                    before[k]@,
                    path@,
                ) && !same_path(before[k]@, path@),
        decreases sorted.len() - i,
    {
        i += 1;
    }
    if i < sorted.len() && paths_equal(path.as_str(), sorted[i].as_str()) {
        proof {
            assert(same_path(before[i as int]@, path@));
            assert forall|j: int| 0 <= j < before.len() implies texts(before).contains(
                (#[trigger] before[j])@,
            ) by {
                assert(texts(before)[j] == before[j]@);
            }
        }
        return ;
    }
    sorted.insert(i, path);
    proof {
        let after = sorted@;
        assert(after[i as int]@ == path@);
        assert forall|j: int| 0 <= j < after.len() - 1 implies path_le(
            (#[trigger] after[j])@,
            after[j + 1]@,
        ) && !same_path(after[j]@, after[j + 1]@) by {
            if j + 1 < i {
                assert(after[j] == before[j] && after[j + 1] == before[j + 1]);
            } else if j + 1 == i {
                assert(after[j] == before[j]);
            } else if j == i {
                assert(after[j + 1] == before[i as int]);
            } else {
                assert(after[j] == before[j - 1] && after[j + 1] == before[j]);
                assert(path_le(before[j - 1]@, before[j - 1 + 1]@));
            }
        }
        assert forall|j: int| 0 <= j < before.len() implies texts(after).contains(
            (#[trigger] before[j])@,
        ) by {
            if j < i {
                assert(texts(after)[j] == before[j]@);
            } else {
                assert(texts(after)[j + 1] == before[j]@);
            }
        }
        assert forall|j: int| 0 <= j < after.len() implies (#[trigger] after[j])@ == path@
            || texts(before).contains(after[j]@) by {
            if j < i {
                assert(texts(before)[j] == after[j]@);
            } else if j > i {
                assert(texts(before)[j - 1] == after[j]@);
            }
        }
    }
}

/// The arguments of a list of commands.
pub open spec fn command_texts(commands: Seq<Vec<String>>) -> Seq<Seq<Seq<char>>> {
    Seq::new(commands.len(), |i: int| texts(commands[i]@))
}

/// The arguments of a list of commands with one more command are those of the list with
/// the arguments of that command at the end.
pub proof fn lemma_command_texts_push(commands: Seq<Vec<String>>, next: Vec<String>)
    ensures
        command_texts(commands.push(next)) == command_texts(commands).push(texts(next@)),
{
    assert(command_texts(commands.push(next)) =~= command_texts(commands).push(texts(next@)));
}

/// Finds the changed files with git, one step at a time: given what the commands run so
/// far have printed, in order, says which command to run next, or, when all have run,
/// which files changed. Relative names are taken from the working directory `cwd`.
pub fn gather_git_changed(args: &SelectArgs, cwd: &str, outputs: &Vec<String>) -> (step: GitStep)
    ensures
        next_step(git_options(*args), cwd@, texts(outputs@), step@),
{
    let ghost options = git_options(*args);
    let ghost printed = texts(outputs@);
    let mut first: Vec<Vec<String>> = Vec::new();
    assert(command_texts(first@) =~= Seq::<Seq<Seq<char>>>::empty());
    if args.git_staged {
        let next = command("diff", "--name-only", "--cached");
        proof {
            lemma_command_texts_push(first@, next);
        }
        first.push(next);
    }
    if args.git_worktree {
        let next = command("diff", "--name-only", "HEAD");
        proof {
            lemma_command_texts_push(first@, next);
        }
        first.push(next);
    }
    let base: Option<String> = match &args.git_diff {
        Some(b) => Some(b.clone()),
        None => args.git_merge_base.clone(),
    };
    assert(opt_text(base) == diff_base(options));
    let with_merge = base.is_some() && args.git_merge_base.is_some();
    if with_merge {
        let next = match &base {
            Some(b) => command("merge-base", b.as_str(), "HEAD"),
            None => Vec::new(),
        };
        proof {
            lemma_command_texts_push(first@, next);
        }
        first.push(next);
    }
    assert(command_texts(first@) =~= first_commands(options));
    let count = first.len();
    assert(count <= 3);
    if outputs.len() < count {
        let ghost commands = first@;
        let next = first.swap_remove(outputs.len());
        assert(texts(next@) == command_texts(commands)[outputs.len() as int]);
        return GitStep::Run(next);
    }
    match base {
        Some(b) => {
            if outputs.len() == count {
                let mut range = if with_merge {
                    trim_str(outputs[count - 1].as_str())
                } else {
                    b
                };
                range.append("..HEAD");
                return GitStep::Run(command("diff", "--name-only", range.as_str()));
            }
        },
        None => {},
    }
    let total: usize = if diff_base_known(&args.git_diff, &args.git_merge_base) {
        count + 1
    } else {
        count
    };
    assert(total == command_count(options));
    assert(total <= outputs.len());
    let mut sorted: Vec<String> = Vec::new();
    let mut i: usize = 0;
    assert(listed_paths(options, cwd@, printed, 0) =~= Seq::<Seq<char>>::empty());
    while i < total
        invariant
            i <= total <= outputs.len(),
            total == command_count(options),
            count == first_commands(options).len(),
            with_merge == (diff_base(options) is Some && options.merge_base is Some),
            options == git_options(*args),
            printed == texts(outputs@),
            is_path_set(listed_paths(options, cwd@, printed, i as nat), texts(sorted@)),
        decreases total - i,
    {
        let ghost before = listed_paths(options, cwd@, printed, i as nat);
        if !(with_merge && i + 1 == count) {
            assert(lists_names(options, i as int));
            let names = run_git_name_only(outputs[i].as_str());
            let ghost added = absolute_paths(cwd@, texts(names@));
            let mut k: usize = 0;
            assert(before + added.take(0) =~= before);
            while k < names.len()
                invariant
                    k <= names.len(),
                    added == absolute_paths(cwd@, texts(names@)),
                    is_path_set(before + added.take(k as int), texts(sorted@)),
                decreases names.len() - k,
            {
                let path = path_join(cwd, names[k].as_str());
                let ghost held = sorted@;
                let ghost seen = before + added.take(k as int);
                let ghost more = before + added.take(k + 1);
                proof {
                    assert(more =~= seen.push(path@));
                    assert forall|j: int| 0 <= j < held.len() - 1 implies path_le(
                        (#[trigger] held[j])@,
                        held[j + 1]@,
                    ) && !same_path(held[j]@, held[j + 1]@) by {
                        assert(texts(held)[j] == held[j]@);
                        assert(texts(held)[j + 1] == held[j + 1]@);
                    }
                }
                insert_path(&mut sorted, path);
                proof {
                    let now = texts(sorted@);
                    assert forall|x: int| 0 <= x < more.len() implies holds_path(
                        now,
                        #[trigger] more[x],
                    ) by {
                        if x < seen.len() {
                            assert(holds_path(texts(held), seen[x]));
                            let j = choose|j: int|
                                0 <= j < texts(held).len() && same_path(
                                    #[trigger] texts(held)[j],
                                    seen[x],
                                );
                            assert(texts(held)[j] == held[j]@);
                            assert(now.contains(held[j]@));
                            let j2 = choose|j2: int| 0 <= j2 < now.len() && now[j2] == held[j]@;
                            assert(same_path(now[j2], more[x]));
                        } else {
                            let j = choose|j: int|
                                0 <= j < sorted@.len() && same_path(
                                    (#[trigger] sorted@[j])@,
                                    more[x],
                                );
                            assert(now[j] == sorted@[j]@);
                        }
                    }
                    assert forall|j: int| 0 <= j < now.len() implies more.contains(
                        #[trigger] now[j],
                    ) by {
                        assert(now[j] == sorted@[j]@);
                        if sorted@[j]@ == more[seen.len() as int] {
                        } else {
                            assert(texts(held).contains(now[j]));
                            let j0 = choose|j0: int|
                                0 <= j0 < texts(held).len() && texts(held)[j0] == now[j];
                            assert(seen.contains(texts(held)[j0]));
                            let x = choose|x: int| 0 <= x < seen.len() && seen[x] == now[j];
                            assert(more[x] == now[j]);
                        }
                    }
                    assert forall|j: int| 0 <= j < now.len() - 1 implies path_le(
                        #[trigger] now[j],
                        now[j + 1],
                    ) && !same_path(now[j], now[j + 1]) by {
                        assert(now[j] == sorted@[j]@);
                        assert(now[j + 1] == sorted@[j + 1]@);
                    }
                    assert(is_path_set(more, now));
                }
                k += 1;
            }
            assert(added.take(names.len() as int) =~= added);
        } else {
            assert(!lists_names(options, i as int));
        }
        i += 1;
    }
    GitStep::Done(sorted)
}

/// Whether a revision is compared against.
fn diff_base_known(diff: &Option<String>, merge_base: &Option<String>) -> (known: bool)
    ensures
        known == (diff is Some || merge_base is Some),
{
    diff.is_some() || merge_base.is_some()
}

} // verus!
