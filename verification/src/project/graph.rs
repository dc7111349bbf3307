//! Which tests a change can affect: the graph of imports read backwards, searched breadth
//! first from the changed modules.

use crate::number::{decimal, decimal_of};
use crate::paths::{path_strip_prefix, stripped_prefix};
use crate::priority::{priority, priority_of};
use crate::project::index::{
    concat3, is_module, module_of_path, position_of, IndexView, ModuleView, ProjectIndex,
};
use crate::project::lookup::{known_target, lemma_known_target_is_module};
use crate::project::rank::{
    cut, insert_ranked, lemma_cut_ranked_found, lemma_test_order_total, ranked, test_order,
    test_views, TestResult, TestView,
};
use crate::project::resolve::{module_name, module_name_of};
use crate::project::traversal::{
    adj_edges, distance_of, distances_from, expands, graph_ok, has_edge, is_distance, is_seed,
    lemma_distance_beyond, lemma_distance_found, lemma_distance_is_shortest, lemma_next_to_source,
    lemma_one_step_further, lemma_source_distance, recorded, seed_set, walk,
};
use crate::project::utils::{is_python_file, is_python_path, is_test_file, is_test_path};
use crate::text::{lemma_texts_add, lemma_texts_push, split, split_on, str_eq, texts};
use vstd::prelude::*;
use vstd::relations::sorted_by;
use vstd::string::*;

verus! {

/// The first component of an identity: its top-level package.
pub open spec fn first_part(name: Seq<char>) -> Seq<char> {
    split(name, '.').first()
}

/// The last component of an identity: its leaf.
pub open spec fn last_part(name: Seq<char>) -> Seq<char> {
    split(name, '.').last()
}

/// `part` is the top-level package of some module of the project.
pub open spec fn is_top_level(modules: Seq<ModuleView>, part: Seq<char>) -> bool {
    exists|i: int| 0 <= i < modules.len() && first_part((#[trigger] modules[i]).module) == part
}

/// The warning for an import of `module` that stands for no module of the project.
pub open spec fn unresolved_warning(import: Seq<char>, module: Seq<char>) -> Seq<char> {
    "Unresolved import `"@ + import + "` in module `"@ + module + "`"@
}

/// The module that an import stands for, as a position in the index. An import that
/// stands for the module without a name counts as one that stands for none.
pub open spec fn import_node(index: IndexView, present: Seq<Seq<char>>, import: Seq<char>) -> Option<
    int,
> {
    match known_target(index, present, import) {
        Some(t) => if t.len() > 0 && is_module(index.modules, t) {
            Some(position_of(index.modules, t))
        } else {
            None
        },
        None => None,
    }
}

/// The warning that an import gives: one for an import that stands for no module though
/// its top-level package is one of the project's.
pub open spec fn import_warning(
    index: IndexView,
    present: Seq<Seq<char>>,
    module: Seq<char>,
    import: Seq<char>,
) -> Option<Seq<char>> {
    if known_target(index, present, import) is None && is_top_level(
        index.modules,
        first_part(import),
    ) {
        Some(unresolved_warning(import, module))
    } else {
        None
    }
}

/// The module at `w` imports the module at `t`; of the imports of the module at `i` only
/// the first `k` count, and none of the modules after it.
pub open spec fn imports_upto(
    index: IndexView,
    present: Seq<Seq<char>>,
    w: int,
    t: int,
    i: int,
    k: int,
) -> bool {
    0 <= w < index.modules.len() && exists|j: int|
        0 <= j < index.modules[w].imports.len() && (w < i || (w == i && j < k)) && import_node(
            index,
            present,
            #[trigger] index.modules[w].imports[j],
        ) == Some(t)
}

/// The module at `w` imports the module at `t`.
pub open spec fn imports(index: IndexView, present: Seq<Seq<char>>, w: int, t: int) -> bool {
    imports_upto(index, present, w, t, index.modules.len() as int, 0)
}

/// The graph of imports read backwards: an edge leads from a module to each module that
/// imports it.
pub open spec fn import_edges(index: IndexView, present: Seq<Seq<char>>) -> spec_fn(int, int) -> bool {
    |t: int, w: int| imports(index, present, w, t)
}

/// The warnings that the imports of one module give, in order.
pub open spec fn warnings_of_imports(
    index: IndexView,
    present: Seq<Seq<char>>,
    module: Seq<char>,
    imports: Seq<Seq<char>>,
) -> Seq<Seq<char>>
    decreases imports.len(),
{
    if imports.len() == 0 {
        Seq::empty()
    } else {
        let before = warnings_of_imports(index, present, module, imports.drop_last());
        match import_warning(index, present, module, imports.last()) {
            Some(w) => before.push(w),
            None => before,
        }
    }
}

/// The warnings that the imports of the first `count` modules give, in order.
pub open spec fn warnings_of_modules(index: IndexView, present: Seq<Seq<char>>, count: nat) -> Seq<
    Seq<char>,
>
    decreases count,
{
    if count == 0 {
        Seq::empty()
    } else {
        let m = index.modules[count - 1];
        warnings_of_modules(index, present, (count - 1) as nat) + warnings_of_imports(
            index,
            present,
            m.module,
            m.imports,
        )
    }
}

/// The warnings that resolving every import of the project gives.
pub open spec fn resolution_warnings(index: IndexView, present: Seq<Seq<char>>) -> Seq<Seq<char>> {
    warnings_of_modules(index, present, index.modules.len())
}

/// All warnings of an analysis: those of the scan, then those of resolving the imports.
pub open spec fn all_warnings(index: IndexView, present: Seq<Seq<char>>) -> Seq<Seq<char>> {
    index.warnings + resolution_warnings(index, present)
}

/// The module that a changed file stands for: the module indexed for that path; else, for
/// a source file, the module that the identity guessed from its path stands for, or that
/// identity itself where it stands for none. Other files stand for nothing.
pub open spec fn seed_name(index: IndexView, present: Seq<Seq<char>>, path: Seq<char>) -> Option<
    Seq<char>,
> {
    match module_of_path(index.paths, path) {
        Some(m) => Some(m),
        None => if is_python_path(path) {
            let guess = module_name_of(index.root, path, present);
            match known_target(index, present, guess) {
                Some(t) => Some(t),
                None => Some(guess),
            }
        } else {
            None
        },
    }
}

/// The note for a changed source file that is not indexed.
pub open spec fn guess_note(index: IndexView, present: Seq<Seq<char>>, path: Seq<char>) -> Option<
    Seq<char>,
> {
    if module_of_path(index.paths, path) is None && is_python_path(path) {
        Some(
            "Warning: changed file not indexed (using module `"@ + module_name_of(
                index.root,
                path,
                present,
            ) + "`): "@ + path,
        )
    } else {
        None
    }
}

/// The notes for the changed files, in order.
pub open spec fn guess_notes(index: IndexView, present: Seq<Seq<char>>, changed: Seq<Seq<char>>) -> Seq<
    Seq<char>,
>
    decreases changed.len(),
{
    if changed.len() == 0 {
        Seq::empty()
    } else {
        let before = guess_notes(index, present, changed.drop_last());
        match guess_note(index, present, changed.last()) {
            Some(n) => before.push(n),
            None => before,
        }
    }
}

/// The module at `v` is one that a changed file stands for.
pub open spec fn is_seed_module(
    index: IndexView,
    present: Seq<Seq<char>>,
    changed: Seq<Seq<char>>,
    v: int,
) -> bool {
    0 <= v < index.modules.len() && exists|c: int|
        0 <= c < changed.len() && seed_name(index, present, #[trigger] changed[c]) == Some(
            index.modules[v].module,
        )
}

/// The modules that the changed files stand for: where the search starts.
pub open spec fn seed_nodes(index: IndexView, present: Seq<Seq<char>>, changed: Seq<Seq<char>>) -> Set<
    int,
> {
    Set::new(|v: int| is_seed_module(index, present, changed, v))
}

/// The leaves of the identities that changed files stand for without being modules of
/// the project, in the order of the changed files.
pub open spec fn stray_leaves(index: IndexView, present: Seq<Seq<char>>, changed: Seq<Seq<char>>) -> Seq<
    Seq<char>,
>
    decreases changed.len(),
{
    if changed.len() == 0 {
        Seq::empty()
    } else {
        let before = stray_leaves(index, present, changed.drop_last());
        match seed_name(index, present, changed.last()) {
            Some(m) => if is_module(index.modules, m) {
                before
            } else {
                before.push(last_part(m))
            },
            None => before,
        }
    }
}

/// The distance of the module at `v` from the changed modules: the least number of
/// import steps that lead from it to one of them, where that is within the limit.
pub open spec fn impact_distance(
    index: IndexView,
    present: Seq<Seq<char>>,
    changed: Seq<Seq<char>>,
    limit: Option<usize>,
    v: int,
) -> Option<nat> {
    distance_of(import_edges(index, present), seed_nodes(index, present, changed), limit, v)
}

/// The leaves of the impacted modules among the first `count`.
pub open spec fn module_leaves(
    index: IndexView,
    present: Seq<Seq<char>>,
    changed: Seq<Seq<char>>,
    limit: Option<usize>,
    count: nat,
) -> Seq<Seq<char>>
    decreases count,
{
    if count == 0 {
        Seq::empty()
    } else {
        let before = module_leaves(index, present, changed, limit, (count - 1) as nat);
        if impact_distance(index, present, changed, limit, count - 1) is Some {
            before.push(last_part(index.modules[count - 1].module))
        } else {
            before
        }
    }
}

/// The leaves that a change touches: the leaf of every impacted module and of every
/// identity that a changed file stands for.
pub open spec fn changed_leaves(
    index: IndexView,
    present: Seq<Seq<char>>,
    changed: Seq<Seq<char>>,
    limit: Option<usize>,
) -> Seq<Seq<char>> {
    module_leaves(index, present, changed, limit, index.modules.len()) + stray_leaves(
        index,
        present,
        changed,
    )
}

/// The path under which a file is reported: relative to the root where it lies below it.
pub open spec fn shown_path(root: Seq<char>, path: Seq<char>) -> Seq<char> {
    match stripped_prefix(path, root) {
        Some(rest) => rest,
        None => path,
    }
}

/// The record of the test file `path` at distance `d`.
pub open spec fn test_record(root: Seq<char>, path: Seq<char>, d: nat, leaves: Seq<Seq<char>>) -> TestView {
    let shown = shown_path(root, path);
    TestView { path: shown, priority: priority_of(shown, d as usize, leaves), distance: d as usize }
}

/// The records of the impacted test files among the first `count` modules, in the order
/// of the index.
pub open spec fn found_tests(
    index: IndexView,
    present: Seq<Seq<char>>,
    changed: Seq<Seq<char>>,
    limit: Option<usize>,
    count: nat,
) -> Seq<TestView>
    decreases count,
{
    if count == 0 {
        Seq::empty()
    } else {
        let before = found_tests(index, present, changed, limit, (count - 1) as nat);
        let m = index.modules[count - 1];
        match impact_distance(index, present, changed, limit, count - 1) {
            Some(d) => if is_test_path(m.path) {
                before.push(
                    test_record(index.root, m.path, d, changed_leaves(index, present, changed, limit)),
                )
            } else {
                before
            },
            None => before,
        }
    }
}

/// The impacted tests: every module within the limit of a changed module whose file is a
/// test file, in the order of the report, the first `max` of them.
pub open spec fn impacted(
    index: IndexView,
    changed: Seq<Seq<char>>,
    present: Seq<Seq<char>>,
    max: Option<usize>,
    limit: Option<usize>,
) -> Seq<TestView> {
    cut(ranked(found_tests(index, present, changed, limit, index.modules.len())), max)
}

/// Each warning as it is shown.
pub open spec fn shown_warnings(warnings: Seq<Seq<char>>) -> Seq<Seq<char>> {
    Seq::new(warnings.len(), |i: int| "Warning: "@ + warnings[i])
}

/// What an analysis has to say on the diagnostic stream: nothing where it is to be
/// quiet; else every warning, then the notes for changed files that are not indexed.
pub open spec fn emitted(
    index: IndexView,
    present: Seq<Seq<char>>,
    changed: Seq<Seq<char>>,
    quiet: bool,
) -> Seq<Seq<char>> {
    if quiet {
        Seq::empty()
    } else {
        shown_warnings(all_warnings(index, present)) + guess_notes(index, present, changed)
    }
}

/// What an analysis returns: the impacted tests; or, where warnings count as errors and
/// there are any, their number and the first of them.
pub open spec fn is_outcome(
    index: IndexView,
    changed: Seq<Seq<char>>,
    present: Seq<Seq<char>>,
    max: Option<usize>,
    limit: Option<usize>,
    warn_as_error: bool,
    result: Result<Vec<TestResult>, EscalatedWarnings>,
) -> bool {
    match result {
        Ok(tests) => {
            &&& !(warn_as_error && all_warnings(index, present).len() > 0)
            &&& test_views(tests@) == impacted(index, changed, present, max, limit)
        },
        Err(e) => {
            &&& warn_as_error
            &&& all_warnings(index, present).len() > 0
            &&& e.count == all_warnings(index, present).len()
            &&& e.first@ == all_warnings(index, present)[0]
        },
    }
}

/// Warnings that were asked to count as errors.
#[derive(Debug)]
pub struct EscalatedWarnings {
    /// How many warnings there were.
    pub count: usize,
    /// The first of them.
    pub first: String,
}

/// What the error says: the number of warnings and the first of them.
pub open spec fn escalation_message(count: usize, first: Seq<char>) -> Seq<char> {
    "Warnings treated as errors ("@ + decimal(count as nat) + " warnings). First: "@ + first
}

impl EscalatedWarnings {
    /// What the error says.
    pub fn message(&self) -> (text: String)
        ensures
            text@ == escalation_message(self.count, self.first@),
    {
        let mut text = concat3(
            "Warnings treated as errors (",
            decimal_of(self.count).as_str(),
            " warnings). First: ",
        );
        text.append(self.first.as_str());
        text
    }
}

/// Where a search starts, and what it has to say of the changed files.
pub struct Seeds {
    /// The positions of the modules that changed files stand for.
    pub nodes: Vec<usize>,
    /// The leaves of the other identities that changed files stand for.
    pub stray: Vec<String>,
    /// The notes for changed files that are not indexed.
    pub notes: Vec<String>,
}

impl ProjectIndex {
    /// The top-level package of each module, in the order of the index.
    pub fn top_level_parts(&self) -> (tops: Vec<String>)
        ensures
            tops@.len() == self@.modules.len(),
            forall|i: int|
                0 <= i < tops@.len() ==> (#[trigger] tops@[i])@ == first_part(
                    self@.modules[i].module,
                ),
    {
        let mut tops: Vec<String> = Vec::new();
        let mut i: usize = 0;
        while i < self.modules.len()
            invariant
                i <= self.modules.len(),
                tops@.len() == i,
                forall|j: int|
                    0 <= j < i ==> (#[trigger] tops@[j])@ == first_part(self@.modules[j].module),
            decreases self.modules.len() - i,
        {
            let first = split_first(self.modules[i].module.as_str());
            assert(self@.modules[i as int].module == self.modules@[i as int].module@);
            tops.push(first);
            i += 1;
        }
        tops
    }

    /// The graph of imports read backwards, as the list of importers of each module, and
    /// the warnings that resolving the imports gives.
    pub fn import_graph(&self, present: &Vec<String>) -> (out: (Vec<Vec<usize>>, Vec<String>))
        requires
            self@.wf(),
        ensures
            out.0@.len() == self@.modules.len(),
            forall|t: int, j: int|
                0 <= t < out.0@.len() && 0 <= j < out.0@[t]@.len() ==> #[trigger] out.0@[t]@[j]
                    < out.0@.len(),
            forall|t: int, w: int|
                has_edge(out.0@, t, w) <==> imports(self@, texts(present@), w, t),
            texts(out.1@) == resolution_warnings(self@, texts(present@)),
    {
        let ghost index = self@;
        let ghost files = texts(present@);
        let n = self.modules.len();
        let tops = self.top_level_parts();
        let mut adj: Vec<Vec<usize>> = Vec::new();
        let mut t: usize = 0;
        while t < n
            invariant
                t <= n,
                adj@.len() == t,
                forall|u: int| 0 <= u < t ==> (#[trigger] adj@[u])@.len() == 0,
            decreases n - t,
        {
            adj.push(Vec::new());
            t += 1;
        }
        let mut warnings: Vec<String> = Vec::new();
        assert(texts(warnings@) =~= warnings_of_modules(index, files, 0));
        let mut i: usize = 0;
        while i < n
            invariant
                i <= n,
                n == self.modules@.len(),
                index == self@,
                index.wf(),
                files == texts(present@),
                adj@.len() == n,
                tops@.len() == n,
                forall|j: int|
                    0 <= j < n ==> (#[trigger] tops@[j])@ == first_part(index.modules[j].module),
                forall|u: int, j: int|
                    0 <= u < n && 0 <= j < adj@[u]@.len() ==> #[trigger] adj@[u]@[j] < n,
                forall|u: int, w: int|
                    has_edge(adj@, u, w) <==> imports_upto(index, files, w, u, i as int, 0),
                texts(warnings@) == warnings_of_modules(index, files, i as nat),
            decreases n - i,
        {
            let info = &self.modules[i];
            let ghost m = index.modules[i as int];
            assert(m == info@);
            let ghost base = texts(warnings@);
            let mut k: usize = 0;
            assert(m.imports.take(0) =~= Seq::<Seq<char>>::empty());
            assert(texts(warnings@) =~= base + warnings_of_imports(
                index,
                files,
                m.module,
                m.imports.take(0),
            ));
            while k < info.imports.len()
                invariant
                    i < n,
                    k <= info.imports.len(),
                    n == self.modules@.len(),
                    info == &self.modules@[i as int],
                    m == info@,
                    m == index.modules[i as int],
                    index == self@,
                    index.wf(),
                    files == texts(present@),
                    adj@.len() == n,
                    tops@.len() == n,
                    forall|j: int|
                        0 <= j < n ==> (#[trigger] tops@[j])@ == first_part(
                            index.modules[j].module,
                        ),
                    forall|u: int, j: int|
                        0 <= u < n && 0 <= j < adj@[u]@.len() ==> #[trigger] adj@[u]@[j] < n,
                    forall|u: int, w: int|
                        has_edge(adj@, u, w) <==> imports_upto(
                            index,
                            files,
                            w,
                            u,
                            i as int,
                            k as int,
                        ),
                    texts(warnings@) == base + warnings_of_imports(
                        index,
                        files,
                        m.module,
                        m.imports.take(k as int),
                    ),
                decreases info.imports.len() - k,
            {
                let import = info.imports[k].as_str();
                assert(import@ == m.imports[k as int]);
                let ghost adj0 = adj@;
                let ghost shown = texts(warnings@);
                proof {
                    let next = m.imports.take(k + 1);
                    assert(next.drop_last() =~= m.imports.take(k as int));
                    assert(next.last() == import@);
                    lemma_known_target_is_module(index, files, import@);
                }
                let mut node: Option<usize> = None;
                match self.resolve_target(import, present) {
                    Some(target) => {
                        if !target.as_str().is_empty() {
                            node = self.find_module(target.as_str());
                            proof {
                                let p = position_of(index.modules, target@);
                                assert(index.modules[p].module == index.modules[node->0 as int].module);
                            }
                        }
                    },
                    None => {
                        if self.is_listed(&tops, split_first(import).as_str()) {
                            let mut warning = concat3("Unresolved import `", import, "` in module `");
                            warning.append(info.module.as_str());
                            warning.append("`");
                            proof {
                                assert(warning@ =~= unresolved_warning(import@, m.module));
                                lemma_texts_push(warnings@, warning);
                            }
                            warnings.push(warning);
                        }
                    },
                }
                assert(match node {
                    Some(p) => import_node(index, files, import@) == Some(p as int) && p < n,
                    None => import_node(index, files, import@) is None,
                });
                assert(texts(warnings@) == base + warnings_of_imports(
                    index,
                    files,
                    m.module,
                    m.imports.take(k + 1),
                )) by {
                    let before = warnings_of_imports(index, files, m.module, m.imports.take(k as int));
                    match import_warning(index, files, m.module, import@) {
                        Some(w) => {
                            assert(shown.push(w) =~= base + before.push(w));
                        },
                        None => {},
                    }
                }
                match node {
                    Some(p) => {
                        adj[p].push(i);
                        proof {
                            let row0 = adj0[p as int]@;
                            assert(adj@[p as int]@[row0.len() as int] == i);
                            assert forall|u: int, j: int|
                                0 <= u < n && 0 <= j < adj@[u]@.len() implies #[trigger] adj@[u]@[j]
                                < n by {
                                if u == p {
                                    if j < row0.len() {
                                        assert(adj@[u]@[j] == adj0[u]@[j]);
                                    }
                                } else {
                                    assert(adj@[u] == adj0[u]);
                                    assert(adj@[u]@[j] == adj0[u]@[j]);
                                }
                            }
                            assert forall|u: int, w: int| has_edge(adj@, u, w) <==> imports_upto(
                                index,
                                files,
                                w,
                                u,
                                i as int,
                                k + 1,
                            ) by {
                                if has_edge(adj@, u, w) {
                                    let j = choose|j: int|
                                        0 <= j < adj@[u]@.len() && #[trigger] adj@[u]@[j] == w;
                                    if u == p && j == row0.len() {
                                        assert(import_node(
                                            index,
                                            files,
                                            index.modules[i as int].imports[k as int],
                                        ) == Some(u));
                                    } else {
                                        if u != p {
                                            assert(adj@[u] == adj0[u]);
                                        }
                                        assert(adj0[u]@[j] == w);
                                        assert(has_edge(adj0, u, w));
                                        assert(imports_upto(index, files, w, u, i as int, k as int));
                                        let j2 = choose|j2: int|
                                            0 <= j2 < index.modules[w].imports.len() && (w < i || (w
                                                == i && j2 < k)) && import_node(
                                                index,
                                                files,
                                                #[trigger] index.modules[w].imports[j2],
                                            ) == Some(u);
                                        assert(imports_upto(index, files, w, u, i as int, k + 1));
                                    }
                                }
                                if imports_upto(index, files, w, u, i as int, k + 1) {
                                    let j2 = choose|j2: int|
                                        0 <= j2 < index.modules[w].imports.len() && (w < i || (w
                                            == i && j2 < k + 1)) && import_node(
                                            index,
                                            files,
                                            #[trigger] index.modules[w].imports[j2],
                                        ) == Some(u);
                                    if w == i && j2 == k {
                                        assert(u == p);
                                        assert(adj@[u]@[row0.len() as int] == w);
                                    } else {
                                        assert(imports_upto(index, files, w, u, i as int, k as int));
                                        assert(has_edge(adj0, u, w));
                                        let j = choose|j: int|
                                            0 <= j < adj0[u]@.len() && #[trigger] adj0[u]@[j] == w;
                                        if u != p {
                                            assert(adj@[u] == adj0[u]);
                                        }
                                        assert(adj@[u]@[j] == w);
                                    }
                                }
                            }
                        }
                    },
                    None => {
                        proof {
                            assert forall|u: int, w: int| has_edge(adj@, u, w) <==> imports_upto(
                                index,
                                files,
                                w,
                                u,
                                i as int,
                                k + 1,
                            ) by {
                                if has_edge(adj@, u, w) {
                                    assert(imports_upto(index, files, w, u, i as int, k as int));
                                    let j2 = choose|j2: int|
                                        0 <= j2 < index.modules[w].imports.len() && (w < i || (w
                                            == i && j2 < k)) && import_node(
                                            index,
                                            files,
                                            #[trigger] index.modules[w].imports[j2],
                                        ) == Some(u);
                                    assert(imports_upto(index, files, w, u, i as int, k + 1));
                                }
                                if imports_upto(index, files, w, u, i as int, k + 1) {
                                    let j2 = choose|j2: int|
                                        0 <= j2 < index.modules[w].imports.len() && (w < i || (w
                                            == i && j2 < k + 1)) && import_node(
                                            index,
                                            files,
                                            #[trigger] index.modules[w].imports[j2],
                                        ) == Some(u);
                                    assert(!(w == i && j2 == k));
                                    assert(imports_upto(index, files, w, u, i as int, k as int));
                                }
                            }
                        }
                    },
                }
                k += 1;
            }
            proof {
                assert(m.imports.take(m.imports.len() as int) =~= m.imports);
                assert forall|u: int, w: int| has_edge(adj@, u, w) <==> imports_upto(
                    index,
                    files,
                    w,
                    u,
                    i + 1,
                    0,
                ) by {
                    if imports_upto(index, files, w, u, i as int, m.imports.len() as int) {
                        let j2 = choose|j2: int|
                            0 <= j2 < index.modules[w].imports.len() && (w < i || (w == i && j2
                                < m.imports.len())) && import_node(
                                index,
                                files,
                                #[trigger] index.modules[w].imports[j2],
                            ) == Some(u);
                        assert(imports_upto(index, files, w, u, i + 1, 0));
                    }
                    if imports_upto(index, files, w, u, i + 1, 0) {
                        let j2 = choose|j2: int|
                            0 <= j2 < index.modules[w].imports.len() && (w < i + 1 || (w == i + 1
                                && j2 < 0)) && import_node(
                                index,
                                files,
                                #[trigger] index.modules[w].imports[j2],
                            ) == Some(u);
                        assert(imports_upto(index, files, w, u, i as int, m.imports.len() as int));
                    }
                }
            }
            i += 1;
        }
        (adj, warnings)
    }

    /// Whether `part` is one of `names`.
    pub fn is_listed(&self, names: &Vec<String>, part: &str) -> (listed: bool)
        requires
            names@.len() == self@.modules.len(),
            forall|i: int|
                0 <= i < names@.len() ==> (#[trigger] names@[i])@ == first_part(
                    self@.modules[i].module,
                ),
        ensures
            listed == is_top_level(self@.modules, part@),
    {
        let mut i: usize = 0;
        while i < names.len()
            invariant
                i <= names.len(),
                names@.len() == self@.modules.len(),
                forall|j: int|
                    0 <= j < names@.len() ==> (#[trigger] names@[j])@ == first_part(
                        self@.modules[j].module,
                    ),
                forall|j: int|
                    0 <= j < i ==> first_part((#[trigger] self@.modules[j]).module) != part@,
            decreases names.len() - i,
        {
            if str_eq(names[i].as_str(), part) {
                assert(first_part(self@.modules[i as int].module) == part@);
                return true;
            }
            i += 1;
        }
        false
    }
}

/// A module that a changed file stands for is at distance 0.
pub proof fn lemma_changed_module_distance(
    index: IndexView,
    present: Seq<Seq<char>>,
    changed: Seq<Seq<char>>,
    limit: Option<usize>,
    v: int,
)
    requires
        is_seed_module(index, present, changed, v),
    ensures
        impact_distance(index, present, changed, limit, v) == Some(0nat),
{
    lemma_source_distance(
        import_edges(index, present),
        seed_nodes(index, present, changed),
        limit,
        v,
    );
}

/// A module that imports a changed module, and is not changed itself, is at distance
/// exactly 1, one more than the changed module, unless the limit is 0.
pub proof fn lemma_direct_importer_distance(
    index: IndexView,
    present: Seq<Seq<char>>,
    changed: Seq<Seq<char>>,
    limit: Option<usize>,
    s: int,
    w: int,
)
    requires
        is_seed_module(index, present, changed, s),
        imports(index, present, w, s),
        !is_seed_module(index, present, changed, w),
        expands(limit, 0),
    ensures
        impact_distance(index, present, changed, limit, w) == Some(1nat),
{
    let edges = import_edges(index, present);
    assert(edges(s, w));
    lemma_next_to_source(edges, seed_nodes(index, present, changed), limit, s, w);
}

/// Along an import the distance grows by one at most: a module that imports an impacted
/// module short of the limit is impacted too, no more than one step further out.
pub proof fn lemma_importer_distance(
    index: IndexView,
    present: Seq<Seq<char>>,
    changed: Seq<Seq<char>>,
    limit: Option<usize>,
    u: int,
    w: int,
)
    requires
        imports(index, present, w, u),
        impact_distance(index, present, changed, limit, u) is Some,
        expands(limit, impact_distance(index, present, changed, limit, u)->0),
    ensures
        impact_distance(index, present, changed, limit, w) matches Some(e) && e <= impact_distance(
            index,
            present,
            changed,
            limit,
            u,
        )->0 + 1,
{
    let edges = import_edges(index, present);
    assert(edges(u, w));
    lemma_one_step_further(edges, seed_nodes(index, present, changed), limit, u, w);
}

/// A module whose shortest chain of imports to a changed module has exactly as many
/// steps as the limit is still impacted.
pub proof fn lemma_at_limit_impacted(
    index: IndexView,
    present: Seq<Seq<char>>,
    changed: Seq<Seq<char>>,
    limit: usize,
    v: int,
)
    requires
        is_distance(
            import_edges(index, present),
            seed_nodes(index, present, changed),
            v,
            limit as nat,
        ),
    ensures
        impact_distance(index, present, changed, Some(limit), v) == Some(limit as nat),
{
    lemma_distance_found(
        import_edges(index, present),
        seed_nodes(index, present, changed),
        Some(limit),
        v,
        limit as nat,
    );
}

/// A module that no chain of imports within the limit connects to a changed module is
/// not impacted: the importers of a module at the limit are left out unless a shorter
/// chain leads to them.
pub proof fn lemma_beyond_limit_not_impacted(
    index: IndexView,
    present: Seq<Seq<char>>,
    changed: Seq<Seq<char>>,
    limit: usize,
    v: int,
)
    requires
        forall|k: nat|
            k <= limit ==> !walk(
                import_edges(index, present),
                seed_nodes(index, present, changed),
                v,
                k,
            ),
    ensures
        impact_distance(index, present, changed, Some(limit), v) is None,
{
    lemma_distance_beyond(
        import_edges(index, present),
        seed_nodes(index, present, changed),
        Some(limit),
        v,
    );
}

/// The records found are those of the impacted modules whose files are test files, and
/// no others: a module that is not impacted, or whose file is no test file, has no
/// record, however it is connected.
pub proof fn lemma_found_tests_are(
    index: IndexView,
    present: Seq<Seq<char>>,
    changed: Seq<Seq<char>>,
    limit: Option<usize>,
    count: nat,
    record: TestView,
)
    ensures
        found_tests(index, present, changed, limit, count).contains(record) <==> exists|v: int|
            0 <= v < count && is_test_path(index.modules[v].path) && #[trigger] impact_distance(
                index,
                present,
                changed,
                limit,
                v,
            ) is Some && record == test_record(
                index.root,
                index.modules[v].path,
                impact_distance(index, present, changed, limit, v)->0,
                changed_leaves(index, present, changed, limit),
            ),
    decreases count,
{
    let found = found_tests(index, present, changed, limit, count);
    let leaves = changed_leaves(index, present, changed, limit);
    let is_record = |v: int|
        is_test_path(index.modules[v].path) && impact_distance(index, present, changed, limit, v)
            is Some && record == test_record(
            index.root,
            index.modules[v].path,
            impact_distance(index, present, changed, limit, v)->0,
            leaves,
        );
    if count == 0 {
        assert(!found.contains(record));
    } else {
        let before = found_tests(index, present, changed, limit, (count - 1) as nat);
        lemma_found_tests_are(index, present, changed, limit, (count - 1) as nat, record);
        let last = count - 1;
        if found.contains(record) {
            let i = choose|i: int| 0 <= i < found.len() && found[i] == record;
            if i < before.len() {
                assert(before[i] == record);
                assert(before.contains(record));
                let v = choose|v: int|
                    0 <= v < count - 1 && is_test_path(index.modules[v].path)
                        && #[trigger] impact_distance(index, present, changed, limit, v) is Some
                        && record == test_record(
                        index.root,
                        index.modules[v].path,
                        impact_distance(index, present, changed, limit, v)->0,
                        leaves,
                    );
                assert(0 <= v < count && is_record(v));
            } else {
                assert(is_record(last));
            }
        }
        if exists|v: int|
            0 <= v < count && is_test_path(index.modules[v].path) && #[trigger] impact_distance(
                index,
                present,
                changed,
                limit,
                v,
            ) is Some && record == test_record(
                index.root,
                index.modules[v].path,
                impact_distance(index, present, changed, limit, v)->0,
                leaves,
            ) {
            let v = choose|v: int|
                0 <= v < count && is_test_path(index.modules[v].path) && #[trigger] impact_distance(
                    index,
                    present,
                    changed,
                    limit,
                    v,
                ) is Some && record == test_record(
                    index.root,
                    index.modules[v].path,
                    impact_distance(index, present, changed, limit, v)->0,
                    leaves,
                );
            if v < count - 1 {
                assert(before.contains(record));
                let i = choose|i: int| 0 <= i < before.len() && before[i] == record;
                assert(found[i] == record);
            } else {
                assert(found[found.len() - 1] == record);
            }
        }
    }
}

/// With a limit, no reported test is further from the change than the limit.
pub proof fn lemma_report_within_limit(
    index: IndexView,
    changed: Seq<Seq<char>>,
    present: Seq<Seq<char>>,
    max: Option<usize>,
    limit: usize,
    i: int,
)
    requires
        0 <= i < impacted(index, changed, present, max, Some(limit)).len(),
    ensures
        impacted(index, changed, present, max, Some(limit))[i].distance <= limit,
        impacted(index, changed, present, max, Some(limit))[i].priority.distance <= limit,
{
    let n = index.modules.len();
    let found = found_tests(index, present, changed, Some(limit), n);
    let record = impacted(index, changed, present, max, Some(limit))[i];
    lemma_cut_ranked_found(found, max, i);
    lemma_found_tests_are(index, present, changed, Some(limit), n, record);
    let v = choose|v: int|
        0 <= v < n && is_test_path(index.modules[v].path) && #[trigger] impact_distance(
            index,
            present,
            changed,
            Some(limit),
            v,
        ) is Some && record == test_record(
            index.root,
            index.modules[v].path,
            impact_distance(index, present, changed, Some(limit), v)->0,
            changed_leaves(index, present, changed, Some(limit)),
        );
    lemma_distance_is_shortest(
        import_edges(index, present),
        seed_nodes(index, present, changed),
        Some(limit),
        v,
    );
}

/// Every reported file is a test file of an impacted module: a file that is no test file
/// is never reported.
pub proof fn lemma_report_only_tests(
    index: IndexView,
    changed: Seq<Seq<char>>,
    present: Seq<Seq<char>>,
    max: Option<usize>,
    limit: Option<usize>,
    i: int,
)
    requires
        0 <= i < impacted(index, changed, present, max, limit).len(),
    ensures
        exists|v: int|
            0 <= v < index.modules.len() && is_test_path(index.modules[v].path)
                && #[trigger] impact_distance(index, present, changed, limit, v) is Some
                && impacted(index, changed, present, max, limit)[i].path == shown_path(
                index.root,
                index.modules[v].path,
            ),
{
    let n = index.modules.len();
    let found = found_tests(index, present, changed, limit, n);
    let record = impacted(index, changed, present, max, limit)[i];
    lemma_cut_ranked_found(found, max, i);
    lemma_found_tests_are(index, present, changed, limit, n, record);
    let v = choose|v: int|
        0 <= v < n && is_test_path(index.modules[v].path) && #[trigger] impact_distance(
            index,
            present,
            changed,
            limit,
            v,
        ) is Some && record == test_record(
            index.root,
            index.modules[v].path,
            impact_distance(index, present, changed, limit, v)->0,
            changed_leaves(index, present, changed, limit),
        );
    assert(record.path == shown_path(index.root, index.modules[v].path));
}

/// Two analyses of one index with the same changed files, listing of files, bound and
/// limit report the same tests in the same order.
pub proof fn lemma_report_determined(
    index: IndexView,
    changed: Seq<Seq<char>>,
    present: Seq<Seq<char>>,
    max: Option<usize>,
    limit: Option<usize>,
    first: Seq<TestResult>,
    second: Seq<TestResult>,
)
    requires
        test_views(first) == impacted(index, changed, present, max, limit),
        test_views(second) == impacted(index, changed, present, max, limit),
    ensures
        first.len() == second.len(),
        forall|i: int|
            0 <= i < first.len() ==> (#[trigger] first[i]).path@ == second[i].path@ && first[i].priority
                == second[i].priority && first[i].distance == second[i].distance,
{
    assert(test_views(first).len() == first.len());
    assert(test_views(second).len() == second.len());
    assert forall|i: int| 0 <= i < first.len() implies (#[trigger] first[i]).path@
        == second[i].path@ && first[i].priority == second[i].priority && first[i].distance
        == second[i].distance by {
        assert(test_views(first)[i] == first[i]@);
        assert(test_views(second)[i] == second[i]@);
    }
}

impl ProjectIndex {
    /// Where the search for the tests that `changed` can affect starts.
    pub fn seeds(&self, changed: &Vec<String>, present: &Vec<String>) -> (seeds: Seeds)
        requires
            self@.wf(),
        ensures
            forall|i: int|
                0 <= i < seeds.nodes@.len() ==> #[trigger] seeds.nodes@[i] < self@.modules.len(),
            forall|v: int|
                is_seed(seeds.nodes@, v) <==> is_seed_module(
                    self@,
                    texts(present@),
                    texts(changed@),
                    v,
                ),
            texts(seeds.stray@) == stray_leaves(self@, texts(present@), texts(changed@)),
            texts(seeds.notes@) == guess_notes(self@, texts(present@), texts(changed@)),
    {
        let ghost index = self@;
        let ghost files = texts(present@);
        let ghost paths = texts(changed@);
        let mut nodes: Vec<usize> = Vec::new();
        let mut stray: Vec<String> = Vec::new();
        let mut notes: Vec<String> = Vec::new();
        proof {
            assert(paths.take(0) =~= Seq::<Seq<char>>::empty());
            assert(texts(stray@) =~= stray_leaves(index, files, paths.take(0)));
            assert(texts(notes@) =~= guess_notes(index, files, paths.take(0)));
        }
        let mut c: usize = 0;
        while c < changed.len()
            invariant
                c <= changed.len(),
                index == self@,
                index.wf(),
                files == texts(present@),
                paths == texts(changed@),
                forall|i: int| 0 <= i < nodes@.len() ==> #[trigger] nodes@[i] < index.modules.len(),
                forall|v: int|
                    is_seed(nodes@, v) <==> is_seed_module(index, files, paths.take(c as int), v),
                texts(stray@) == stray_leaves(index, files, paths.take(c as int)),
                texts(notes@) == guess_notes(index, files, paths.take(c as int)),
            decreases changed.len() - c,
        {
            let path = changed[c].as_str();
            let ghost before = paths.take(c as int);
            let ghost after = paths.take(c + 1);
            let ghost nodes0 = nodes@;
            proof {
                assert(after.drop_last() =~= before);
                assert(after.last() == path@);
            }
            let mut name: Option<String> = None;
            match self.find_path(path) {
                Some(p) => {
                    name = Some(self.path_to_module[p].1.clone());
                },
                None => {
                    if is_python_file(path) {
                        let guess = module_name(self.root.as_str(), path, present);
                        let mut note = concat3(
                            "Warning: changed file not indexed (using module `",
                            guess.as_str(),
                            "`): ",
                        );
                        note.append(path);
                        proof {
                            assert(note@ =~= guess_note(index, files, path@)->0);
                            lemma_texts_push(notes@, note);
                        }
                        notes.push(note);
                        name = Some(
                            match self.resolve_target(guess.as_str(), present) {
                                Some(t) => t,
                                None => guess,
                            },
                        );
                    }
                },
            }
            let ghost named = crate::paths::opt_text(name);
            assert(named == seed_name(index, files, path@));
            let mut node: Option<usize> = None;
            match name {
                Some(m) => {
                    match self.find_module(m.as_str()) {
                        Some(p) => {
                            nodes.push(p);
                            node = Some(p);
                        },
                        None => {
                            let leaf = split_last(m.as_str());
                            proof {
                                lemma_texts_push(stray@, leaf);
                            }
                            stray.push(leaf);
                        },
                    }
                },
                None => {},
            }
            proof {
                assert(match node {
                    Some(p) => nodes@ == nodes0.push(p) && p < index.modules.len() && named == Some(
                        index.modules[p as int].module,
                    ),
                    None => nodes@ == nodes0 && !(named matches Some(m) && is_module(
                        index.modules,
                        m,
                    )),
                });
                assert forall|v: int| is_seed(nodes@, v) implies is_seed_module(
                    index,
                    files,
                    after,
                    v,
                ) by {
                    let i = choose|i: int| 0 <= i < nodes@.len() && #[trigger] nodes@[i] == v;
                    if i < nodes0.len() {
                        assert(nodes0[i] == v);
                        assert(is_seed(nodes0, v));
                        assert(is_seed_module(index, files, before, v));
                        let c0 = choose|c0: int|
                            0 <= c0 < before.len() && seed_name(index, files, #[trigger] before[c0])
                                == Some(index.modules[v].module);
                        assert(after[c0] == before[c0]);
                        assert(seed_name(index, files, after[c0]) == Some(index.modules[v].module));
                    } else {
                        assert(after[c as int] == path@);
                        assert(seed_name(index, files, after[c as int]) == Some(
                            index.modules[v].module,
                        ));
                    }
                }
                assert forall|v: int| is_seed_module(index, files, after, v) implies is_seed(
                    nodes@,
                    v,
                ) by {
                    let c0 = choose|c0: int|
                        0 <= c0 < after.len() && seed_name(index, files, #[trigger] after[c0])
                            == Some(index.modules[v].module);
                    if c0 < c {
                        assert(before[c0] == after[c0]);
                        assert(seed_name(index, files, before[c0]) == Some(index.modules[v].module));
                        assert(is_seed_module(index, files, before, v));
                        assert(is_seed(nodes0, v));
                        let i = choose|i: int| 0 <= i < nodes0.len() && #[trigger] nodes0[i] == v;
                        assert(nodes@[i] == v);
                    } else {
                        assert(after[c0] == path@);
                        assert(is_module(index.modules, index.modules[v].module));
                        assert(node is Some);
                        assert(index.modules[node->0 as int].module == index.modules[v].module);
                        assert(node->0 == v);
                        assert(nodes@[nodes0.len() as int] == v);
                    }
                }
            }
            c += 1;
        }
        assert(paths.take(changed.len() as int) =~= paths);
        Seeds { nodes, stray, notes }
    }

    /// The tests that the changed files can affect, for any index: none for an index that
    /// is not well-formed, which is then left alone; else what `impacted_tests` gives.
    pub fn try_impacted_tests(
        &self,
        changed: &Vec<String>,
        present: &Vec<String>,
        max: Option<usize>,
        distance_limit: Option<usize>,
        quiet: bool,
        warn_as_error: bool,
        diagnostics: &mut Vec<String>,
    ) -> (result: Option<Result<Vec<TestResult>, EscalatedWarnings>>)
        ensures
            result is Some == self@.wf(),
            result is None ==> final(diagnostics)@ == old(diagnostics)@,
            result matches Some(outcome) ==> {
                &&& texts(final(diagnostics)@) == texts(old(diagnostics)@) + emitted(
                    self@,
                    texts(present@),
                    texts(changed@),
                    quiet,
                )
                &&& is_outcome(
                    self@,
                    texts(changed@),
                    texts(present@),
                    max,
                    distance_limit,
                    warn_as_error,
                    outcome,
                )
            },
    {
        if !self.is_well_formed() {
            return None;
        }
        Some(
            self.impacted_tests(
                changed,
                present,
                max,
                distance_limit,
                quiet,
                warn_as_error,
                diagnostics,
            ),
        )
    }

    /// The tests that the changed files can affect, most relevant first.
    ///
    /// A module is impacted where import steps lead from it to a module that a changed
    /// file stands for, no more of them than `distance_limit` where there is one; its
    /// distance is the least number of such steps. The impacted modules whose files are
    /// test files are reported in the order of their ranks and paths, the first `max` of
    /// them where there is a bound. `present` lists the files that exist. What there is
    /// to say on the diagnostic stream is added to `diagnostics`. With `warn_as_error`,
    /// any warning of the scan or of resolving the imports turns the result into an
    /// error that tells their number and the first of them.
    pub fn impacted_tests(
        &self,
        changed: &Vec<String>,
        present: &Vec<String>,
        max: Option<usize>,
        distance_limit: Option<usize>,
        quiet: bool,
        warn_as_error: bool,
        diagnostics: &mut Vec<String>,
    ) -> (result: Result<Vec<TestResult>, EscalatedWarnings>)
        requires
            self@.wf(),
        ensures
            texts(final(diagnostics)@) == texts(old(diagnostics)@) + emitted(
                self@,
                texts(present@),
                texts(changed@),
                quiet,
            ),
            is_outcome(
                self@,
                texts(changed@),
                texts(present@),
                max,
                distance_limit,
                warn_as_error,
                result,
            ),
    {
        let ghost index = self@;
        let ghost files = texts(present@);
        let ghost paths = texts(changed@);
        let ghost said0 = texts(diagnostics@);
        let n = self.modules.len();

        let (adj, resolution) = self.import_graph(present);
        let mut warnings: Vec<String> = Vec::new();
        let mut i: usize = 0;
        assert(texts(warnings@) =~= index.warnings.take(0));
        while i < self.warnings.len()
            invariant
                i <= self.warnings.len(),
                index == self@,
                texts(warnings@) == index.warnings.take(i as int),
            decreases self.warnings.len() - i,
        {
            let w = self.warnings[i].clone();
            proof {
                lemma_texts_push(warnings@, w);
                assert(index.warnings.take(i + 1) =~= index.warnings.take(i as int).push(w@));
            }
            warnings.push(w);
            i += 1;
        }
        let mut resolution = resolution;
        proof {
            assert(index.warnings.take(self.warnings.len() as int) =~= index.warnings);
            lemma_texts_add(warnings@, resolution@);
        }
        warnings.append(&mut resolution);
        assert(texts(warnings@) == all_warnings(index, files));

        let seeds = self.seeds(changed, present);
        if !quiet {
            let mut i: usize = 0;
            assert(shown_warnings(texts(warnings@)).take(0) =~= Seq::<Seq<char>>::empty());
            assert(said0 + Seq::<Seq<char>>::empty() =~= said0);
            while i < warnings.len()
                invariant
                    i <= warnings.len(),
                    texts(diagnostics@) == said0 + shown_warnings(texts(warnings@)).take(i as int),
                decreases warnings.len() - i,
            {
                let line = concat3("Warning: ", warnings[i].as_str(), "");
                proof {
                    reveal_strlit("");
                    assert(line@ =~= "Warning: "@ + warnings@[i as int]@);
                    lemma_texts_push(diagnostics@, line);
                    let shown = shown_warnings(texts(warnings@));
                    assert(shown.take(i + 1) =~= shown.take(i as int).push(line@));
                    assert((said0 + shown.take(i as int)).push(line@) =~= said0 + shown.take(i + 1));
                }
                diagnostics.push(line);
                i += 1;
            }
            let mut notes = seeds.notes;
            proof {
                let shown = shown_warnings(texts(warnings@));
                assert(shown.take(warnings.len() as int) =~= shown);
                lemma_texts_add(diagnostics@, notes@);
                assert((said0 + shown) + texts(notes@) =~= said0 + (shown + texts(notes@)));
            }
            diagnostics.append(&mut notes);
        } else {
            assert(said0 + Seq::<Seq<char>>::empty() =~= said0);
        }

        proof {
            assert(graph_ok(adj@, seeds.nodes@));
            assert(adj_edges(adj@) =~= import_edges(index, files));
            assert(seed_set(seeds.nodes@) =~= seed_nodes(index, files, paths));
        }
        let table = distances_from(&adj, &seeds.nodes, distance_limit);
        assert forall|v: int| 0 <= v < n implies #[trigger] recorded(table@, v) == impact_distance(
            index,
            files,
            paths,
            distance_limit,
            v,
        ) by {}

        let mut leaves: Vec<String> = Vec::new();
        let mut v: usize = 0;
        assert(texts(leaves@) =~= module_leaves(index, files, paths, distance_limit, 0));
        while v < n
            invariant
                v <= n,
                n == self.modules@.len(),
                index == self@,
                table@.len() == n,
                forall|u: int|
                    0 <= u < n ==> #[trigger] recorded(table@, u) == impact_distance(
                        index,
                        files,
                        paths,
                        distance_limit,
                        u,
                    ),
                texts(leaves@) == module_leaves(index, files, paths, distance_limit, v as nat),
            decreases n - v,
        {
            assert(recorded(table@, v as int) == impact_distance(
                index,
                files,
                paths,
                distance_limit,
                v as int,
            ));
            if table[v].is_some() {
                let leaf = split_last(self.modules[v].module.as_str());
                proof {
                    assert(self.modules@[v as int]@ == index.modules[v as int]);
                    lemma_texts_push(leaves@, leaf);
                }
                leaves.push(leaf);
            }
            v += 1;
        }
        let mut stray = seeds.stray;
        proof {
            lemma_texts_add(leaves@, stray@);
        }
        leaves.append(&mut stray);
        assert(texts(leaves@) == changed_leaves(index, files, paths, distance_limit));

        let mut tests: Vec<TestResult> = Vec::new();
        let mut v: usize = 0;
        proof {
            assert(test_views(tests@) =~= Seq::<TestView>::empty());
            assert(found_tests(index, files, paths, distance_limit, 0) =~= Seq::<TestView>::empty());
        }
        while v < n
            invariant
                v <= n,
                n == self.modules@.len(),
                index == self@,
                table@.len() == n,
                forall|u: int|
                    0 <= u < n ==> #[trigger] recorded(table@, u) == impact_distance(
                        index,
                        files,
                        paths,
                        distance_limit,
                        u,
                    ),
                texts(leaves@) == changed_leaves(index, files, paths, distance_limit),
                sorted_by(test_views(tests@), test_order()),
                test_views(tests@).to_multiset() == found_tests(
                    index,
                    files,
                    paths,
                    distance_limit,
                    v as nat,
                ).to_multiset(),
            decreases n - v,
        {
            assert(recorded(table@, v as int) == impact_distance(
                index,
                files,
                paths,
                distance_limit,
                v as int,
            ));
            let info = &self.modules[v];
            assert(info@ == index.modules[v as int]);
            match table[v] {
                Some(d) => {
                    if is_test_file(info.path.as_str()) {
                        let shown = match path_strip_prefix(info.path.as_str(), self.root.as_str()) {
                            Some(rest) => rest,
                            None => info.path.clone(),
                        };
                        let rank = priority(shown.as_str(), d, &leaves);
                        let item = TestResult { path: shown, priority: rank, distance: d };
                        proof {
                            let before = found_tests(index, files, paths, distance_limit, v as nat);
                            assert(item@ == test_record(index.root, info@.path, d as nat, texts(leaves@)));
                            vstd::seq_lib::to_multiset_build(before, item@);
                        }
                        insert_ranked(&mut tests, item);
                    }
                },
                None => {},
            }
            v += 1;
        }
        proof {
            let found = found_tests(index, files, paths, distance_limit, n as nat);
            lemma_test_order_total();
            found.lemma_sort_by_ensures(test_order());
            vstd::seq_lib::lemma_sorted_unique(test_views(tests@), ranked(found), test_order());
        }
        match max {
            Some(m) => {
                if m < tests.len() {
                    let ghost whole = tests@;
                    tests.truncate(m);
                    assert(test_views(tests@) =~= test_views(whole).take(m as int));
                }
            },
            None => {},
        }
        if warn_as_error && warnings.len() > 0 {
            return Err(EscalatedWarnings { count: warnings.len(), first: warnings[0].clone() });
        }
        Ok(tests)
    }
}

/// The first component of an identity.
pub fn split_first(name: &str) -> (part: String)
    ensures
        part@ == first_part(name@),
{
    let mut parts = split_on(name, '.');
    let ghost all = texts(parts@);
    parts.truncate(1);
    let first = parts.pop().unwrap();
    assert(first@ == all.first());
    first
}

/// The last component of an identity.
pub fn split_last(name: &str) -> (part: String)
    ensures
        part@ == last_part(name@),
{
    let mut parts = split_on(name, '.');
    let ghost all = texts(parts@);
    let last = parts.pop().unwrap();
    assert(last@ == all.last());
    last
}

} // verus!
