//! The project index: one record per source file, keyed by module identity, and the
//! module identity of each indexed path.

use crate::paths::same_path;
use crate::project::resolve::{
    is_package_file, is_package_marker, module_name, module_name_of, paths_equal, resolve_import,
    resolved_import, ImportSpec, ImportSpecView,
};
use crate::project::utils::{is_python_file, is_python_path};
use crate::text::{lemma_texts_push, str_eq, texts};
use vstd::prelude::*;
use vstd::string::*;

verus! {

/// What is known of one source file.
pub struct ModuleInfo {
    /// The module identity, unique in an index.
    pub module: String,
    /// The path of the file.
    pub path: String,
    /// The identities that its import statements point at, in order.
    pub imports: Vec<String>,
}

/// A module record as plain values.
pub struct ModuleView {
    pub module: Seq<char>,
    pub path: Seq<char>,
    pub imports: Seq<Seq<char>>,
}

impl View for ModuleInfo {
    type V = ModuleView;

    open spec fn view(&self) -> ModuleView {
        ModuleView { module: self.module@, path: self.path@, imports: texts(self.imports@) }
    }
}

/// All the modules of a project.
pub struct ProjectIndex {
    /// The project root.
    pub root: String,
    /// The module records; no two have the same identity.
    pub modules: Vec<ModuleInfo>,
    /// For each indexed file, its path and its module identity; no two entries are for
    /// the same path.
    pub path_to_module: Vec<(String, String)>,
    /// What went wrong while the index was built, in the order of the scan.
    pub warnings: Vec<String>,
}

/// A project index as plain values.
pub struct IndexView {
    pub root: Seq<char>,
    pub modules: Seq<ModuleView>,
    pub paths: Seq<(Seq<char>, Seq<char>)>,
    pub warnings: Seq<Seq<char>>,
}

/// The records of a list of modules.
pub open spec fn module_views(modules: Seq<ModuleInfo>) -> Seq<ModuleView> {
    Seq::new(modules.len(), |i: int| modules[i]@)
}

/// The entries of a list of paths and identities.
pub open spec fn path_views(paths: Seq<(String, String)>) -> Seq<(Seq<char>, Seq<char>)> {
    Seq::new(paths.len(), |i: int| (paths[i].0@, paths[i].1@))
}

impl View for ProjectIndex {
    type V = IndexView;

    open spec fn view(&self) -> IndexView {
        IndexView {
            root: self.root@,
            modules: module_views(self.modules@),
            paths: path_views(self.path_to_module@),
            warnings: texts(self.warnings@),
        }
    }
}

/// One of the records is for the module `name`.
pub open spec fn is_module(modules: Seq<ModuleView>, name: Seq<char>) -> bool {
    exists|i: int| 0 <= i < modules.len() && (#[trigger] modules[i]).module == name
}

/// The position of the record for the module `name`.
pub open spec fn position_of(modules: Seq<ModuleView>, name: Seq<char>) -> int {
    choose|i: int| 0 <= i < modules.len() && (#[trigger] modules[i]).module == name
}

/// The identity that the first entry for `path` gives.
pub open spec fn module_of_path(paths: Seq<(Seq<char>, Seq<char>)>, path: Seq<char>) -> Option<
    Seq<char>,
>
    decreases paths.len(),
{
    if paths.len() == 0 {
        None
    } else if same_path(paths[0].0, path) {
        Some(paths[0].1)
    } else {
        module_of_path(paths.drop_first(), path)
    }
}

impl IndexView {
    /// No identity has two records, no path has two entries, and every entry names a
    /// module that has a record.
    pub open spec fn wf(self) -> bool {
        &&& forall|i: int, j: int|
            0 <= i < j < self.modules.len() ==> (#[trigger] self.modules[i]).module != (
            #[trigger] self.modules[j]).module
        &&& forall|i: int, j: int|
            0 <= i < j < self.paths.len() ==> !same_path(
                (#[trigger] self.paths[i]).0,
                (#[trigger] self.paths[j]).0,
            )
        &&& forall|i: int|
            0 <= i < self.paths.len() ==> is_module(self.modules, (#[trigger] self.paths[i]).1)
    }
}

/// An entry for `path`, where there is one, gives the identity of a module with a record.
pub proof fn lemma_path_names_module(index: IndexView, path: Seq<char>)
    requires
        index.wf(),
    ensures
        module_of_path(index.paths, path) matches Some(m) ==> is_module(index.modules, m),
{
    lemma_path_entry(index.paths, path);
    if module_of_path(index.paths, path) is Some {
        let i = choose|i: int|
            0 <= i < index.paths.len() && module_of_path(index.paths, path) == Some(
                (#[trigger] index.paths[i]).1,
            );
        assert(is_module(index.modules, index.paths[i].1));
    }
}

/// What `module_of_path` gives is the identity of some entry for that path; it gives none
/// only where no entry is for that path.
pub proof fn lemma_path_entry(paths: Seq<(Seq<char>, Seq<char>)>, path: Seq<char>)
    ensures
        module_of_path(paths, path) matches Some(m) ==> exists|i: int|
            0 <= i < paths.len() && same_path((#[trigger] paths[i]).0, path) && m == paths[i].1,
        module_of_path(paths, path) is None ==> forall|i: int|
            0 <= i < paths.len() ==> !same_path((#[trigger] paths[i]).0, path),
    decreases paths.len(),
{
    if paths.len() == 0 {
    } else if same_path(paths[0].0, path) {
    } else {
        let rest = paths.drop_first();
        lemma_path_entry(rest, path);
        if module_of_path(rest, path) is Some {
            let i = choose|i: int|
                0 <= i < rest.len() && same_path((#[trigger] rest[i]).0, path) && module_of_path(
                    rest,
                    path,
                ) == Some(rest[i].1);
            assert(paths[i + 1] == rest[i]);
        } else {
            assert forall|i: int| 0 <= i < paths.len() implies !same_path(
                (#[trigger] paths[i]).0,
                path,
            ) by {
                if i > 0 {
                    assert(paths[i] == rest[i - 1]);
                }
            }
        }
    }
}

/// The records of a list of modules with one more are the records with that one at the
/// end.
pub proof fn lemma_module_views_push(modules: Seq<ModuleInfo>, info: ModuleInfo)
    ensures
        module_views(modules.push(info)) == module_views(modules).push(info@),
{
    assert(module_views(modules.push(info)) =~= module_views(modules).push(info@));
}

/// Putting a module in the place of another puts its record in the place of the other.
pub proof fn lemma_module_views_update(modules: Seq<ModuleInfo>, i: int, info: ModuleInfo)
    requires
        0 <= i < modules.len(),
    ensures
        module_views(modules.update(i, info)) == module_views(modules).update(i, info@),
{
    assert(module_views(modules.update(i, info)) =~= module_views(modules).update(i, info@));
}

/// The entries of a list with one more are the entries with that one at the end.
pub proof fn lemma_path_views_push(paths: Seq<(String, String)>, entry: (String, String))
    ensures
        path_views(paths.push(entry)) == path_views(paths).push((entry.0@, entry.1@)),
{
    assert(path_views(paths.push(entry)) =~= path_views(paths).push((entry.0@, entry.1@)));
}

/// Putting an entry in the place of another does so in the plain values too.
pub proof fn lemma_path_views_update(paths: Seq<(String, String)>, i: int, entry: (String, String))
    requires
        0 <= i < paths.len(),
    ensures
        path_views(paths.update(i, entry)) == path_views(paths).update(i, (entry.0@, entry.1@)),
{
    assert(path_views(paths.update(i, entry)) =~= path_views(paths).update(
        i,
        (entry.0@, entry.1@),
    ));
}

/// What the scan of a project found at one place.
pub enum Scanned {
    /// The walk failed on an entry.
    WalkFailed { message: String },
    /// A file that could not be read.
    Unreadable { path: String },
    /// A file whose text is not a program.
    Unparsable { path: String, message: String },
    /// A file and the import declarations in it, in order.
    Parsed { path: String, imports: Vec<ImportSpec> },
}

/// A finding of the scan as plain values.
pub enum ScannedView {
    WalkFailed { message: Seq<char> },
    Unreadable { path: Seq<char> },
    Unparsable { path: Seq<char>, message: Seq<char> },
    Parsed { path: Seq<char>, imports: Seq<ImportSpecView> },
}

/// The declarations of a list of imports.
pub open spec fn import_views(imports: Seq<ImportSpec>) -> Seq<ImportSpecView> {
    Seq::new(imports.len(), |i: int| imports[i]@)
}

impl View for Scanned {
    type V = ScannedView;

    open spec fn view(&self) -> ScannedView {
        match self {
            Scanned::WalkFailed { message } => ScannedView::WalkFailed { message: message@ },
            Scanned::Unreadable { path } => ScannedView::Unreadable { path: path@ },
            Scanned::Unparsable { path, message } => ScannedView::Unparsable {
                path: path@,
                message: message@,
            },
            Scanned::Parsed { path, imports } => ScannedView::Parsed {
                path: path@,
                imports: import_views(imports@),
            },
        }
    }
}

/// The findings of a scan as plain values.
pub open spec fn scanned_views(entries: Seq<Scanned>) -> Seq<ScannedView> {
    Seq::new(entries.len(), |i: int| entries[i]@)
}

/// The warning for an entry that the walk failed on.
pub open spec fn walk_warning(message: Seq<char>) -> Seq<char> {
    "Skipping entry: "@ + message
}

/// The warning for a file that could not be read.
pub open spec fn unreadable_warning(path: Seq<char>) -> Seq<char> {
    path + ": Failed to read "@ + path
}

/// The warning for a file whose text is not a program.
pub open spec fn unparsable_warning(path: Seq<char>, message: Seq<char>) -> Seq<char> {
    "Failed to parse "@ + path + ": "@ + message
}

/// The identities that the imports of a module point at, those that point nowhere left
/// out.
pub open spec fn resolved_imports(
    module: Seq<char>,
    is_package: bool,
    imports: Seq<ImportSpecView>,
) -> Seq<Seq<char>>
    decreases imports.len(),
{
    if imports.len() == 0 {
        Seq::empty()
    } else {
        let before = resolved_imports(module, is_package, imports.drop_last());
        match resolved_import(module, is_package, imports.last()) {
            Some(target) => before.push(target),
            None => before,
        }
    }
}

/// The record of the file `path` with the import declarations `imports`.
pub open spec fn module_record(
    root: Seq<char>,
    present: Seq<Seq<char>>,
    path: Seq<char>,
    imports: Seq<ImportSpecView>,
) -> ModuleView {
    let module = module_name_of(root, path, present);
    ModuleView {
        module,
        path,
        imports: resolved_imports(module, is_package_marker(path), imports),
    }
}

/// The records with `info` in the place of the record of the same identity, or at the
/// end where there is none.
pub open spec fn with_module(modules: Seq<ModuleView>, info: ModuleView) -> Seq<ModuleView> {
    if is_module(modules, info.module) {
        modules.update(position_of(modules, info.module), info)
    } else {
        modules.push(info)
    }
}

/// There is an entry for `path`.
pub open spec fn has_path(paths: Seq<(Seq<char>, Seq<char>)>, path: Seq<char>) -> bool {
    exists|i: int| 0 <= i < paths.len() && same_path((#[trigger] paths[i]).0, path)
}

/// The position of the entry for `path`.
pub open spec fn path_position(paths: Seq<(Seq<char>, Seq<char>)>, path: Seq<char>) -> int {
    choose|i: int| 0 <= i < paths.len() && same_path((#[trigger] paths[i]).0, path)
}

/// The entries with `(path, module)` in the place of the entry for the same path, or at
/// the end where there is none.
pub open spec fn with_path(
    paths: Seq<(Seq<char>, Seq<char>)>,
    path: Seq<char>,
    module: Seq<char>,
) -> Seq<(Seq<char>, Seq<char>)> {
    if has_path(paths, path) {
        paths.update(path_position(paths, path), (path, module))
    } else {
        paths.push((path, module))
    }
}

/// The index after one more finding of the scan: a failure adds a warning, a parsed
/// source file adds or replaces a record, and a file without the source-file extension
/// changes nothing.
pub open spec fn scan_step(index: IndexView, present: Seq<Seq<char>>, found: ScannedView) -> IndexView {
    match found {
        ScannedView::WalkFailed { message } => IndexView {
            warnings: index.warnings.push(walk_warning(message)),
            ..index
        },
        ScannedView::Unreadable { path } => if is_python_path(path) {
            IndexView { warnings: index.warnings.push(unreadable_warning(path)), ..index }
        } else {
            index
        },
        ScannedView::Unparsable { path, message } => if is_python_path(path) {
            IndexView { warnings: index.warnings.push(unparsable_warning(path, message)), ..index }
        } else {
            index
        },
        ScannedView::Parsed { path, imports } => if is_python_path(path) {
            let info = module_record(index.root, present, path, imports);
            IndexView {
                modules: with_module(index.modules, info),
                paths: with_path(index.paths, path, info.module),
                ..index
            }
        } else {
            index
        },
    }
}

/// The index of the project at `root` after the findings `entries`, in order.
pub open spec fn scanned_index(
    root: Seq<char>,
    present: Seq<Seq<char>>,
    entries: Seq<ScannedView>,
) -> IndexView
    decreases entries.len(),
{
    if entries.len() == 0 {
        IndexView {
            root,
            modules: Seq::empty(),
            paths: Seq::empty(),
            warnings: Seq::empty(),
        }
    } else {
        scan_step(scanned_index(root, present, entries.drop_last()), present, entries.last())
    }
}

/// A well-formed index stays well-formed with one more finding.
pub proof fn lemma_scan_step_wf(index: IndexView, present: Seq<Seq<char>>, found: ScannedView)
    requires
        index.wf(),
    ensures
        scan_step(index, present, found).wf(),
        scan_step(index, present, found).root == index.root,
{
    let next = scan_step(index, present, found);
    match found {
        ScannedView::Parsed { path, imports } => {
            if is_python_path(path) {
                let info = module_record(index.root, present, path, imports);
                let modules = with_module(index.modules, info);
                let paths = with_path(index.paths, path, info.module);
                if is_module(index.modules, info.module) {
                    let p = position_of(index.modules, info.module);
                    assert(modules[p].module == info.module);
                    assert forall|i: int| 0 <= i < modules.len() implies (#[trigger] modules[i]).module
                        == index.modules[i].module by {}
                } else {
                    assert(modules[index.modules.len() as int].module == info.module);
                    assert forall|i: int| 0 <= i < index.modules.len() implies (
                    #[trigger] modules[i]).module == index.modules[i].module by {}
                }
                assert forall|name: Seq<char>| is_module(index.modules, name) implies is_module(
                    modules,
                    name,
                ) by {
                    let i = choose|i: int|
                        0 <= i < index.modules.len() && (#[trigger] index.modules[i]).module
                            == name;
                    assert(modules[i].module == name);
                }
                assert(is_module(modules, info.module));
                if has_path(index.paths, path) {
                    let p = path_position(index.paths, path);
                    assert forall|i: int, j: int| 0 <= i < j < paths.len() implies !same_path(
                        (#[trigger] paths[i]).0,
                        (#[trigger] paths[j]).0,
                    ) by {
                        assert(!same_path(index.paths[i].0, index.paths[j].0));
                    }
                    assert forall|i: int| 0 <= i < paths.len() implies is_module(
                        modules,
                        (#[trigger] paths[i]).1,
                    ) by {
                        if i != p {
                            assert(is_module(index.modules, index.paths[i].1));
                        }
                    }
                } else {
                    assert forall|i: int, j: int| 0 <= i < j < paths.len() implies !same_path(
                        (#[trigger] paths[i]).0,
                        (#[trigger] paths[j]).0,
                    ) by {
                        if j < index.paths.len() {
                            assert(!same_path(index.paths[i].0, index.paths[j].0));
                        } else {
                            assert(!same_path(index.paths[i].0, path));
                        }
                    }
                    assert forall|i: int| 0 <= i < paths.len() implies is_module(
                        modules,
                        (#[trigger] paths[i]).1,
                    ) by {
                        if i < index.paths.len() {
                            assert(is_module(index.modules, index.paths[i].1));
                        }
                    }
                }
                assert(next.modules == modules);
                assert(next.paths == paths);
            }
        },
        _ => {},
    }
}

/// The index that a scan gives is well-formed.
pub proof fn lemma_scanned_index_wf(root: Seq<char>, present: Seq<Seq<char>>, entries: Seq<ScannedView>)
    ensures
        scanned_index(root, present, entries).wf(),
        scanned_index(root, present, entries).root == root,
    decreases entries.len(),
{
    if entries.len() > 0 {
        lemma_scanned_index_wf(root, present, entries.drop_last());
        lemma_scan_step_wf(
            scanned_index(root, present, entries.drop_last()),
            present,
            entries.last(),
        );
    }
}

/// The three texts laid end to end.
pub fn concat3(a: &str, b: &str, c: &str) -> (out: String)
    ensures
        out@ == a@ + b@ + c@,
{
    let mut out = String::new();
    out.append(a);
    out.append(b);
    out.append(c);
    assert(out@ =~= a@ + b@ + c@);
    out
}

impl ProjectIndex {
    /// The position of the record for the module `name`, if there is one.
    pub fn find_module(&self, name: &str) -> (found: Option<usize>)
        ensures
            found is Some == is_module(self@.modules, name@),
            found matches Some(i) ==> i < self@.modules.len() && self@.modules[i as int].module
                == name@ && forall|j: int|
                0 <= j < i ==> (#[trigger] self@.modules[j]).module != name@,
    {
        let mut i: usize = 0;
        while i < self.modules.len()
            invariant
                i <= self.modules.len(),
                forall|j: int| 0 <= j < i ==> (#[trigger] self@.modules[j]).module != name@,
            decreases self.modules.len() - i,
        {
            if str_eq(self.modules[i].module.as_str(), name) {
                assert(self@.modules[i as int].module == name@);
                return Some(i);
            }
            i += 1;
        }
        None
    }

    /// The position of the entry for `path`, if there is one.
    pub fn find_path(&self, path: &str) -> (found: Option<usize>)
        ensures
            found is Some == has_path(self@.paths, path@),
            found matches Some(i) ==> i < self@.paths.len() && same_path(
                self@.paths[i as int].0,
                path@,
            ) && module_of_path(self@.paths, path@) == Some(self@.paths[i as int].1)
                && forall|j: int| 0 <= j < i ==> !same_path((#[trigger] self@.paths[j]).0, path@),
            found is None ==> module_of_path(self@.paths, path@) is None,
    {
        let ghost paths = self@.paths;
        let mut i: usize = 0;
        assert(paths.skip(0) =~= paths);
        while i < self.path_to_module.len()
            invariant
                i <= self.path_to_module.len(),
                paths == self@.paths,
                forall|j: int| 0 <= j < i ==> !same_path((#[trigger] paths[j]).0, path@),
                module_of_path(paths, path@) == module_of_path(paths.skip(i as int), path@),
            decreases self.path_to_module.len() - i,
        {
            let ghost rest = paths.skip(i as int);
            assert(rest[0] == paths[i as int]);
            assert(rest.drop_first() =~= paths.skip(i + 1));
            if paths_equal(self.path_to_module[i].0.as_str(), path) {
                assert(same_path(paths[i as int].0, path@));
                return Some(i);
            }
            i += 1;
        }
        assert(paths.skip(i as int).len() == 0);
        None
    }

    /// Whether no identity has two records.
    pub fn has_distinct_modules(&self) -> (ok: bool)
        ensures
            ok == (forall|i: int, j: int|
                0 <= i < j < self@.modules.len() ==> (#[trigger] self@.modules[i]).module != (
                #[trigger] self@.modules[j]).module),
    {
        let ghost modules = self@.modules;
        let mut j: usize = 0;
        while j < self.modules.len()
            invariant
                j <= self.modules.len(),
                modules == self@.modules,
                forall|a: int, b: int|
                    0 <= a < b < j ==> (#[trigger] modules[a]).module != (
                    #[trigger] modules[b]).module,
            decreases self.modules.len() - j,
        {
            let mut i: usize = 0;
            while i < j
                invariant
                    i <= j < self.modules.len(),
                    modules == self@.modules,
                    forall|a: int| 0 <= a < i ==> (#[trigger] modules[a]).module != modules[j as int].module,
                decreases j - i,
            {
                if str_eq(self.modules[i].module.as_str(), self.modules[j].module.as_str()) {
                    assert(modules[i as int].module == modules[j as int].module);
                    return false;
                }
                i += 1;
            }
            j += 1;
        }
        true
    }

    /// Whether no path has two entries.
    pub fn has_distinct_paths(&self) -> (ok: bool)
        ensures
            ok == (forall|i: int, j: int|
                0 <= i < j < self@.paths.len() ==> !same_path(
                    (#[trigger] self@.paths[i]).0,
                    (#[trigger] self@.paths[j]).0,
                )),
    {
        let ghost paths = self@.paths;
        let mut j: usize = 0;
        while j < self.path_to_module.len()
            invariant
                j <= self.path_to_module.len(),
                paths == self@.paths,
                forall|a: int, b: int|
                    0 <= a < b < j ==> !same_path((#[trigger] paths[a]).0, (#[trigger] paths[b]).0),
            decreases self.path_to_module.len() - j,
        {
            let mut i: usize = 0;
            while i < j
                invariant
                    i <= j < self.path_to_module.len(),
                    paths == self@.paths,
                    forall|a: int| 0 <= a < i ==> !same_path((#[trigger] paths[a]).0, paths[j as int].0),
                decreases j - i,
            {
                if paths_equal(
                    self.path_to_module[i].0.as_str(),
                    self.path_to_module[j].0.as_str(),
                ) {
                    assert(same_path(paths[i as int].0, paths[j as int].0));
                    return false;
                }
                i += 1;
            }
            j += 1;
        }
        true
    }

    /// Whether the index is well-formed: no identity has two records, no path has two
    /// entries, and every entry names a module that has a record.
    pub fn is_well_formed(&self) -> (ok: bool)
        ensures
            ok == self@.wf(),
    {
        if !self.has_distinct_modules() || !self.has_distinct_paths() {
            return false;
        }
        let ghost index = self@;
        let mut i: usize = 0;
        while i < self.path_to_module.len()
            invariant
                i <= self.path_to_module.len(),
                index == self@,
                forall|a: int| 0 <= a < i ==> is_module(index.modules, (#[trigger] index.paths[a]).1),
            decreases self.path_to_module.len() - i,
        {
            if self.find_module(self.path_to_module[i].1.as_str()).is_none() {
                assert(!is_module(index.modules, index.paths[i as int].1));
                return false;
            }
            i += 1;
        }
        true
    }

    /// The index without any module: what a scan starts from.
    pub fn empty(root: &str) -> (index: ProjectIndex)
        ensures
            index@ == scanned_index(root@, Seq::empty(), Seq::empty()),
            index@.wf(),
    {
        let index = ProjectIndex {
            root: root.to_owned(),
            modules: Vec::new(),
            path_to_module: Vec::new(),
            warnings: Vec::new(),
        };
        assert(index@.modules =~= Seq::empty());
        assert(index@.paths =~= Seq::empty());
        assert(index@.warnings =~= Seq::empty());
        index
    }

    /// Adds the record `info`, in the place of the record of the same identity and of the
    /// entry for the same path where there are such.
    pub fn register(&mut self, info: ModuleInfo)
        requires
            old(self)@.wf(),
        ensures
            final(self)@ == (IndexView {
                modules: with_module(old(self)@.modules, info@),
                paths: with_path(old(self)@.paths, info@.path, info@.module),
                ..old(self)@
            }),
    {
        let ghost before = self@;
        let entry = (info.path.clone(), info.module.clone());
        match self.find_path(info.path.as_str()) {
            Some(i) => {
                proof {
                    lemma_path_views_update(self.path_to_module@, i as int, entry);
                    let p = path_position(before.paths, info@.path);
                    assert(same_path(before.paths[p].0, before.paths[i as int].0));
                    assert(p == i);
                }
                self.path_to_module.set(i, entry);
            },
            None => {
                proof {
                    lemma_path_views_push(self.path_to_module@, entry);
                }
                self.path_to_module.push(entry);
            },
        }
        assert(self@.paths == with_path(before.paths, info@.path, info@.module));
        assert(self@.modules == before.modules);
        match self.find_module(info.module.as_str()) {
            Some(i) => {
                proof {
                    lemma_module_views_update(self.modules@, i as int, info);
                    let p = position_of(before.modules, info@.module);
                    assert(before.modules[p].module == before.modules[i as int].module);
                    assert(p == i);
                }
                self.modules.set(i, info);
            },
            None => {
                proof {
                    lemma_module_views_push(self.modules@, info);
                }
                self.modules.push(info);
            },
        }
    }

    /// The index of the project at `root`, from what a scan of it found: `entries` in the
    /// order of the scan, and `present`, the files that exist. Where two files have one
    /// identity, the one that the scan met last has the record.
    pub fn build(root: &str, entries: Vec<Scanned>, present: &Vec<String>) -> (index: ProjectIndex)
        ensures
            index@ == scanned_index(root@, texts(present@), scanned_views(entries@)),
            index@.wf(),
    {
        let ghost files = texts(present@);
        let ghost all = scanned_views(entries@);
        let mut index = ProjectIndex::empty(root);
        assert(index@ == scanned_index(root@, files, all.take(0))) by {
            assert(all.take(0) =~= Seq::<ScannedView>::empty());
        }
        let mut i: usize = 0;
        while i < entries.len()
            invariant
                i <= entries.len(),
                files == texts(present@),
                all == scanned_views(entries@),
                index@ == scanned_index(root@, files, all.take(i as int)),
                index@.wf(),
                index@.root == root@,
            decreases entries.len() - i,
        {
            let ghost before = index@;
            proof {
                let next = all.take(i + 1);
                assert(next.drop_last() =~= all.take(i as int));
                assert(next.last() == entries@[i as int]@);
                lemma_scan_step_wf(before, files, entries@[i as int]@);
            }
            match &entries[i] {
                Scanned::WalkFailed { message } => {
                    let warning = concat3("Skipping entry: ", message.as_str(), "");
                    proof {
                        assert(warning@ =~= walk_warning(message@)) by {
                            reveal_strlit("");
                        }
                        lemma_texts_push(index.warnings@, warning);
                    }
                    index.warnings.push(warning);
                },
                Scanned::Unreadable { path } => {
                    if is_python_file(path.as_str()) {
                        let warning = concat3(path.as_str(), ": Failed to read ", path.as_str());
                        proof {
                            lemma_texts_push(index.warnings@, warning);
                        }
                        index.warnings.push(warning);
                    }
                },
                Scanned::Unparsable { path, message } => {
                    if is_python_file(path.as_str()) {
                        let mut warning = concat3("Failed to parse ", path.as_str(), ": ");
                        warning.append(message.as_str());
                        proof {
                            assert(warning@ =~= unparsable_warning(path@, message@));
                            lemma_texts_push(index.warnings@, warning);
                        }
                        index.warnings.push(warning);
                    }
                },
                Scanned::Parsed { path, imports } => {
                    if is_python_file(path.as_str()) {
                        let info = ModuleInfo::record(root, present, path.as_str(), imports);
                        index.register(info);
                    }
                },
            }
            assert(index@ == scan_step(before, files, entries@[i as int]@));
            i += 1;
        }
        assert(all.take(entries.len() as int) =~= all);
        index
    }
}

impl ModuleInfo {
    /// The record of the file `path` with the import declarations `imports`.
    pub fn record(root: &str, present: &Vec<String>, path: &str, imports: &Vec<ImportSpec>) -> (info:
        ModuleInfo)
        ensures
            info@ == module_record(root@, texts(present@), path@, import_views(imports@)),
    {
        let module = module_name(root, path, present);
        let is_package = is_package_file(path);
        let ghost all = import_views(imports@);
        let mut targets: Vec<String> = Vec::new();
        assert(texts(targets@) =~= resolved_imports(module@, is_package, all.take(0))) by {
            assert(all.take(0) =~= Seq::<ImportSpecView>::empty());
        }
        let mut i: usize = 0;
        while i < imports.len()
            invariant
                i <= imports.len(),
                all == import_views(imports@),
                texts(targets@) == resolved_imports(module@, is_package, all.take(i as int)),
            decreases imports.len() - i,
        {
            proof {
                let next = all.take(i + 1);
                assert(next.drop_last() =~= all.take(i as int));
                assert(next.last() == imports@[i as int]@);
            }
            match resolve_import(module.as_str(), is_package, &imports[i]) {
                Some(target) => {
                    proof {
                        lemma_texts_push(targets@, target);
                    }
                    targets.push(target);
                },
                None => {},
            }
            i += 1;
        }
        assert(all.take(imports.len() as int) =~= all);
        ModuleInfo { module, path: path.to_owned(), imports: targets }
    }
}

} // verus!
