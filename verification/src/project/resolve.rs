//! Module identities: the identity of a file, and the identity that an import statement
//! points at.

use crate::paths::{
    components_of, file_name_of, file_stem_of, joined, parent_of, path_components, path_file_name,
    path_file_stem, path_join, path_parent, path_strip_prefix, same_path, stripped_prefix,
};
use crate::text::{
    chars_have_suffix, chars_of, has_suffix, join, join_with, lemma_split_join, lemma_texts_add,
    lemma_texts_push, lemma_texts_take, split, split_on, str_eq, string_of_range, texts,
};
use vstd::prelude::*;
use vstd::string::*;

verus! {

/// The two shapes of import statement.
#[derive(Clone, Copy, Debug, PartialEq, Eq, Structural)]
pub enum ImportKind {
    /// `import a.b`
    Import,
    /// `from a import b`
    ImportFrom,
}

/// One import declaration as written in a source file.
#[derive(Clone, Debug)]
pub struct ImportSpec {
    /// Number of leading dots; 0 for an absolute import.
    pub level: u32,
    /// The dotted module path, if any.
    pub module: Option<String>,
    /// The imported symbol; `*` stands for a wildcard.
    pub name: Option<String>,
    pub kind: ImportKind,
}

/// An import declaration as plain values.
pub struct ImportSpecView {
    pub level: nat,
    pub module: Option<Seq<char>>,
    pub name: Option<Seq<char>>,
    pub kind: ImportKind,
}

impl View for ImportSpec {
    type V = ImportSpecView;

    open spec fn view(&self) -> ImportSpecView {
        ImportSpecView {
            level: self.level as nat,
            module: crate::paths::opt_text(self.module),
            name: crate::paths::opt_text(self.name),
            kind: self.kind,
        }
    }
}

/// The separator of module identities.
pub open spec fn dot() -> Seq<char> {
    seq!['.']
}

/// The components that a relative import keeps of the module it stands in: none for an
/// absolute import; all of them for a package marker importing at level 1; otherwise all
/// but the last `level`, or none where there are no more than that.
pub open spec fn import_base(current: Seq<char>, is_package: bool, level: nat) -> Seq<Seq<char>> {
    let parts = split(current, '.');
    if level == 0 {
        Seq::empty()
    } else if is_package && level == 1 {
        parts
    } else if level >= parts.len() {
        Seq::empty()
    } else {
        parts.take(parts.len() - level)
    }
}

/// The components of the module path of an import.
pub open spec fn import_module_parts(module: Option<Seq<char>>) -> Seq<Seq<char>> {
    match module {
        Some(m) => if m.len() == 0 {
            Seq::empty()
        } else {
            split(m, '.')
        },
        None => Seq::empty(),
    }
}

/// The imported symbol of a from-import, unless it is the wildcard.
pub open spec fn import_name_parts(kind: ImportKind, name: Option<Seq<char>>) -> Seq<Seq<char>> {
    match name {
        Some(n) => if kind == ImportKind::ImportFrom && n != seq!['*'] {
            seq![n]
        } else {
            Seq::empty()
        },
        None => Seq::empty(),
    }
}

/// The components of the identity that an import points at.
pub open spec fn import_parts(current: Seq<char>, is_package: bool, spec: ImportSpecView) -> Seq<
    Seq<char>,
> {
    import_base(current, is_package, spec.level) + import_module_parts(spec.module)
        + import_name_parts(spec.kind, spec.name)
}

/// The identity that an import points at; none where it has no component.
pub open spec fn resolved_import(
    current: Seq<char>,
    is_package: bool,
    spec: ImportSpecView,
) -> Option<Seq<char>> {
    let parts = import_parts(current, is_package, spec);
    if parts.len() == 0 {
        None
    } else {
        Some(join(parts, dot()))
    }
}

/// The identity that `spec`, written in module `current_module`, points at.
pub fn resolve_import(current_module: &str, is_package: bool, spec: &ImportSpec) -> (target:
    Option<String>)
    ensures
        crate::paths::opt_text(target) == resolved_import(current_module@, is_package, spec@),
{
    let mut parts: Vec<String> = Vec::new();
    assert(texts(parts@) =~= Seq::<Seq<char>>::empty());
    if spec.level > 0 {
        parts = split_on(current_module, '.');
        if !(is_package && spec.level == 1) {
            let level: usize = spec.level as usize;
            let keep: usize = if level >= parts.len() {
                0
            } else {
                parts.len() - level
            };
            proof {
                lemma_texts_take(parts@, keep as int);
                assert(texts(parts@).take(0) =~= Seq::<Seq<char>>::empty());
            }
            parts.truncate(keep);
        }
    }
    assert(texts(parts@) == import_base(current_module@, is_package, spec@.level));
    match &spec.module {
        Some(module) => {
            if !module.as_str().is_empty() {
                let mut more = split_on(module.as_str(), '.');
                proof {
                    lemma_texts_add(parts@, more@);
                }
                parts.append(&mut more);
            }
        },
        None => {},
    }
    assert(texts(parts@) == import_base(current_module@, is_package, spec@.level)
        + import_module_parts(spec@.module)) by {
        assert(texts(parts@) + Seq::<Seq<char>>::empty() =~= texts(parts@));
    }
    let ghost before = texts(parts@);
    match spec.kind {
        ImportKind::ImportFrom => {
            match &spec.name {
                Some(name) => {
                    proof {
                        reveal_strlit("*");
                        assert("*"@ =~= seq!['*']);
                    }
                    if !str_eq(name.as_str(), "*") {
                        proof {
                            lemma_texts_push(parts@, *name);
                        }
                        parts.push(name.clone());
                    }
                },
                None => {},
            }
        },
        ImportKind::Import => {},
    }
    assert(texts(parts@) == import_parts(current_module@, is_package, spec@)) by {
        let tail = import_name_parts(spec@.kind, spec@.name);
        assert(tail.len() == 0 ==> before + tail =~= before);
        assert(tail.len() == 1 ==> before + tail =~= before.push(tail[0]));
    }
    if parts.len() == 0 {
        None
    } else {
        proof {
            reveal_strlit(".");
            assert("."@ =~= dot());
        }
        Some(join_with(&parts, "."))
    }
}

/// The package marker: a directory that holds a file of this name is a package.
pub open spec fn package_marker() -> Seq<char> {
    "__init__.py"@
}

/// One of the files in `present` is the file `path`.
pub open spec fn is_present(present: Seq<Seq<char>>, path: Seq<char>) -> bool {
    exists|i: int| 0 <= i < present.len() && same_path(#[trigger] present[i], path)
}

/// The directory `dir` holds a package marker.
pub open spec fn is_package_dir(dir: Seq<char>, present: Seq<Seq<char>>) -> bool {
    is_present(present, joined(dir, package_marker()))
}

/// The file name of `dir` as a list of at most one component.
pub open spec fn dir_name_part(dir: Seq<char>) -> Seq<Seq<char>> {
    match file_name_of(dir) {
        Some(n) => seq![n],
        None => Seq::empty(),
    }
}

/// The names of the package directories met on the way up from `dir`, innermost first:
/// the walk goes on while each directory holds a package marker.
pub open spec fn package_chain(dir: Seq<char>, present: Seq<Seq<char>>) -> Seq<Seq<char>>
    decreases dir.len(),
{
    if !is_package_dir(dir, present) {
        Seq::empty()
    } else {
        match parent_of(dir) {
            Some(up) => if up.len() < dir.len() {
                dir_name_part(dir) + package_chain(up, present)
            } else {
                dir_name_part(dir)
            },
            None => dir_name_part(dir),
        }
    }
}

/// The names of the packages that enclose the file `path`, outermost first.
pub open spec fn package_prefix(path: Seq<char>, present: Seq<Seq<char>>) -> Seq<Seq<char>> {
    match parent_of(path) {
        Some(dir) => package_chain(dir, present).reverse(),
        None => Seq::empty(),
    }
}

/// The stem of `path`, or the empty text where it has none.
pub open spec fn stem_or_empty(path: Seq<char>) -> Seq<char> {
    match file_stem_of(path) {
        Some(s) => s,
        None => Seq::empty(),
    }
}

/// `path` is a package marker file.
pub open spec fn is_package_marker(path: Seq<char>) -> bool {
    file_stem_of(path) == Some("__init__"@)
}

/// `name` without the source-file extension, where it ends with one.
pub open spec fn without_py(name: Seq<char>) -> Seq<char> {
    if has_suffix(name, ".py"@) {
        name.take(name.len() - ".py"@.len())
    } else {
        name
    }
}

/// The components of `path` as far as it lies below `root`, all of them where it does
/// not.
pub open spec fn relative_components(root: Seq<char>, path: Seq<char>) -> Seq<Seq<char>> {
    components_of(
        match stripped_prefix(path, root) {
            Some(r) => r,
            None => path,
        },
    )
}

/// The components with the last one without the source-file extension.
pub open spec fn without_last_py(parts: Seq<Seq<char>>) -> Seq<Seq<char>> {
    if parts.len() == 0 {
        parts
    } else {
        parts.drop_last().push(without_py(parts.last()))
    }
}

/// The module identity of a file with the enclosing packages `packages`, outermost
/// first, the stem `stem`, and the components `components` below the root: the packages
/// alone for a package marker; the packages and the stem where there are packages; else
/// the components, the last without the source-file extension; with dots between them.
pub open spec fn dotted_name(
    packages: Seq<Seq<char>>,
    stem: Seq<char>,
    components: Seq<Seq<char>>,
) -> Seq<char> {
    if stem == "__init__"@ {
        join(packages, dot())
    } else if packages.len() > 0 {
        join(packages.push(stem), dot())
    } else {
        join(without_last_py(components), dot())
    }
}

/// The module identity of the file `path` in the project at `root`, where `present` lists
/// the files that exist. With enclosing packages, it is their names and, unless the file
/// is itself a package marker, the file's stem; without any, the dotted form of the path
/// below the root.
pub open spec fn module_name_of(root: Seq<char>, path: Seq<char>, present: Seq<Seq<char>>) -> Seq<
    char,
> {
    dotted_name(package_prefix(path, present), stem_or_empty(path), relative_components(root, path))
}

/// The identity of a file depends on which files exist only through which directories
/// are packages: two listings that agree on that give every file the same chain of
/// enclosing packages.
pub proof fn lemma_package_chain_by_ancestry(
    dir: Seq<char>,
    first: Seq<Seq<char>>,
    second: Seq<Seq<char>>,
)
    requires
        forall|d: Seq<char>| is_package_dir(d, first) == is_package_dir(d, second),
    ensures
        package_chain(dir, first) == package_chain(dir, second),
    decreases dir.len(),
{
    if is_package_dir(dir, first) {
        match parent_of(dir) {
            Some(up) => {
                if up.len() < dir.len() {
                    lemma_package_chain_by_ancestry(up, first, second);
                }
            },
            None => {},
        }
    }
}

/// The module identity of a file is determined by its path, the root, and the package
/// ancestry of the path: whatever else exists makes no difference.
pub proof fn lemma_module_name_by_ancestry(
    root: Seq<char>,
    path: Seq<char>,
    first: Seq<Seq<char>>,
    second: Seq<Seq<char>>,
)
    requires
        forall|d: Seq<char>| is_package_dir(d, first) == is_package_dir(d, second),
    ensures
        module_name_of(root, path, first) == module_name_of(root, path, second),
{
    match parent_of(path) {
        Some(dir) => {
            lemma_package_chain_by_ancestry(dir, first, second);
        },
        None => {},
    }
}

/// A from-import of `name` at level 1, written in the module `outer.last` that is no
/// package marker, points at `outer.name`: the base is the enclosing package.
pub proof fn lemma_sibling_import(outer: Seq<Seq<char>>, last: Seq<char>, name: Seq<char>)
    requires
        forall|i: int| 0 <= i < outer.len() ==> !(#[trigger] outer[i]).contains('.'),
        !last.contains('.'),
        name != seq!['*'],
    ensures
        resolved_import(
            join(outer.push(last), dot()),
            false,
            ImportSpecView { level: 1, module: None, name: Some(name), kind: ImportKind::ImportFrom },
        ) == Some(join(outer.push(name), dot())),
{
    let parts = outer.push(last);
    lemma_split_join(parts, '.');
    assert(parts.take(parts.len() - 1) =~= outer);
    let spec = ImportSpecView {
        level: 1,
        module: None,
        name: Some(name),
        kind: ImportKind::ImportFrom,
    };
    assert(import_parts(join(parts, dot()), false, spec) =~= outer.push(name));
}

/// A from-import of `name` at level 2, written in the module `outer.middle.last` that is
/// no package marker, points at `outer.name`: two components are removed.
pub proof fn lemma_uncle_import(
    outer: Seq<Seq<char>>,
    middle: Seq<char>,
    last: Seq<char>,
    name: Seq<char>,
)
    requires
        forall|i: int| 0 <= i < outer.len() ==> !(#[trigger] outer[i]).contains('.'),
        !middle.contains('.'),
        !last.contains('.'),
        name != seq!['*'],
    ensures
        resolved_import(
            join(outer.push(middle).push(last), dot()),
            false,
            ImportSpecView { level: 2, module: None, name: Some(name), kind: ImportKind::ImportFrom },
        ) == Some(join(outer.push(name), dot())),
{
    let parts = outer.push(middle).push(last);
    lemma_split_join(parts, '.');
    assert(parts.take(parts.len() - 2) =~= outer);
    let spec = ImportSpecView {
        level: 2,
        module: None,
        name: Some(name),
        kind: ImportKind::ImportFrom,
    };
    assert(import_parts(join(parts, dot()), false, spec) =~= outer.push(name));
}

/// A from-import of `name` at level 1, written in the package marker of the package
/// `parts`, points at `parts.name`: no component is removed.
pub proof fn lemma_package_import(parts: Seq<Seq<char>>, name: Seq<char>)
    requires
        parts.len() >= 1,
        forall|i: int| 0 <= i < parts.len() ==> !(#[trigger] parts[i]).contains('.'),
        name != seq!['*'],
    ensures
        resolved_import(
            join(parts, dot()),
            true,
            ImportSpecView { level: 1, module: None, name: Some(name), kind: ImportKind::ImportFrom },
        ) == Some(join(parts.push(name), dot())),
{
    lemma_split_join(parts, '.');
    let spec = ImportSpecView {
        level: 1,
        module: None,
        name: Some(name),
        kind: ImportKind::ImportFrom,
    };
    assert(import_parts(join(parts, dot()), true, spec) =~= parts.push(name));
}

/// Whether two lists of strings hold the same texts.
pub fn same_texts(a: &Vec<String>, b: &Vec<String>) -> (eq: bool)
    ensures
        eq == (texts(a@) == texts(b@)),
{
    if a.len() != b.len() {
        assert(texts(a@).len() != texts(b@).len());
        return false;
    }
    let mut i: usize = 0;
    while i < a.len()
        invariant
            i <= a.len(),
            a.len() == b.len(),
            forall|j: int| 0 <= j < i ==> a@[j]@ == b@[j]@,
        decreases a.len() - i,
    {
        if !str_eq(a[i].as_str(), b[i].as_str()) {
            assert(texts(a@)[i as int] != texts(b@)[i as int]);
            return false;
        }
        i += 1;
    }
    assert(texts(a@) =~= texts(b@));
    true
}

/// Whether two path texts name the same path.
pub fn paths_equal(a: &str, b: &str) -> (eq: bool)
    ensures
        eq == same_path(a@, b@),
{
    let x = path_components(a);
    let y = path_components(b);
    same_texts(&x, &y)
}

/// Whether one of the files in `present` is the file `path`.
pub fn file_is_present(present: &Vec<String>, path: &str) -> (found: bool)
    ensures
        found == is_present(texts(present@), path@),
{
    let target = path_components(path);
    let mut i: usize = 0;
    while i < present.len()
        invariant
            i <= present.len(),
            texts(target@) == components_of(path@),
            forall|j: int| 0 <= j < i ==> !same_path(#[trigger] texts(present@)[j], path@),
        decreases present.len() - i,
    {
        let here = path_components(present[i].as_str());
        if same_texts(&here, &target) {
            assert(same_path(texts(present@)[i as int], path@));
            return true;
        }
        i += 1;
    }
    false
}

/// Whether the directory `dir` holds a package marker.
pub fn dir_is_package(dir: &str, present: &Vec<String>) -> (marked: bool)
    ensures
        marked == is_package_dir(dir@, texts(present@)),
{
    let marker = path_join(dir, "__init__.py");
    file_is_present(present, marker.as_str())
}

/// The names of the packages that enclose the file `path`, outermost first.
pub fn enclosing_packages(path: &str, present: &Vec<String>) -> (names: Vec<String>)
    ensures
        texts(names@) == package_prefix(path@, texts(present@)),
{
    let ghost files = texts(present@);
    let mut inner_first: Vec<String> = Vec::new();
    let mut current: Option<String> = path_parent(path);
    let ghost start = parent_of(path@);
    assert(texts(inner_first@) =~= Seq::<Seq<char>>::empty());
    while current.is_some()
        invariant
            files == texts(present@),
            start == parent_of(path@),
            start is None ==> current is None && inner_first@.len() == 0,
            start is Some ==> package_chain(start->0, files) == texts(inner_first@) + (
            match current {
                Some(d) => package_chain(d@, files),
                None => Seq::empty(),
            }),
        decreases
                (match current {
                    Some(d) => d@.len() + 1,
                    None => 0,
                }),
    {
        let dir = current.unwrap();
        if !dir_is_package(dir.as_str(), present) {
            current = None;
        } else {
            let ghost so_far = texts(inner_first@);
            match path_file_name(dir.as_str()) {
                Some(n) => {
                    proof {
                        lemma_texts_push(inner_first@, n);
                    }
                    inner_first.push(n);
                },
                None => {},
            }
            assert(texts(inner_first@) =~= so_far + dir_name_part(dir@));
            current = path_parent(dir.as_str());
            assert(package_chain(start->0, files) == texts(inner_first@) + (match current {
                Some(d) => package_chain(d@, files),
                None => Seq::empty(),
            })) by {
                let rest = match current {
                    Some(d) => package_chain(d@, files),
                    None => Seq::empty(),
                };
                assert(package_chain(dir@, files) == dir_name_part(dir@) + rest) by {
                    assert(dir_name_part(dir@) + Seq::<Seq<char>>::empty() =~= dir_name_part(
                        dir@,
                    ));
                }
                assert(so_far + (dir_name_part(dir@) + rest) =~= (so_far + dir_name_part(dir@))
                    + rest);
            }
        }
    }
    assert(start is Some ==> package_chain(start->0, files) == texts(inner_first@)) by {
        assert(texts(inner_first@) + Seq::<Seq<char>>::empty() =~= texts(inner_first@));
    }
    let mut names: Vec<String> = Vec::new();
    let ghost all = texts(inner_first@);
    assert(texts(names@) =~= Seq::<Seq<char>>::empty());
    while inner_first.len() > 0
        invariant
            inner_first@.len() <= all.len(),
            texts(inner_first@) == all.take(inner_first@.len() as int),
            texts(names@) == all.skip(inner_first@.len() as int).reverse(),
        decreases inner_first.len(),
    {
        let ghost n = inner_first@.len() as int;
        let ghost held = inner_first@;
        let last = inner_first.pop().unwrap();
        proof {
            lemma_texts_push(names@, last);
            assert(last@ == texts(held)[n - 1]);
            assert(texts(inner_first@) =~= all.take(n - 1));
            assert(all.skip(n - 1).reverse() =~= all.skip(n).reverse().push(all[n - 1]));
        }
        names.push(last);
    }
    assert(all.skip(0) =~= all);
    names
}

/// Whether `path` is a package marker file.
pub fn is_package_file(path: &str) -> (marker: bool)
    ensures
        marker == is_package_marker(path@),
{
    match path_file_stem(path) {
        Some(stem) => str_eq(stem.as_str(), "__init__"),
        None => false,
    }
}

/// The module identity of a file with the enclosing packages `packages`, outermost
/// first, the stem `stem`, and the components `components` below the root.
pub fn dotted_module_name(packages: Vec<String>, stem: String, components: Vec<String>) -> (name:
    String)
    ensures
        name@ == dotted_name(texts(packages@), stem@, texts(components@)),
{
    proof {
        reveal_strlit(".");
        assert("."@ =~= dot());
    }
    let mut parts = packages;
    if str_eq(stem.as_str(), "__init__") {
        return join_with(&parts, ".");
    }
    if parts.len() > 0 {
        proof {
            lemma_texts_push(parts@, stem);
        }
        parts.push(stem);
        return join_with(&parts, ".");
    }
    let mut components = components;
    let ghost all = texts(components@);
    if components.len() > 0 {
        let last = components.pop().unwrap();
        assert(texts(components@) =~= all.drop_last());
        assert(last@ == all.last());
        let chars = chars_of(last.as_str());
        let suffix = chars_of(".py");
        let bare = if chars_have_suffix(&chars, &suffix) {
            let cut = string_of_range(&chars, 0, chars.len() - suffix.len());
            assert(cut@ == without_py(last@));
            cut
        } else {
            last
        };
        proof {
            lemma_texts_push(components@, bare);
        }
        components.push(bare);
    }
    join_with(&components, ".")
}

/// The module identity of the file `path` in the project at `root`, where `present` lists
/// the files that exist.
pub fn module_name(root: &str, path: &str, present: &Vec<String>) -> (name: String)
    ensures
        name@ == module_name_of(root@, path@, texts(present@)),
{
    let packages = enclosing_packages(path, present);
    let stem = match path_file_stem(path) {
        Some(s) => s,
        None => String::new(),
    };
    let rel = match path_strip_prefix(path, root) {
        Some(r) => r,
        None => path.to_owned(),
    };
    dotted_module_name(packages, stem, path_components(rel.as_str()))
}

} // verus!
