//! Matching an identity against the modules of an index: by its exact name, by the file
//! it would stand in, or by the nearest enclosing package.

use crate::paths::{joined, opt_text, path_join};
use crate::project::index::{
    is_module, lemma_path_names_module, module_of_path, IndexView, ProjectIndex,
};
use crate::project::resolve::{dot, file_is_present, is_present};
use crate::text::{
    chars_of, join, join_with, lemma_texts_take, replace_char, split, split_on, string_of, texts,
};
use vstd::prelude::*;
use vstd::string::*;

verus! {

/// The file below `root` that the identity `name` would stand in, `tail` being what
/// follows the dotted name turned into a path.
pub open spec fn candidate_file(root: Seq<char>, name: Seq<char>, tail: Seq<char>) -> Seq<char> {
    joined(root, replace_char(name, '.', '/') + tail)
}

/// The identity that the index has for `file`, where that file exists.
pub open spec fn file_target(index: IndexView, present: Seq<Seq<char>>, file: Seq<char>) -> Option<
    Seq<char>,
> {
    if is_present(present, file) {
        module_of_path(index.paths, file)
    } else {
        None
    }
}

/// The identity of the file that `name` would stand in: as a module file first, as the
/// marker of a package second.
pub open spec fn heuristic_target(index: IndexView, present: Seq<Seq<char>>, name: Seq<char>) -> Option<
    Seq<char>,
> {
    match file_target(index, present, candidate_file(index.root, name, ".py"@)) {
        Some(m) => Some(m),
        None => file_target(index, present, candidate_file(index.root, name, "/__init__.py"@)),
    }
}

/// The longest run of at most `keep` leading components that names a module.
pub open spec fn trim_from(index: IndexView, parts: Seq<Seq<char>>, keep: nat) -> Option<Seq<char>>
    decreases keep,
{
    if keep == 0 {
        None
    } else {
        let shorter = join(parts.take(keep as int), dot());
        if is_module(index.modules, shorter) {
            Some(shorter)
        } else {
            trim_from(index, parts, (keep - 1) as nat)
        }
    }
}

/// The nearest enclosing package of `name` that is a module: `name` without its last
/// components, as few of them dropped as possible and at least one.
pub open spec fn trimmed_target(index: IndexView, name: Seq<char>) -> Option<Seq<char>> {
    let parts = split(name, '.');
    trim_from(index, parts, (parts.len() - 1) as nat)
}

/// The module that `name` stands for: the module of that name; else the module of the
/// file that the name would stand in; else the nearest enclosing package.
pub open spec fn known_target(index: IndexView, present: Seq<Seq<char>>, name: Seq<char>) -> Option<
    Seq<char>,
> {
    if is_module(index.modules, name) {
        Some(name)
    } else {
        match heuristic_target(index, present, name) {
            Some(m) => Some(m),
            None => trimmed_target(index, name),
        }
    }
}

/// What trimming finds is a module of the index.
pub proof fn lemma_trim_is_module(index: IndexView, parts: Seq<Seq<char>>, keep: nat)
    ensures
        trim_from(index, parts, keep) matches Some(m) ==> is_module(index.modules, m),
    decreases keep,
{
    if keep > 0 {
        lemma_trim_is_module(index, parts, (keep - 1) as nat);
    }
}

/// Whatever a name stands for is a module of the index.
pub proof fn lemma_known_target_is_module(index: IndexView, present: Seq<Seq<char>>, name: Seq<char>)
    requires
        index.wf(),
    ensures
        known_target(index, present, name) matches Some(m) ==> is_module(index.modules, m),
{
    lemma_path_names_module(index, candidate_file(index.root, name, ".py"@));
    lemma_path_names_module(index, candidate_file(index.root, name, "/__init__.py"@));
    let parts = split(name, '.');
    lemma_trim_is_module(index, parts, (parts.len() - 1) as nat);
}

/// The dotted name as a relative path: a slash in the place of each dot.
pub fn dotted_to_path(name: &str) -> (path: String)
    ensures
        path@ == replace_char(name@, '.', '/'),
{
    let chars = chars_of(name);
    let mut slashed: Vec<char> = Vec::new();
    let mut i: usize = 0;
    while i < chars.len()
        invariant
            i <= chars.len(),
            slashed@ == replace_char(chars@.take(i as int), '.', '/'),
        decreases chars.len() - i,
    {
        let c = chars[i];
        slashed.push(if c == '.' {
            '/'
        } else {
            c
        });
        i += 1;
        assert(slashed@ =~= replace_char(chars@.take(i as int), '.', '/'));
    }
    assert(chars@.take(chars.len() as int) =~= chars@);
    string_of(&slashed)
}

impl ProjectIndex {
    /// The identity that the index has for `file`, where that file exists.
    pub fn module_of_file(&self, present: &Vec<String>, file: &str) -> (target: Option<String>)
        ensures
            opt_text(target) == file_target(self@, texts(present@), file@),
    {
        if file_is_present(present, file) {
            match self.find_path(file) {
                Some(i) => Some(self.path_to_module[i].1.clone()),
                None => None,
            }
        } else {
            None
        }
    }

    /// The module of that very name, if there is one.
    pub fn resolve_known_module(&self, import: &str) -> (target: Option<String>)
        ensures
            opt_text(target) == if is_module(self@.modules, import@) {
                Some(import@)
            } else {
                None
            },
    {
        match self.find_module(import) {
            Some(_) => Some(import.to_owned()),
            None => None,
        }
    }

    /// The identity of the file that `import` would stand in.
    pub fn heuristic_map(&self, import: &str, present: &Vec<String>) -> (target: Option<String>)
        ensures
            opt_text(target) == heuristic_target(self@, texts(present@), import@),
    {
        let candidate = dotted_to_path(import);
        let mut as_file = candidate.clone();
        as_file.append(".py");
        let file = path_join(self.root.as_str(), as_file.as_str());
        match self.module_of_file(present, file.as_str()) {
            Some(m) => {
                return Some(m);
            },
            None => {},
        }
        let mut as_package = candidate;
        as_package.append("/__init__.py");
        let init = path_join(self.root.as_str(), as_package.as_str());
        self.module_of_file(present, init.as_str())
    }

    /// The nearest enclosing package of `import` that is a module.
    pub fn trim_to_known_module(&self, import: &str) -> (target: Option<String>)
        ensures
            opt_text(target) == trimmed_target(self@, import@),
    {
        let mut parts = split_on(import, '.');
        let ghost all = texts(parts@);
        proof {
            reveal_strlit(".");
            assert("."@ =~= dot());
            assert(all.take(all.len() as int) =~= all);
        }
        while parts.len() > 1
            invariant
                1 <= parts.len() <= all.len(),
                all == split(import@, '.'),
                texts(parts@) == all.take(parts.len() as int),
                "."@ == dot(),
                trimmed_target(self@, import@) == trim_from(self@, all, (parts.len() - 1) as nat),
            decreases parts.len(),
        {
            proof {
                lemma_texts_take(parts@, parts.len() - 1);
                assert(all.take(parts.len() as int).take(parts.len() - 1) =~= all.take(
                    parts.len() - 1,
                ));
            }
            parts.pop();
            let candidate = join_with(&parts, ".");
            if self.find_module(candidate.as_str()).is_some() {
                return Some(candidate);
            }
        }
        None
    }

    /// The module that `import` stands for.
    pub fn resolve_target(&self, import: &str, present: &Vec<String>) -> (target: Option<String>)
        ensures
            opt_text(target) == known_target(self@, texts(present@), import@),
    {
        match self.resolve_known_module(import) {
            Some(m) => {
                return Some(m);
            },
            None => {},
        }
        match self.heuristic_map(import, present) {
            Some(m) => {
                return Some(m);
            },
            None => {},
        }
        self.trim_to_known_module(import)
    }
}

} // verus!
