//! The east.toml configuration: a workspace and its modules.
use vstd::prelude::*;

use crate::manifest::{ImportSpec, UnresolvedDep, UnresolvedManifest};
use crate::name_map::NameMap;
use crate::text::owned;

verus! {

/// A parsed east.toml.
#[derive(Debug)]
pub struct Config {
    pub workspace: Workspace,
    /// The modules, by name.
    pub modules: NameMap<Module>,
}

/// Whether `d` is the unresolved dependency that module `m`, named `name`,
/// lowers into: fetched from its git URL at its revision, checked out under
/// its name, with nothing to import.
pub open spec fn lowered_module(name: Seq<char>, m: Module, d: UnresolvedDep) -> bool {
    &&& d.name@ == name
    &&& d.url == m.git
    &&& d.revision == m.rev
    &&& d.path@ == name
    &&& d.import == ImportSpec::NoImport
}

impl Config {
    pub fn modules(&self) -> (r: &NameMap<Module>)
        ensures
            *r == self.modules,
    {
        &self.modules
    }

    pub fn workspace(&self) -> (r: &Workspace)
        ensures
            *r == self.workspace,
    {
        &self.workspace
    }

    /// Whether a module is named `name`.
    pub fn has_module(&self, name: &str) -> (b: bool)
        ensures
            b == self.modules.has(name@),
    {
        self.modules.contains_key(name)
    }

    /// Lower an east.toml into the common `UnresolvedManifest` IR: one
    /// dependency per module, in the same order, with no self repository
    /// and nothing to import (east.toml is already flat).
    pub fn into_unresolved(&self) -> (r: UnresolvedManifest)
        ensures
            r.self_url is None,
            r.self_revision is None,
            r.self_import == ImportSpec::NoImport,
            r.deps.items().len() == self.modules.items().len(),
            forall|i: int|
                0 <= i < r.deps.items().len() ==> {
                    &&& (#[trigger] r.deps.items()[i]).0 == self.modules.items()[i].0
                    &&& lowered_module(self.modules.items()[i].0@, self.modules.items()[i].1, r.deps.items()[i].1)
                },
    {
        let n = self.modules.len();
        let mut deps: NameMap<UnresolvedDep> = NameMap::new();
        for i in 0..n
            invariant
                n == self.modules.items().len(),
                self.modules.wf(),
                deps.items().len() == i,
                forall|j: int|
                    0 <= j < i ==> {
                        &&& (#[trigger] deps.items()[j]).0 == self.modules.items()[j].0
                        &&& lowered_module(self.modules.items()[j].0@, self.modules.items()[j].1, deps.items()[j].1)
                    },
        {
            let name = self.modules.key_at(i);
            let m = self.modules.value_at(i);
            let dep = UnresolvedDep {
                name: name.clone(),
                url: m.git.clone(),
                revision: m.rev.clone(),
                path: name.clone(),
                import: ImportSpec::NoImport,
            };
            proof {
                assert forall|j: int| 0 <= j < deps.items().len() implies crate::text::lex_lt(
                    #[trigger] deps.items()[j].0@,
                    name@,
                ) by {
                    assert(deps.items()[j].0 == self.modules.items()[j].0);
                }
            }
            deps.push_last(name.clone(), dep);
        }
        UnresolvedManifest {
            self_url: None,
            self_revision: None,
            self_import: ImportSpec::NoImport,
            deps,
        }
    }
}

/// The workspace a configuration describes. Its version is held as the
/// text of a semantic version.
#[derive(Debug)]
pub struct Workspace {
    pub name: String,
    pub version: String,
}

impl Workspace {
    pub fn new(name: &str, version: &str) -> (w: Self)
        ensures
            w.name@ == name@,
            w.version@ == version@,
    {
        Workspace { name: owned(name), version: owned(version) }
    }

    pub fn version(&self) -> (r: &str)
        ensures
            r@ == self.version@,
    {
        self.version.as_str()
    }

    pub fn name(&self) -> (r: &str)
        ensures
            r@ == self.name@,
    {
        self.name.as_str()
    }
}

/// A module of the workspace: a git repository (by its URL, serialized) at
/// a revision, and what to import from it.
#[derive(Debug)]
pub struct Module {
    pub git: String,
    pub rev: String,
    pub import: ImportSpec,
}

impl Module {
    pub fn git(&self) -> (r: &str)
        ensures
            r@ == self.git@,
    {
        self.git.as_str()
    }

    pub fn rev(&self) -> (r: &str)
        ensures
            r@ == self.rev@,
    {
        self.rev.as_str()
    }

    pub fn new(git: String, rev: String, import: ImportSpec) -> (m: Self)
        ensures
            m.git == git,
            m.rev == rev,
            m.import == import,
    {
        Module { git, rev, import }
    }
}

} // verus!
