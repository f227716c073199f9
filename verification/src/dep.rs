//! The manifest model that the dependency resolver consumes (`Manifest`,
//! `Dep`) and produces (`ResolvedManifest`, `ResolvedDep`).
use vstd::prelude::*;

use crate::name_map::NameMap;
use crate::text::owned;

verus! {

/// A copy of a list of strings with the same contents.
pub fn copy_strings(v: &Vec<String>) -> (r: Vec<String>)
    ensures
        r@ == v@,
{
    let mut r: Vec<String> = Vec::new();
    let n = v.len();
    for i in 0..n
        invariant
            n == v@.len(),
            r@ == v@.take(i as int),
    {
        r.push(v[i].clone());
        assert(r@ =~= v@.take(i + 1));
    }
    assert(v@.take(n as int) =~= v@);
    r
}

/// An unresolved dependency: a named source with an optional import spec
/// indicating sub-manifests to pull in transitively.
#[derive(Debug, Clone)]
pub struct Dep {
    pub name: String,
    /// On-disk path for this dependency (e.g. "modules/hal/adi").
    pub path: String,
    /// What (if anything) to import from this dep's repo.
    pub import: ImportSpec,
    pub source: Source,
}


impl Dep {
    /// A dependency with no imports.
    pub fn new(name: &str, path: &str, source: Source) -> (d: Self)
        ensures
            d.name@ == name@,
            d.path@ == path@,
            d.import == ImportSpec::NoImport,
            d.source == source,
    {
        Dep { name: owned(name), path: owned(path), import: ImportSpec::NoImport, source }
    }

    /// The same dependency, importing what `import` says.
    pub fn with_import(self, import: ImportSpec) -> (d: Self)
        ensures
            d == (Dep { import, ..self }),
    {
        let mut d = self;
        d.import = import;
        d
    }

    pub fn name(&self) -> (r: &str)
        ensures
            r@ == self.name@,
    {
        self.name.as_str()
    }

    pub fn path(&self) -> (r: &str)
        ensures
            r@ == self.path@,
    {
        self.path.as_str()
    }

    pub fn import(&self) -> (r: &ImportSpec)
        ensures
            *r == self.import,
    {
        &self.import
    }

    pub fn source(&self) -> (r: &Source)
        ensures
            *r == self.source,
    {
        &self.source
    }
}

/// What (if anything) to import from a dependency's repository.
#[derive(Debug, Clone)]
pub enum ImportSpec {
    /// Don't import anything.
    NoImport,
    /// Import a single file (e.g. "west.yml").
    Path(String),
    /// Import multiple files.
    Paths(Vec<String>),
    /// Import with filtering.
    Filtered {
        path: String,
        name_allowlist: Option<Vec<String>>,
        name_blocklist: Option<Vec<String>>,
        path_allowlist: Option<Vec<String>>,
        path_blocklist: Option<Vec<String>>,
        path_prefix: Option<String>,
    },
}


impl Default for ImportSpec {
    fn default() -> (r: Self)
        ensures
            r == ImportSpec::NoImport,
    {
        ImportSpec::NoImport
    }
}

/// Where a dependency comes from.
#[derive(Debug)]
pub enum Source {
    Git(Git),
}

impl Clone for Source {
    fn clone(&self) -> (r: Self)
        ensures
            r == *self,
    {
        match self {
            Source::Git(g) => Source::Git(g.clone()),
        }
    }
}

/// A git repository (by its URL, serialized) at a revision: a branch, a tag
/// or a commit id.
#[derive(Debug)]
pub struct Git {
    pub url: String,
    pub rev: String,
}

impl Clone for Git {
    fn clone(&self) -> (r: Self)
        ensures
            r == *self,
    {
        Git { url: self.url.clone(), rev: self.rev.clone() }
    }
}

impl Git {
    pub fn new(url: String, rev: &str) -> (g: Self)
        ensures
            g.url == url,
            g.rev@ == rev@,
    {
        Git { url, rev: owned(rev) }
    }

    pub fn url(&self) -> (r: &str)
        ensures
            r@ == self.url@,
    {
        self.url.as_str()
    }

    pub fn rev(&self) -> (r: &str)
        ensures
            r@ == self.rev@,
    {
        self.rev.as_str()
    }
}

/// The unresolved manifest that the frontends (east.toml, west.yml) lower
/// into.
#[derive(Debug)]
pub struct Manifest {
    /// Optional "self" dependency representing the manifest repo itself.
    /// Used when the manifest repo's own sub-manifests need importing
    /// (e.g. `manifest.self.import: submanifests` in west.yml).
    pub self_dep: Option<Dep>,
    /// Named dependencies to resolve.
    pub deps: NameMap<Dep>,
}

impl Manifest {
    pub fn new(deps: NameMap<Dep>) -> (m: Self)
        ensures
            m.self_dep is None,
            m.deps == deps,
    {
        Manifest { self_dep: None, deps }
    }

    pub fn with_self_dep(self, dep: Dep) -> (m: Self)
        ensures
            m.self_dep == Some(dep),
            m.deps == self.deps,
    {
        let mut m = self;
        m.self_dep = Some(dep);
        m
    }

    pub fn deps(&self) -> (r: &NameMap<Dep>)
        ensures
            *r == self.deps,
    {
        &self.deps
    }

    pub fn self_dep(&self) -> (r: Option<&Dep>)
        ensures
            r matches Some(d) ==> self.self_dep == Some(*d),
            r is None <==> self.self_dep is None,
    {
        match &self.self_dep {
            Some(d) => Some(d),
            None => None,
        }
    }
}

// ── Resolved (output) types ───────────────────────────────────────────

/// A dependency pinned to a commit.
#[derive(Debug, Clone)]
pub struct ResolvedDep {
    pub name: String,
    pub path: String,
    pub source: ResolvedSource,
    /// Names of dependencies that were imported from this dep's repo.
    pub deps: Vec<String>,
}

impl ResolvedDep {
    pub fn name(&self) -> (r: &str)
        ensures
            r@ == self.name@,
    {
        self.name.as_str()
    }

    pub fn path(&self) -> (r: &str)
        ensures
            r@ == self.path@,
    {
        self.path.as_str()
    }

    pub fn source(&self) -> (r: &ResolvedSource)
        ensures
            *r == self.source,
    {
        &self.source
    }

    pub fn deps(&self) -> (r: &[String])
        ensures
            r@ == self.deps@,
    {
        self.deps.as_slice()
    }
}

/// Where a resolved dependency comes from.
#[derive(Debug)]
pub enum ResolvedSource {
    Git(ResolvedGit),
}

impl Clone for ResolvedSource {
    fn clone(&self) -> (r: Self)
        ensures
            r == *self,
    {
        match self {
            ResolvedSource::Git(g) => ResolvedSource::Git(g.clone()),
        }
    }
}

/// A git repository at a revision, with the commit that the revision named
/// when it was resolved.
#[derive(Debug)]
pub struct ResolvedGit {
    pub url: String,
    pub rev: String,
    pub commit: String,
}

impl Clone for ResolvedGit {
    fn clone(&self) -> (r: Self)
        ensures
            r == *self,
    {
        ResolvedGit { url: self.url.clone(), rev: self.rev.clone(), commit: self.commit.clone() }
    }
}

impl ResolvedGit {
    pub fn new(url: String, rev: String, commit: String) -> (g: Self)
        ensures
            g.url == url,
            g.rev == rev,
            g.commit == commit,
    {
        ResolvedGit { url, rev, commit }
    }

    pub fn url(&self) -> (r: &str)
        ensures
            r@ == self.url@,
    {
        self.url.as_str()
    }

    pub fn rev(&self) -> (r: &str)
        ensures
            r@ == self.rev@,
    {
        self.rev.as_str()
    }

    pub fn commit(&self) -> (r: &str)
        ensures
            r@ == self.commit@,
    {
        self.commit.as_str()
    }
}

/// Fully resolved, flat dependency graph.
#[derive(Debug)]
pub struct ResolvedManifest {
    pub deps: NameMap<ResolvedDep>,
}

impl ResolvedManifest {
    pub fn deps(&self) -> (r: &NameMap<ResolvedDep>)
        ensures
            *r == self.deps,
    {
        &self.deps
    }

    pub fn get(&self, name: &str) -> (r: Option<&ResolvedDep>)
        ensures
            r is Some == self.deps.has(name@),
            r matches Some(d) ==> self.deps.lookup(name@) == Some(*d),
    {
        self.deps.get(name)
    }

    pub fn len(&self) -> (n: usize)
        ensures
            n == self.deps.items().len(),
    {
        self.deps.len()
    }

    pub fn is_empty(&self) -> (b: bool)
        ensures
            b == (self.deps.items().len() == 0),
    {
        self.deps.is_empty()
    }
}

} // verus!
