//! The lock file that `init` writes: the workspace version and each module
//! pinned to a commit.
use vstd::prelude::*;

use crate::config::Module;
use crate::text::owned;

verus! {

/// A lock file. Its version is held as the text of a semantic version.
#[derive(Debug)]
pub struct LockFile {
    pub version: String,
    pub modules: Vec<LockedModule>,
}

impl LockFile {
    pub fn new(version: String, modules: Vec<LockedModule>) -> (l: Self)
        ensures
            l.version == version,
            l.modules == modules,
    {
        LockFile { version, modules }
    }
}

/// A module pinned to a commit.
#[derive(Debug)]
pub struct LockedModule {
    pub name: String,
    pub source: Source,
}

impl LockedModule {
    /// Module `module`, named `name`, pinned to `commit`; no dependencies
    /// are recorded.
    pub fn pinned(name: &str, module: &Module, commit: String) -> (l: Self)
        ensures
            l.name@ == name@,
            l.source matches Source::Git(g) && g.url == module.git && g.rev == module.rev && g.commit == commit
                && g.dependencies@.len() == 0,
    {
        LockedModule {
            name: owned(name),
            source: Source::Git(
                GitSource {
                    url: module.git.clone(),
                    rev: module.rev.clone(),
                    commit,
                    dependencies: Vec::new(),
                },
            ),
        }
    }
}

/// Where a locked module comes from.
#[derive(Debug)]
pub enum Source {
    Git(GitSource),
}

/// A git repository (by its URL, serialized) at a revision, with the commit
/// it was pinned to and the names of the modules it depends on.
#[derive(Debug)]
pub struct GitSource {
    pub url: String,
    pub rev: String,
    pub commit: String,
    pub dependencies: Vec<String>,
}

} // verus!
