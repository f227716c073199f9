//! The lock file of a resolved manifest: each dependency by name, with its
//! repository, revision and checkout path.
use vstd::prelude::*;

use crate::manifest::{ResolvedDep, ResolvedManifest};
use crate::name_map::NameMap;
use crate::text::lex_lt;

verus! {

/// A lock file, its dependencies by name.
#[derive(Debug)]
pub struct Lockfile {
    pub deps: NameMap<LockedDep>,
}

/// A locked dependency: its repository (URL, serialized), revision and
/// checkout path.
#[derive(Debug)]
pub struct LockedDep {
    pub git: String,
    pub rev: String,
    pub path: String,
}

/// Whether `l` locks the resolved dependency `d`.
pub open spec fn locks(d: ResolvedDep, l: LockedDep) -> bool {
    l.git == d.url && l.rev == d.revision && l.path == d.path
}

impl Lockfile {
    /// The lock file of a resolved manifest: one entry per dependency, in
    /// the same order and under the same name.
    pub fn from_resolved(m: ResolvedManifest) -> (l: Self)
        ensures
            l.deps.items().len() == m.deps.items().len(),
            forall|i: int|
                0 <= i < l.deps.items().len() ==> {
                    &&& (#[trigger] l.deps.items()[i]).0 == m.deps.items()[i].0
                    &&& locks(m.deps.items()[i].1, l.deps.items()[i].1)
                },
    {
        let n = m.deps.len();
        let mut deps: NameMap<LockedDep> = NameMap::new();
        for i in 0..n
            invariant
                n == m.deps.items().len(),
                m.deps.wf(),
                deps.items().len() == i,
                forall|j: int|
                    0 <= j < i ==> {
                        &&& (#[trigger] deps.items()[j]).0 == m.deps.items()[j].0
                        &&& locks(m.deps.items()[j].1, deps.items()[j].1)
                    },
        {
            let name = m.deps.key_at(i);
            let d = m.deps.value_at(i);
            let locked = LockedDep { git: d.url.clone(), rev: d.revision.clone(), path: d.path.clone() };
            proof {
                assert forall|j: int| 0 <= j < deps.items().len() implies lex_lt(
                    #[trigger] deps.items()[j].0@,
                    name@,
                ) by {
                    assert(deps.items()[j].0 == m.deps.items()[j].0);
                }
            }
            deps.push_last(name.clone(), locked);
        }
        Lockfile { deps }
    }
}

} // verus!
