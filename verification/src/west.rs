//! The west.yml manifest format, and its validation into a `Config`.
use vstd::prelude::*;

use crate::config::{Config, Module, Workspace};
use crate::dep::copy_strings;
use crate::manifest::{ImportSpec, UnresolvedDep, UnresolvedManifest};
use crate::name_map::NameMap;
use crate::text::{owned, push_str, str_eq};
use crate::url_ops::{spec_url_join, url_join};

verus! {

/// A named base URL that projects are fetched relative to.
#[derive(Debug)]
pub struct Remote {
    pub name: String,
    /// The base URL, serialized.
    pub url_base: String,
}

/// The defaults that apply to projects which do not say otherwise.
#[derive(Debug)]
pub struct Defaults {
    pub remote: Option<String>,
    pub revision: String,
}

/// The revision of a project that names none and has no default: `master`.
pub fn default_revision() -> (r: String)
    ensures
        r@ == "master"@,
{
    owned("master")
}

impl Default for Defaults {
    fn default() -> (r: Self)
        ensures
            r.remote is None,
            r.revision@ == "master"@,
    {
        Defaults { remote: None, revision: default_revision() }
    }
}

/// What a project imports: nothing or its `west.yml` (`Bool`), one file
/// (`RelPath`), one file with filters (`Mapping`), or several files (`List`).
#[derive(Debug)]
pub enum Import {
    Bool(bool),
    RelPath(String),
    Mapping {
        file: String,
        name_allow_list: Option<OneOrSeq<String>>,
        path_allow_list: Option<OneOrSeq<String>>,
        name_block_list: Option<OneOrSeq<String>>,
        path_block_list: Option<OneOrSeq<String>>,
        path_prefix: Option<String>,
    },
    List(Vec<String>),
}

impl Default for Import {
    fn default() -> (r: Self)
        ensures
            r == Import::Bool(false),
    {
        Import::Bool(false)
    }
}

/// One value, or a list of values.
#[derive(Debug)]
pub enum OneOrSeq<T> {
    One(T),
    List(Vec<T>),
}

/// The file a mapping import reads when it names none: `west.yml`.
pub fn default_mapping_file() -> (r: String)
    ensures
        r@ == "west.yml"@,
{
    owned("west.yml")
}

/// The values of a `OneOrSeq`, as a list.
pub open spec fn one_or_seq_values(o: OneOrSeq<String>) -> Seq<String> {
    match o {
        OneOrSeq::One(s) => seq![s],
        OneOrSeq::List(v) => v@,
    }
}

/// The values of `o`, as a list.
pub fn one_or_seq_to_vec(o: &OneOrSeq<String>) -> (r: Vec<String>)
    ensures
        r@ == one_or_seq_values(*o),
{
    match o {
        OneOrSeq::One(s) => {
            let r = vec![s.clone()];
            assert(r@ =~= seq![*s]);
            r
        },
        OneOrSeq::List(v) => copy_strings(v),
    }
}

/// A project of a west manifest: a repository, where it comes from, and
/// what it imports.
#[derive(Debug)]
pub struct Project {
    pub name: String,
    pub remote: Option<String>,
    pub repo_path: Option<String>,
    /// The repository URL, serialized.
    pub url: Option<String>,
    pub path: Option<String>,
    pub revision: Option<String>,
    pub import: Import,
    pub groups: Vec<String>,
    pub west_commands: Option<String>,
}

/// The `self` section of a west manifest.
#[derive(Debug)]
pub struct ManifestSelf {
    pub path: Option<String>,
    pub import: Import,
    pub west_commands: Option<String>,
}

impl Default for ManifestSelf {
    fn default() -> (r: Self)
        ensures
            r.path is None,
            r.import == Import::Bool(false),
            r.west_commands is None,
    {
        ManifestSelf { path: None, import: Import::Bool(false), west_commands: None }
    }
}

/// The `manifest` section of a west.yml.
#[derive(Debug)]
pub struct Manifest {
    pub defaults: Defaults,
    pub remotes: Vec<Remote>,
    pub projects: Vec<Project>,
    pub manifest_self: ManifestSelf,
    pub group_filter: Vec<String>,
}

/// Remote `i` is the first of `rs` named `name`.
pub open spec fn is_first_named(rs: Seq<Remote>, name: Seq<char>, i: int) -> bool {
    &&& 0 <= i < rs.len()
    &&& rs[i].name@ == name
    &&& forall|j: int| 0 <= j < i ==> (#[trigger] rs[j]).name@ != name
}

/// The first remote of `rs` named `name`, if any.
pub open spec fn first_remote(rs: Seq<Remote>, name: Seq<char>) -> Option<Remote> {
    if exists|i: int| is_first_named(rs, name, i) {
        Some(rs[choose|i: int| is_first_named(rs, name, i)])
    } else {
        None
    }
}

/// Only one remote is the first with a name.
pub proof fn lemma_first_named_unique(rs: Seq<Remote>, name: Seq<char>, i: int, k: int)
    requires
        is_first_named(rs, name, i),
        is_first_named(rs, name, k),
    ensures
        i == k,
{
    if k < i {
        assert(rs[k].name@ != name);
    } else if i < k {
        assert(rs[i].name@ != name);
    }
}

/// What can make a west manifest invalid, by the text of its parts.
pub enum WestFault {
    InvalidPrj { prj: Seq<char>, msg: Seq<char> },
    DefaultRemote(Seq<char>),
    BadUrlJoin { url: Seq<char>, joinee: Seq<char> },
    DuplicatePrj { prj: Seq<char> },
}

/// Why a west manifest is invalid.
#[derive(Debug)]
pub enum WestError {
    InvalidPrjError { prj: String, msg: String },
    DefaultRemoteError(String),
    BadUrlJoin { url: String, joinee: String },
    DuplicatePrjError { prj: String },
}

impl View for WestError {
    type V = WestFault;

    open spec fn view(&self) -> WestFault {
        match self {
            WestError::InvalidPrjError { prj, msg } => WestFault::InvalidPrj { prj: prj@, msg: msg@ },
            WestError::DefaultRemoteError(r) => WestFault::DefaultRemote(r@),
            WestError::BadUrlJoin { url, joinee } => WestFault::BadUrlJoin { url: url@, joinee: joinee@ },
            WestError::DuplicatePrjError { prj } => WestFault::DuplicatePrj { prj: prj@ },
        }
    }
}

/// The human-readable message of an error.
pub open spec fn west_fault_message(f: WestFault) -> Seq<char> {
    match f {
        WestFault::InvalidPrj { prj, msg } => "invalid west project '"@ + prj + "': "@ + msg,
        WestFault::DefaultRemote(r) => "default remote '"@ + r + "' does not exist"@,
        WestFault::BadUrlJoin { url, joinee } => "unable to join '"@ + joinee + "' onto url '"@ + url
            + "'"@,
        WestFault::DuplicatePrj { prj } => "multiple projects with the name '"@ + prj
            + "' were found"@,
    }
}

impl WestError {
    /// The human-readable message of this error.
    pub fn message(&self) -> (m: String)
        ensures
            m@ == west_fault_message(self@),
    {
        match self {
            WestError::InvalidPrjError { prj, msg } => {
                let mut m = owned("invalid west project '");
                push_str(&mut m, prj.as_str());
                push_str(&mut m, "': ");
                push_str(&mut m, msg.as_str());
                m
            },
            WestError::DefaultRemoteError(r) => {
                let mut m = owned("default remote '");
                push_str(&mut m, r.as_str());
                push_str(&mut m, "' does not exist");
                m
            },
            WestError::BadUrlJoin { url, joinee } => {
                let mut m = owned("unable to join '");
                push_str(&mut m, joinee.as_str());
                push_str(&mut m, "' onto url '");
                push_str(&mut m, url.as_str());
                push_str(&mut m, "'");
                m
            },
            WestError::DuplicatePrjError { prj } => {
                let mut m = owned("multiple projects with the name '");
                push_str(&mut m, prj.as_str());
                push_str(&mut m, "' were found");
                m
            },
        }
    }
}

/// The URL of project `p` of manifest `m`, or why it has none: its own
/// `url`, or its repository path (its name by default) joined onto the base
/// URL of its remote (the default remote by default).
pub open spec fn project_url(m: Manifest, p: Project) -> Result<Seq<char>, WestFault> {
    match p.url {
        Some(l) => match p.remote {
            None => Ok(l@),
            Some(_) => Err(WestFault::InvalidPrj { prj: p.name@, msg: "cannot have a url and a remote"@ }),
        },
        None => {
            let r = match p.remote {
                Some(r) => Some(r),
                None => m.defaults.remote,
            };
            match r {
                None => Err(
                    WestFault::InvalidPrj { prj: p.name@, msg: "a url or remote must be specified"@ },
                ),
                Some(r) => match first_remote(m.remotes@, r@) {
                    None => Err(WestFault::DefaultRemote(r@)),
                    Some(rem) => {
                        let joinee = match p.repo_path {
                            Some(rp) => rp@,
                            None => p.name@,
                        };
                        match spec_url_join(rem.url_base@, joinee) {
                            Some(u) => Ok(u),
                            None => Err(WestFault::BadUrlJoin { url: rem.url_base@, joinee }),
                        }
                    },
                },
            }
        },
    }
}

/// A project with no URL that names its own remote takes its URL from that
/// remote, whatever the manifest's default remote is.
pub proof fn lemma_own_remote_wins(m: Manifest, p: Project, r: String)
    requires
        p.url is None,
        p.remote == Some(r),
    ensures
        first_remote(m.remotes@, r@) is None ==> project_url(m, p) == Err::<Seq<char>, WestFault>(
            WestFault::DefaultRemote(r@),
        ),
        first_remote(m.remotes@, r@) matches Some(rem) ==> p.repo_path matches Some(rp) ==> project_url(m, p)
            == (match spec_url_join(rem.url_base@, rp@) {
            Some(u) => Ok::<Seq<char>, WestFault>(u),
            None => Err(WestFault::BadUrlJoin { url: rem.url_base@, joinee: rp@ }),
        }),
        first_remote(m.remotes@, r@) matches Some(rem) ==> p.repo_path is None ==> project_url(m, p) == (
        match spec_url_join(rem.url_base@, p.name@) {
            Some(u) => Ok::<Seq<char>, WestFault>(u),
            None => Err(WestFault::BadUrlJoin { url: rem.url_base@, joinee: p.name@ }),
        }),
{
}

/// A project with neither a URL nor a remote takes its URL from the
/// manifest's default remote.
pub proof fn lemma_default_remote_fills_in(m: Manifest, p: Project, d: String)
    requires
        p.url is None,
        p.remote is None,
        m.defaults.remote == Some(d),
    ensures
        first_remote(m.remotes@, d@) is None ==> project_url(m, p) == Err::<Seq<char>, WestFault>(
            WestFault::DefaultRemote(d@),
        ),
        first_remote(m.remotes@, d@) matches Some(rem) ==> p.repo_path matches Some(rp) ==> project_url(m, p)
            == (match spec_url_join(rem.url_base@, rp@) {
            Some(u) => Ok::<Seq<char>, WestFault>(u),
            None => Err(WestFault::BadUrlJoin { url: rem.url_base@, joinee: rp@ }),
        }),
        first_remote(m.remotes@, d@) matches Some(rem) ==> p.repo_path is None ==> project_url(m, p) == (
        match spec_url_join(rem.url_base@, p.name@) {
            Some(u) => Ok::<Seq<char>, WestFault>(u),
            None => Err(WestFault::BadUrlJoin { url: rem.url_base@, joinee: p.name@ }),
        }),
{
}

/// A project's own URL is its URL, unless it also names a remote, which
/// is an error; with neither a URL nor any remote to use, it has none.
pub proof fn lemma_project_url_given(m: Manifest, p: Project)
    ensures
        p.url matches Some(l) ==> p.remote is None ==> project_url(m, p) == Ok::<Seq<char>, WestFault>(l@),
        p.url is Some ==> p.remote is Some ==> project_url(m, p) == Err::<Seq<char>, WestFault>(
            WestFault::InvalidPrj { prj: p.name@, msg: "cannot have a url and a remote"@ },
        ),
        p.url is None ==> p.remote is None ==> m.defaults.remote is None ==> project_url(m, p) == Err::<
            Seq<char>,
            WestFault,
        >(WestFault::InvalidPrj { prj: p.name@, msg: "a url or remote must be specified"@ }),
{
}

/// The default remote matters only to projects that name none: two
/// manifests with the same remotes give a project that names its own
/// remote the same URL, whatever their default remotes.
pub proof fn lemma_default_remote_unused(m1: Manifest, m2: Manifest, p: Project)
    requires
        p.remote is Some,
        m1.remotes@ == m2.remotes@,
    ensures
        project_url(m1, p) == project_url(m2, p),
{
}

/// The revision of project `p`: its own, or the manifest's default.
pub open spec fn project_rev(m: Manifest, p: Project) -> Seq<char> {
    match p.revision {
        Some(r) => r@,
        None => m.defaults.revision@,
    }
}

/// Validation of the first `n` projects of `m`: the (URL, revision) of each
/// project by name, or the fault at the first project that has one.
pub open spec fn validate_upto(m: Manifest, n: nat) -> Result<Map<Seq<char>, (Seq<char>, Seq<char>)>, WestFault>
    decreases n,
{
    if n == 0 {
        Ok(Map::empty())
    } else {
        match validate_upto(m, (n - 1) as nat) {
            Err(f) => Err(f),
            Ok(mods) => {
                let p = m.projects@[n - 1];
                match project_url(m, p) {
                    Err(f) => Err(f),
                    Ok(u) => if mods.contains_key(p.name@) {
                        Err(WestFault::DuplicatePrj { prj: p.name@ })
                    } else {
                        Ok(mods.insert(p.name@, (u, project_rev(m, p))))
                    },
                }
            },
        }
    }
}

/// Whether the modules of `modules` are those of `mods`, each importing
/// nothing.
pub open spec fn modules_match(modules: NameMap<Module>, mods: Map<Seq<char>, (Seq<char>, Seq<char>)>) -> bool {
    forall|k: Seq<char>|
        #![trigger modules.has(k)]
        #![trigger mods.contains_key(k)]
        modules.has(k) == mods.contains_key(k) && (modules.has(k) ==> {
            let md = modules.lookup(k).unwrap();
            &&& md.git@ == mods[k].0
            &&& md.rev@ == mods[k].1
            &&& md.import == ImportSpec::NoImport
        })
}

/// Once validation has failed at a project, it fails there for every longer
/// prefix of the projects.
proof fn lemma_validate_err_sticks(m: Manifest, i: nat, n: nat)
    requires
        i <= n,
        validate_upto(m, i) is Err,
    ensures
        validate_upto(m, n) == validate_upto(m, i),
    decreases n - i,
{
    if i < n {
        lemma_validate_err_sticks(m, i, (n - 1) as nat);
    }
}

/// Whether each of the first `n` projects of `m` has a URL.
pub open spec fn urls_valid(m: Manifest, n: nat) -> bool {
    forall|i: int| 0 <= i < n ==> #[trigger] project_url(m, m.projects@[i]) is Ok
}

/// Whether the first `n` projects of `m` have pairwise different names.
pub open spec fn names_distinct(m: Manifest, n: nat) -> bool {
    forall|i: int, j: int| 0 <= i < j < n ==> (#[trigger] m.projects@[i]).name@ != (#[trigger] m.projects@[j]).name@
}

/// Validation succeeds exactly when every project has a URL and no two
/// projects share a name; the modules are then named by the projects.
pub proof fn lemma_validate_ok_iff(m: Manifest, n: nat)
    requires
        n <= m.projects@.len(),
    ensures
        validate_upto(m, n) is Ok <==> (urls_valid(m, n) && names_distinct(m, n)),
        validate_upto(m, n) is Ok ==> forall|k: Seq<char>|
            #[trigger] validate_upto(m, n)->Ok_0.contains_key(k) <==> exists|i: int|
                0 <= i < n && (#[trigger] m.projects@[i]).name@ == k,
    decreases n,
{
    if n > 0 {
        let n1 = (n - 1) as nat;
        lemma_validate_ok_iff(m, n1);
        let p = m.projects@[n1 as int];
        match validate_upto(m, n1) {
            Err(_) => {
                if urls_valid(m, n) && names_distinct(m, n) {
                    assert(urls_valid(m, n1));
                    assert(names_distinct(m, n1));
                }
            },
            Ok(mods) => {
                match project_url(m, p) {
                    Err(_) => {
                        assert(!urls_valid(m, n));
                    },
                    Ok(u) => {
                        if mods.contains_key(p.name@) {
                            let i = choose|i: int| 0 <= i < n1 && (#[trigger] m.projects@[i]).name@ == p.name@;
                            assert(m.projects@[i].name@ == m.projects@[n1 as int].name@);
                            assert(!names_distinct(m, n));
                        } else {
                            assert forall|i: int| 0 <= i < n implies #[trigger] project_url(m, m.projects@[i]) is Ok by {
                                if i < n1 {
                                    assert(urls_valid(m, n1));
                                }
                            }
                            assert forall|i: int, j: int| 0 <= i < j < n implies (#[trigger] m.projects@[i]).name@
                                != (#[trigger] m.projects@[j]).name@ by {
                                if j == n1 {
                                    if m.projects@[i].name@ == p.name@ {
                                        assert(mods.contains_key(p.name@));
                                    }
                                } else {
                                    assert(names_distinct(m, n1));
                                }
                            }
                            let mods2 = mods.insert(p.name@, (u, project_rev(m, p)));
                            assert forall|k: Seq<char>| #[trigger] mods2.contains_key(k) <==> exists|i: int|
                                0 <= i < n && (#[trigger] m.projects@[i]).name@ == k by {
                                if k != p.name@ && mods2.contains_key(k) {
                                    assert(mods.contains_key(k));
                                }
                                if exists|i: int| 0 <= i < n && (#[trigger] m.projects@[i]).name@ == k {
                                    let i = choose|i: int| 0 <= i < n && (#[trigger] m.projects@[i]).name@ == k;
                                    if i < n1 {
                                        assert(mods.contains_key(k));
                                    }
                                }
                            }
                        }
                    },
                }
            },
        }
    }
}

impl Manifest {
    /// The first remote named `name`.
    pub fn remote(&self, name: &str) -> (r: Option<&Remote>)
        ensures
            r matches Some(x) ==> first_remote(self.remotes@, name@) == Some(*x),
            r is None ==> first_remote(self.remotes@, name@) is None,
    {
        let n = self.remotes.len();
        for i in 0..n
            invariant
                n == self.remotes@.len(),
                forall|j: int| 0 <= j < i ==> (#[trigger] self.remotes@[j]).name@ != name@,
        {
            if str_eq(self.remotes[i].name.as_str(), name) {
                proof {
                    assert(is_first_named(self.remotes@, name@, i as int));
                    let c = choose|k: int| is_first_named(self.remotes@, name@, k);
                    lemma_first_named_unique(self.remotes@, name@, i as int, c);
                }
                return Some(&self.remotes[i]);
            }
        }
        proof {
            if exists|k: int| is_first_named(self.remotes@, name@, k) {
                let c = choose|k: int| is_first_named(self.remotes@, name@, k);
                assert(self.remotes@[c].name@ != name@);
            }
        }
        None
    }

    /// The URL of project `prj`, or why it has none.
    fn project_url_of(&self, prj: &Project) -> (r: Result<String, WestError>)
        ensures
            match project_url(*self, *prj) {
                Ok(u) => r matches Ok(s) && s@ == u,
                Err(f) => r matches Err(e) && e@ == f,
            },
    {
        match &prj.url {
            Some(l) => match &prj.remote {
                None => Ok(l.clone()),
                Some(_) => Err(
                    WestError::InvalidPrjError {
                        prj: prj.name.clone(),
                        msg: owned("cannot have a url and a remote"),
                    },
                ),
            },
            None => {
                let r = match &prj.remote {
                    Some(r) => Some(r),
                    None => self.defaults.remote.as_ref(),
                };
                match r {
                    None => Err(
                        WestError::InvalidPrjError {
                            prj: prj.name.clone(),
                            msg: owned("a url or remote must be specified"),
                        },
                    ),
                    Some(r) => match self.remote(r.as_str()) {
                        None => Err(WestError::DefaultRemoteError(r.clone())),
                        Some(remote) => {
                            let joinee = match &prj.repo_path {
                                Some(p) => p.clone(),
                                None => prj.name.clone(),
                            };
                            match url_join(remote.url_base.as_str(), joinee.as_str()) {
                                Some(u) => Ok(u),
                                None => Err(
                                    WestError::BadUrlJoin { url: remote.url_base.clone(), joinee },
                                ),
                            }
                        },
                    },
                }
            },
        }
    }
}

/// Whether `l` lists the values of the optional `o`.
pub open spec fn lowered_list(o: Option<OneOrSeq<String>>, l: Option<Vec<String>>) -> bool {
    match (o, l) {
        (None, None) => true,
        (Some(x), Some(v)) => v@ == one_or_seq_values(x),
        _ => false,
    }
}

/// Whether `s` is what a west `import` lowers into: `false` imports
/// nothing, `true` imports `west.yml`, a path imports that file, a list
/// imports those files, and a mapping imports its file through its filters.
pub open spec fn lowered_import(i: Import, s: ImportSpec) -> bool {
    match i {
        Import::Bool(b) => if b {
            s matches ImportSpec::File(f) && f@ == "west.yml"@
        } else {
            s == ImportSpec::NoImport
        },
        Import::RelPath(p) => s == ImportSpec::File(p),
        Import::List(paths) => s matches ImportSpec::Files(v) && v@ == paths@,
        Import::Mapping {
            file,
            name_allow_list,
            path_allow_list,
            name_block_list,
            path_block_list,
            path_prefix,
        } => match s {
            ImportSpec::Filtered {
                file: f,
                name_allowlist,
                name_blocklist,
                path_allowlist,
                path_blocklist,
                path_prefix: pfx,
            } => {
                &&& f == file
                &&& lowered_list(name_allow_list, name_allowlist)
                &&& lowered_list(name_block_list, name_blocklist)
                &&& lowered_list(path_allow_list, path_allowlist)
                &&& lowered_list(path_block_list, path_blocklist)
                &&& pfx == path_prefix
            },
            _ => false,
        },
    }
}

/// The values of an optional `OneOrSeq`, as an optional list.
fn lower_list(o: &Option<OneOrSeq<String>>) -> (l: Option<Vec<String>>)
    ensures
        lowered_list(*o, l),
{
    match o {
        Some(x) => Some(one_or_seq_to_vec(x)),
        None => None,
    }
}

/// A copy of an optional string.
fn copy_opt(o: &Option<String>) -> (r: Option<String>)
    ensures
        r == *o,
{
    match o {
        Some(x) => Some(x.clone()),
        None => None,
    }
}

/// The import specification that a west `import` lowers into.
pub fn import_to_spec(import: &Import) -> (s: ImportSpec)
    ensures
        lowered_import(*import, s),
{
    match import {
        Import::Bool(b) => if *b {
            ImportSpec::File(default_mapping_file())
        } else {
            ImportSpec::NoImport
        },
        Import::RelPath(p) => ImportSpec::File(p.clone()),
        Import::List(paths) => ImportSpec::Files(copy_strings(paths)),
        Import::Mapping {
            file,
            name_allow_list,
            path_allow_list,
            name_block_list,
            path_block_list,
            path_prefix,
        } => ImportSpec::Filtered {
            file: file.clone(),
            name_allowlist: lower_list(name_allow_list),
            name_blocklist: lower_list(name_block_list),
            path_allowlist: lower_list(path_allow_list),
            path_blocklist: lower_list(path_block_list),
            path_prefix: copy_opt(path_prefix),
        },
    }
}

/// Lowering a mapping import keeps each of its filters in its own place:
/// the path allowlist is the mapping's `path-allowlist`, the path
/// blocklist its `path-blocklist`, and the name lists likewise; a list the
/// mapping leaves out is no list at all, and the file and prefix carry over.
pub proof fn lemma_mapping_filters_in_place(i: Import, s: ImportSpec)
    requires
        i is Mapping,
        lowered_import(i, s),
    ensures
        s is Filtered,
        s->Filtered_file == i->Mapping_file,
        s->Filtered_path_prefix == i->Mapping_path_prefix,
        i->Mapping_path_allow_list is None <==> s->Filtered_path_allowlist is None,
        i->Mapping_path_allow_list matches Some(x) ==> s->Filtered_path_allowlist matches Some(v) && v@
            == one_or_seq_values(x),
        i->Mapping_path_block_list is None <==> s->Filtered_path_blocklist is None,
        i->Mapping_path_block_list matches Some(x) ==> s->Filtered_path_blocklist matches Some(v) && v@
            == one_or_seq_values(x),
        i->Mapping_name_allow_list is None <==> s->Filtered_name_allowlist is None,
        i->Mapping_name_allow_list matches Some(x) ==> s->Filtered_name_allowlist matches Some(v) && v@
            == one_or_seq_values(x),
        i->Mapping_name_block_list is None <==> s->Filtered_name_blocklist is None,
        i->Mapping_name_block_list matches Some(x) ==> s->Filtered_name_blocklist matches Some(v) && v@
            == one_or_seq_values(x),
{
}

/// The other imports lower as west reads them: `false` imports nothing,
/// `true` imports `west.yml`, a path imports that one file, and a list
/// imports those files in the order given.
pub proof fn lemma_plain_imports_lowered(i: Import, s: ImportSpec)
    requires
        lowered_import(i, s),
    ensures
        i == Import::Bool(false) ==> s == ImportSpec::NoImport,
        i == Import::Bool(true) ==> (s matches ImportSpec::File(f) && f@ == "west.yml"@),
        i matches Import::RelPath(p) ==> s == ImportSpec::File(p),
        i matches Import::List(ps) ==> (s matches ImportSpec::Files(v) && v@ == ps@),
{
}

/// The checkout path of project `p`: its own, or its name.
pub open spec fn project_path(p: Project) -> Seq<char> {
    match p.path {
        Some(x) => x@,
        None => p.name@,
    }
}

/// Whether `d` is the unresolved dependency that project `p` of `m` lowers
/// into.
pub open spec fn lowered_project(m: Manifest, p: Project, d: UnresolvedDep) -> bool {
    &&& d.name == p.name
    &&& project_url(m, p) == Ok::<Seq<char>, WestFault>(d.url@)
    &&& d.revision@ == project_rev(m, p)
    &&& d.path@ == project_path(p)
    &&& lowered_import(p.import, d.import)
}

/// Lowering of the first `n` projects of `m`: for each name, the position of
/// the last project with that name (a later project replaces an earlier
/// one), or the fault of the first project that has no valid URL.
pub open spec fn lower_upto(m: Manifest, n: nat) -> Result<Map<Seq<char>, int>, WestFault>
    decreases n,
{
    if n == 0 {
        Ok(Map::empty())
    } else {
        match lower_upto(m, (n - 1) as nat) {
            Err(f) => Err(f),
            Ok(idx) => match project_url(m, m.projects@[n - 1]) {
                Err(f) => Err(f),
                Ok(_) => Ok(idx.insert(m.projects@[n - 1].name@, n - 1)),
            },
        }
    }
}

/// Whether `deps` holds, under each name of `idx`, what the project at that
/// position lowers into, and nothing else.
pub open spec fn deps_lowered(m: Manifest, idx: Map<Seq<char>, int>, deps: NameMap<UnresolvedDep>) -> bool {
    forall|k: Seq<char>|
        #![trigger deps.has(k)]
        #![trigger idx.contains_key(k)]
        deps.has(k) == idx.contains_key(k) && (deps.has(k) ==> {
            &&& 0 <= idx[k] < m.projects@.len()
            &&& lowered_project(m, m.projects@[idx[k]], deps.lookup(k).unwrap())
        })
}

proof fn lemma_lower_upto_bounds(m: Manifest, n: nat)
    requires
        lower_upto(m, n) is Ok,
    ensures
        forall|k: Seq<char>| #[trigger] lower_upto(m, n)->Ok_0.contains_key(k) ==> 0 <= lower_upto(m, n)->Ok_0[k] < n,
    decreases n,
{
    if n > 0 {
        lemma_lower_upto_bounds(m, (n - 1) as nat);
    }
}

proof fn lemma_lower_err_sticks(m: Manifest, i: nat, n: nat)
    requires
        i <= n,
        lower_upto(m, i) is Err,
    ensures
        lower_upto(m, n) == lower_upto(m, i),
    decreases n - i,
{
    if i < n {
        lemma_lower_err_sticks(m, i, (n - 1) as nat);
    }
}

/// A parsed west.yml.
#[derive(Debug)]
pub struct West {
    pub manifest: Manifest,
}

impl West {
    pub fn manifest(&self) -> (r: &Manifest)
        ensures
            *r == self.manifest,
    {
        &self.manifest
    }

    /// Lowers the manifest into the common `UnresolvedManifest` IR: one
    /// dependency per project name (a later project with the same name
    /// replaces an earlier one), and the `self` import. `self_url` and
    /// `self_rev` identify the repository that holds this west.yml.
    pub fn into_unresolved(&self, self_url: Option<String>, self_rev: Option<String>) -> (r: Result<UnresolvedManifest, WestError>)
        ensures
            match lower_upto(self.manifest, self.manifest.projects@.len()) {
                Ok(idx) => r matches Ok(um) && {
                    &&& um.self_url == self_url
                    &&& um.self_revision == self_rev
                    &&& lowered_import(self.manifest.manifest_self.import, um.self_import)
                    &&& deps_lowered(self.manifest, idx, um.deps)
                },
                Err(f) => r matches Err(e) && e@ == f,
            },
    {
        let mut deps: NameMap<UnresolvedDep> = NameMap::new();
        let n = self.manifest.projects.len();
        let ghost m = self.manifest;
        for i in 0..n
            invariant
                n == m.projects@.len(),
                m == self.manifest,
                lower_upto(m, i as nat) matches Ok(idx) && deps_lowered(m, idx, deps),
        {
            let ghost idx = lower_upto(m, i as nat)->Ok_0;
            proof {
                lemma_lower_upto_bounds(m, i as nat);
            }
            let prj = &self.manifest.projects[i];
            let url = match self.manifest.project_url_of(prj) {
                Ok(u) => u,
                Err(e) => {
                    proof {
                        lemma_lower_err_sticks(m, (i + 1) as nat, n as nat);
                    }
                    return Err(e);
                },
            };
            let revision = match &prj.revision {
                Some(r) => r.clone(),
                None => self.manifest.defaults.revision.clone(),
            };
            let path = match &prj.path {
                Some(p) => p.clone(),
                None => prj.name.clone(),
            };
            let import = import_to_spec(&prj.import);
            let dep = UnresolvedDep { name: prj.name.clone(), url, revision, path, import };
            let ghost before = deps;
            deps.insert(prj.name.clone(), dep);
            proof {
                let idx2 = lower_upto(m, (i + 1) as nat)->Ok_0;
                assert(idx2 == idx.insert(prj.name@, i as int));
                assert forall|k: Seq<char>|
                    #![trigger deps.has(k)]
                    #![trigger idx2.contains_key(k)]
                    deps.has(k) == idx2.contains_key(k) && (deps.has(k) ==> {
                        &&& 0 <= idx2[k] < m.projects@.len()
                        &&& lowered_project(m, m.projects@[idx2[k]], deps.lookup(k).unwrap())
                    }) by {
                    if k != prj.name@ {
                        assert(deps.lookup(k) == before.lookup(k));
                        assert(before.has(k) == idx.contains_key(k));
                        if !deps.has(k) {
                            assert(deps.lookup(k) is None);
                        }
                        if !before.has(k) {
                            assert(before.lookup(k) is None);
                        }
                    }
                }
            }
        }
        let self_import = import_to_spec(&self.manifest.manifest_self.import);
        Ok(UnresolvedManifest { self_url, self_revision: self_rev, self_import, deps })
    }

    /// Checks the manifest and turns it into a `Config`: one module per
    /// project, under the project's name, fetched from the project's URL at
    /// its revision. Fails at the first project with no valid URL, or whose
    /// name an earlier project already took.
    pub fn validate(self) -> (r: Result<Config, WestError>)
        ensures
            match validate_upto(self.manifest, self.manifest.projects@.len()) {
                Ok(mods) => r matches Ok(cfg) && {
                    &&& cfg.workspace.name@ == ""@
                    &&& cfg.workspace.version@ == "0.0.0+east"@
                    &&& modules_match(cfg.modules, mods)
                },
                Err(f) => r matches Err(e) && e@ == f,
            },
    {
        let workspace = Workspace::new("", "0.0.0+east");
        let mut modules: NameMap<Module> = NameMap::new();
        let n = self.manifest.projects.len();
        let ghost m = self.manifest;
        for i in 0..n
            invariant
                n == m.projects@.len(),
                m == self.manifest,
                workspace.name@ == ""@,
                workspace.version@ == "0.0.0+east"@,
                validate_upto(m, i as nat) matches Ok(mods) && modules_match(modules, mods),
        {
            let ghost mods = validate_upto(m, i as nat)->Ok_0;
            let prj = &self.manifest.projects[i];
            let url = match self.manifest.project_url_of(prj) {
                Ok(u) => u,
                Err(e) => {
                    proof {
                        lemma_validate_err_sticks(m, (i + 1) as nat, n as nat);
                    }
                    return Err(e);
                },
            };
            let rev = match &prj.revision {
                Some(r) => r.clone(),
                None => self.manifest.defaults.revision.clone(),
            };
            let ghost before = modules;
            let module = Module::new(url, rev, ImportSpec::NoImport);
            let previous = modules.insert(prj.name.clone(), module);
            if previous.is_some() {
                proof {
                    assert(before.has(prj.name@));
                    assert(mods.contains_key(prj.name@));
                    lemma_validate_err_sticks(m, (i + 1) as nat, n as nat);
                }
                return Err(WestError::DuplicatePrjError { prj: prj.name.clone() });
            }
            proof {
                assert(!before.has(prj.name@));
                assert(!mods.contains_key(prj.name@));
                let mods2 = validate_upto(m, (i + 1) as nat)->Ok_0;
                assert(mods2 == mods.insert(prj.name@, (url@, project_rev(m, *prj))));
                assert forall|k: Seq<char>|
                    #![trigger modules.has(k)]
                    #![trigger mods2.contains_key(k)]
                    modules.has(k) == mods2.contains_key(k) && (modules.has(k) ==> {
                        let md = modules.lookup(k).unwrap();
                        &&& md.git@ == mods2[k].0
                        &&& md.rev@ == mods2[k].1
                        &&& md.import == ImportSpec::NoImport
                    }) by {
                    if k != prj.name@ {
                        assert(modules.lookup(k) == before.lookup(k));
                        assert(before.has(k) == mods.contains_key(k));
                        if !modules.has(k) {
                            assert(modules.lookup(k) is None);
                        }
                        if !before.has(k) {
                            assert(before.lookup(k) is None);
                        }
                    }
                }
            }
        }
        Ok(Config { workspace, modules })
    }
}

} // verus!
