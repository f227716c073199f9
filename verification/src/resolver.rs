//! Recursive resolution of a `Manifest` into a flat `ResolvedManifest`.
use vstd::prelude::*;

use crate::dep::{Dep, Git, ImportSpec, Manifest, ResolvedDep, ResolvedGit, ResolvedManifest, ResolvedSource, Source};
use crate::name_map::NameMap;
use crate::text::{owned, push_str};

pub mod git;

use self::git::{git_error_message, GitResolver, GitResolverError};

verus! {

// ── Errors ────────────────────────────────────────────────────────────

/// What can go wrong while resolving a manifest.
#[derive(Debug)]
pub enum ResolveError {
    Git(GitResolverError),
    ParseError { url: String, rev: String, path: String, reason: String },
    CycleDetected(String),
}

/// The human-readable message of an error.
pub open spec fn resolve_error_message(e: ResolveError) -> Seq<char> {
    match e {
        ResolveError::Git(g) => "git resolver error: "@ + git_error_message(g),
        ResolveError::ParseError { url, rev, path, reason } => "failed to parse sub-manifest fetched from "@
            + url@ + " @ "@ + rev@ + ", path "@ + path@ + ": "@ + reason@,
        ResolveError::CycleDetected(key) => "import cycle detected: "@ + key@,
    }
}

impl ResolveError {
    /// The human-readable message of this error.
    pub fn message(&self) -> (m: String)
        ensures
            m@ == resolve_error_message(*self),
    {
        match self {
            ResolveError::Git(g) => {
                let mut m = owned("git resolver error: ");
                let inner = g.message();
                push_str(&mut m, inner.as_str());
                m
            },
            ResolveError::ParseError { url, rev, path, reason } => {
                let mut m = owned("failed to parse sub-manifest fetched from ");
                push_str(&mut m, url.as_str());
                push_str(&mut m, " @ ");
                push_str(&mut m, rev.as_str());
                push_str(&mut m, ", path ");
                push_str(&mut m, path.as_str());
                push_str(&mut m, ": ");
                push_str(&mut m, reason.as_str());
                m
            },
            ResolveError::CycleDetected(key) => {
                let mut m = owned("import cycle detected: ");
                push_str(&mut m, key.as_str());
                m
            },
        }
    }
}

// ── Manifest parser trait ─────────────────────────────────────────────

/// Converts raw file content (e.g. a west.yml) into the common `Manifest` IR.
///
/// This is the seam between the resolver (which is format-agnostic) and
/// the frontend parsers.  When the resolver fetches a sub-manifest via
/// `GitResolver::fetch_file`, it hands the content to this trait to obtain
/// more `Dep`s to resolve.
pub trait ManifestParser {
    fn parse(&self, content: &str) -> Result<Manifest, ResolveError>;
}

// ── Specifications ────────────────────────────────────────────────────

/// The key under which a fetch of `path` at `commit` of `url` is remembered:
/// `url@commit:path`.
pub open spec fn fetch_key(url: Seq<char>, commit: Seq<char>, path: Seq<char>) -> Seq<char> {
    url + "@"@ + commit + ":"@ + path
}

/// A fetch that the resolver made: (url, commit, path).
pub type FetchRecord = (Seq<char>, Seq<char>, Seq<char>);

/// The key of a recorded fetch.
pub open spec fn record_key(f: FetchRecord) -> Seq<char> {
    fetch_key(f.0, f.1, f.2)
}

/// No two fetches share a key: the same (url, commit, path) is never
/// fetched twice.
pub open spec fn no_repeated_fetch(log: Seq<FetchRecord>) -> bool {
    forall|i: int, j: int|
        0 <= i < j < log.len() ==> record_key(#[trigger] log[i]) != record_key(#[trigger] log[j])
}

/// Whether some recorded fetch has key `key`.
pub open spec fn fetched_key(log: Seq<FetchRecord>, key: Seq<char>) -> bool {
    exists|i: int| 0 <= i < log.len() && record_key(#[trigger] log[i]) == key
}

/// Each entry of a resolved map carries its own name.
pub open spec fn entries_named(m: NameMap<ResolvedDep>) -> bool {
    forall|k: Seq<char>| #[trigger] m.has(k) ==> m.lookup(k).unwrap().name@ == k
}

/// The parts of a resolved entry that are fixed when it is inserted.
pub open spec fn same_pin(a: ResolvedDep, b: ResolvedDep) -> bool {
    a.name == b.name && a.path == b.path && a.source == b.source
}

/// Every entry of `before` is still in `after`, pinned the same way: the
/// first dependency seen under a name wins.
pub open spec fn keeps_pins(before: NameMap<ResolvedDep>, after: NameMap<ResolvedDep>) -> bool {
    forall|k: Seq<char>|
        #[trigger] before.has(k) ==> after.has(k) && same_pin(before.lookup(k).unwrap(), after.lookup(k).unwrap())
}

/// Whether `name` passes the allow/block lists of a filtered import
/// (`None` lists do not filter).
pub open spec fn passes_filter_spec(
    name: Seq<char>,
    path: Seq<char>,
    name_allow: Option<Seq<Seq<char>>>,
    name_block: Option<Seq<Seq<char>>>,
    path_allow: Option<Seq<Seq<char>>>,
    path_block: Option<Seq<Seq<char>>>,
) -> bool {
    &&& (name_allow matches Some(a) ==> a.contains(name))
    &&& (name_block matches Some(b) ==> !b.contains(name))
    &&& (path_allow matches Some(a) ==> a.contains(path))
    &&& (path_block matches Some(b) ==> !b.contains(path))
}

/// The views of a list of strings.
pub open spec fn views(v: Seq<String>) -> Seq<Seq<char>> {
    v.map_values(|s: String| s@)
}

/// The path of an imported dependency once the import's prefix applies.
pub open spec fn prefixed(prefix: Option<Seq<char>>, path: Seq<char>) -> Seq<char> {
    match prefix {
        Some(p) => p + "/"@ + path,
        None => path,
    }
}

/// Whether `out` is what a failed parse `e` of `path` fetched from `url` at
/// `rev` surfaces as: parse errors pass through, anything else becomes a
/// parse error whose reason is its message.
pub open spec fn rewrapped(out: ResolveError, e: ResolveError, url: Seq<char>, rev: Seq<char>, path: Seq<char>) -> bool {
    match e {
        ResolveError::ParseError { .. } => out == e,
        _ => match out {
            ResolveError::ParseError { url: u, rev: r, path: p, reason } => u@ == url && r@ == rev && p@
                == path && reason@ == resolve_error_message(e),
            _ => false,
        },
    }
}

/// Whether `r` is what the parser's answer `p` for `path`, fetched from the
/// repository pinned at `source`, gives: a parsed manifest as it is, a
/// parse error as it is, any other error as a parse error naming the file.
pub open spec fn parsed_reply(
    p: Result<Manifest, ResolveError>,
    source: ResolvedGit,
    path: Seq<char>,
    r: Result<Manifest, ResolveError>,
) -> bool {
    match p {
        Ok(m) => r == Ok::<Manifest, ResolveError>(m),
        Err(e) => r matches Err(out) && rewrapped(out, e, source.url@, source.rev@, path),
    }
}

// ── Helpers ───────────────────────────────────────────────────────────

/// Whether `list` holds `item`.
fn list_contains(list: &Vec<String>, item: &str) -> (b: bool)
    ensures
        b == views(list@).contains(item@),
{
    let n = list.len();
    for i in 0..n
        invariant
            n == list@.len(),
            forall|j: int| 0 <= j < i ==> list@[j]@ != item@,
    {
        if crate::text::str_eq(list[i].as_str(), item) {
            assert(views(list@)[i as int] == item@);
            return true;
        }
    }
    assert forall|j: int| 0 <= j < views(list@).len() implies views(list@)[j] != item@ by {
        assert(views(list@)[j] == list@[j]@);
    }
    false
}

/// Whether a dependency named `name` at `path` passes the allow/block lists
/// of a filtered import.
pub fn passes_filter(
    name: &str,
    path: &str,
    name_allow: Option<&Vec<String>>,
    name_block: Option<&Vec<String>>,
    path_allow: Option<&Vec<String>>,
    path_block: Option<&Vec<String>>,
) -> (b: bool)
    ensures
        b == passes_filter_spec(
            name@,
            path@,
            match name_allow { Some(l) => Some(views(l@)), None => None },
            match name_block { Some(l) => Some(views(l@)), None => None },
            match path_allow { Some(l) => Some(views(l@)), None => None },
            match path_block { Some(l) => Some(views(l@)), None => None },
        ),
{
    if let Some(allow) = name_allow {
        if !list_contains(allow, name) {
            return false;
        }
    }
    if let Some(block) = name_block {
        if list_contains(block, name) {
            return false;
        }
    }
    if let Some(allow) = path_allow {
        if !list_contains(allow, path) {
            return false;
        }
    }
    if let Some(block) = path_block {
        if list_contains(block, path) {
            return false;
        }
    }
    true
}

/// A dependency whose path is on the path blocklist is never imported,
/// whatever its name and whatever the other lists say.
pub proof fn lemma_path_blocklist_excludes(
    name: Seq<char>,
    path: Seq<char>,
    name_allow: Option<Seq<Seq<char>>>,
    name_block: Option<Seq<Seq<char>>>,
    path_allow: Option<Seq<Seq<char>>>,
    block: Seq<Seq<char>>,
)
    requires
        block.contains(path),
    ensures
        !passes_filter_spec(name, path, name_allow, name_block, path_allow, Some(block)),
{
}

/// A dependency whose name is on the name blocklist is never imported,
/// whatever its path and whatever the other lists say.
pub proof fn lemma_name_blocklist_excludes(
    name: Seq<char>,
    path: Seq<char>,
    name_allow: Option<Seq<Seq<char>>>,
    block: Seq<Seq<char>>,
    path_allow: Option<Seq<Seq<char>>>,
    path_block: Option<Seq<Seq<char>>>,
)
    requires
        block.contains(name),
    ensures
        !passes_filter_spec(name, path, name_allow, Some(block), path_allow, path_block),
{
}

/// With a name allowlist, only the names on it are imported.
pub proof fn lemma_name_allowlist_limits(
    name: Seq<char>,
    path: Seq<char>,
    allow: Seq<Seq<char>>,
    name_block: Option<Seq<Seq<char>>>,
    path_allow: Option<Seq<Seq<char>>>,
    path_block: Option<Seq<Seq<char>>>,
)
    requires
        !allow.contains(name),
    ensures
        !passes_filter_spec(name, path, Some(allow), name_block, path_allow, path_block),
{
}

/// With a path allowlist, only the paths on it are imported.
pub proof fn lemma_path_allowlist_limits(
    name: Seq<char>,
    path: Seq<char>,
    name_allow: Option<Seq<Seq<char>>>,
    name_block: Option<Seq<Seq<char>>>,
    allow: Seq<Seq<char>>,
    path_block: Option<Seq<Seq<char>>>,
)
    requires
        !allow.contains(path),
    ensures
        !passes_filter_spec(name, path, name_allow, name_block, Some(allow), path_block),
{
}

/// A dependency that every given allowlist holds (its name on the name
/// list, its path on the path list) and no blocklist names passes; with no
/// lists at all, every dependency passes.
pub proof fn lemma_filter_admits(
    name: Seq<char>,
    path: Seq<char>,
    name_allow: Option<Seq<Seq<char>>>,
    name_block: Option<Seq<Seq<char>>>,
    path_allow: Option<Seq<Seq<char>>>,
    path_block: Option<Seq<Seq<char>>>,
)
    requires
        name_allow matches Some(a) ==> a.contains(name),
        name_block matches Some(b) ==> !b.contains(name),
        path_allow matches Some(a) ==> a.contains(path),
        path_block matches Some(b) ==> !b.contains(path),
    ensures
        passes_filter_spec(name, path, name_allow, name_block, path_allow, path_block),
        passes_filter_spec(name, path, None, None, None, None),
{
}


/// The names of the dependencies of `deps` that pass the allow/block lists
/// of a filtered import, in order.
pub fn filtered_dep_names(
    deps: &NameMap<Dep>,
    name_allow: Option<&Vec<String>>,
    name_block: Option<&Vec<String>>,
    path_allow: Option<&Vec<String>>,
    path_block: Option<&Vec<String>>,
) -> (v: Vec<String>)
    ensures
        deps.wf(),
        views(v@) == filtered_names(
            deps.items(),
            match name_allow { Some(l) => Some(views(l@)), None => None },
            match name_block { Some(l) => Some(views(l@)), None => None },
            match path_allow { Some(l) => Some(views(l@)), None => None },
            match path_block { Some(l) => Some(views(l@)), None => None },
        ),
{
    let ghost na = match name_allow { Some(l) => Some(views(l@)), None => None };
    let ghost nb = match name_block { Some(l) => Some(views(l@)), None => None };
    let ghost pa = match path_allow { Some(l) => Some(views(l@)), None => None };
    let ghost pb = match path_block { Some(l) => Some(views(l@)), None => None };
    let ghost items = deps.items();
    let mut v: Vec<String> = Vec::new();
    let n = deps.len();
    assert(items.take(0) =~= Seq::<(String, Dep)>::empty());
    assert(views(v@) =~= Seq::<Seq<char>>::empty());
    for i in 0..n
        invariant
            n == deps.items().len(),
            items == deps.items(),
            na == match name_allow { Some(l) => Some(views(l@)), None => None },
            nb == match name_block { Some(l) => Some(views(l@)), None => None },
            pa == match path_allow { Some(l) => Some(views(l@)), None => None },
            pb == match path_block { Some(l) => Some(views(l@)), None => None },
            views(v@) == filtered_names(items.take(i as int), na, nb, pa, pb),
    {
        let name = deps.key_at(i);
        let dep = deps.value_at(i);
        proof {
            assert(items.take(i + 1).drop_last() =~= items.take(i as int));
            assert(items.take(i + 1).last() == items[i as int]);
        }
        let pass = passes_filter(name.as_str(), dep.path.as_str(), name_allow, name_block, path_allow, path_block);
        assert(pass == passes_filter_spec(name@, dep.path@, na, nb, pa, pb));
        if pass {
            let ghost before = v@;
            v.push(name.clone());
            assert(views(v@) =~= views(before).push(name@));
        }
    }
    assert(items.take(n as int) =~= items);
    v
}

/// The key of fetching `path` at the pinned commit of `source`.
pub fn fetch_key_of(source: &ResolvedGit, path: &str) -> (k: String)
    ensures
        k@ == fetch_key(source.url@, source.commit@, path@),
{
    let mut k = source.url.clone();
    push_str(&mut k, "@");
    push_str(&mut k, source.commit.as_str());
    push_str(&mut k, ":");
    push_str(&mut k, path);
    k
}

/// The error that a failed parse `e` of `path` fetched from `source`
/// surfaces as.
pub fn rewrap_parse_error(e: ResolveError, source: &ResolvedGit, path: &str) -> (out: ResolveError)
    ensures
        rewrapped(out, e, source.url@, source.rev@, path@),
{
    match e {
        ResolveError::ParseError { .. } => e,
        other => {
            let reason = other.message();
            ResolveError::ParseError {
                url: source.url.clone(),
                rev: source.rev.clone(),
                path: owned(path),
                reason,
            }
        },
    }
}

/// The path `path` under the import's `prefix`: `prefix/path`.
pub fn prefixed_path(prefix: &Option<String>, path: &str) -> (p: String)
    ensures
        p@ == prefixed(
            match prefix { Some(x) => Some(x@), None => None },
            path@,
        ),
{
    match prefix {
        Some(pfx) => {
            let mut p = pfx.clone();
            push_str(&mut p, "/");
            push_str(&mut p, path);
            p
        },
        None => owned(path),
    }
}

/// `after` starts with `before`.
pub open spec fn extends<T>(before: Seq<T>, after: Seq<T>) -> bool {
    before.len() <= after.len() && forall|i: int| 0 <= i < before.len() ==> #[trigger] after[i] == before[i]
}

/// The repository a source names.
pub open spec fn source_git(s: Source) -> Git {
    match s {
        Source::Git(g) => g,
    }
}

/// `after` extends the fetch log `before`.
pub open spec fn progressed(before: Seq<FetchRecord>, after: Seq<FetchRecord>) -> bool {
    before.len() <= after.len() && forall|i: int| 0 <= i < before.len() ==> #[trigger] after[i] == before[i]
}

/// A cycle error names a key that was fetched before.
pub open spec fn cycle_names_fetched<T>(r: Result<T, ResolveError>, log: Seq<FetchRecord>) -> bool {
    r matches Err(ResolveError::CycleDetected(k)) ==> fetched_key(log, k@)
}

/// The views of an optional list of strings.
pub open spec fn list_views(v: Option<Vec<String>>) -> Option<Seq<Seq<char>>> {
    match v {
        Some(l) => Some(views(l@)),
        None => None,
    }
}

/// How an import admits the dependencies of a manifest it reads: the
/// allow/block lists they must pass, and the prefix put before their paths.
pub struct Admission {
    pub name_allow: Option<Seq<Seq<char>>>,
    pub name_block: Option<Seq<Seq<char>>>,
    pub path_allow: Option<Seq<Seq<char>>>,
    pub path_block: Option<Seq<Seq<char>>>,
    pub prefix: Option<Seq<char>>,
}

/// The admission of a plain import: no lists, no prefix.
pub open spec fn admit_all() -> Admission {
    Admission { name_allow: None, name_block: None, path_allow: None, path_block: None, prefix: None }
}

/// The admission of a filtered import.
pub open spec fn filter_admission(
    name_allow: Option<Vec<String>>,
    name_block: Option<Vec<String>>,
    path_allow: Option<Vec<String>>,
    path_block: Option<Vec<String>>,
    prefix: Option<String>,
) -> Admission {
    Admission {
        name_allow: list_views(name_allow),
        name_block: list_views(name_block),
        path_allow: list_views(path_allow),
        path_block: list_views(path_block),
        prefix: match prefix {
            Some(p) => Some(p@),
            None => None,
        },
    }
}

/// Whether `a` admits a dependency named `name` at `path`.
pub open spec fn admits(a: Admission, name: Seq<char>, path: Seq<char>) -> bool {
    passes_filter_spec(name, path, a.name_allow, a.name_block, a.path_allow, a.path_block)
}

/// Every entry of `a` is in `b`, unchanged.
pub open spec fn grows<K, V>(a: Map<K, V>, b: Map<K, V>) -> bool {
    forall|k: K| #[trigger] a.contains_key(k) ==> b.contains_key(k) && b[k] == a[k]
}

/// Every name of `names` has an entry in `m`.
pub open spec fn all_resolved(names: Seq<String>, m: NameMap<ResolvedDep>) -> bool {
    forall|i: int| 0 <= i < names.len() ==> m.has((#[trigger] names[i])@)
}

/// The names of the entries of `items` that pass the allow/block lists, in
/// order.
pub open spec fn filtered_names(
    items: Seq<(String, Dep)>,
    name_allow: Option<Seq<Seq<char>>>,
    name_block: Option<Seq<Seq<char>>>,
    path_allow: Option<Seq<Seq<char>>>,
    path_block: Option<Seq<Seq<char>>>,
) -> Seq<Seq<char>>
    decreases items.len(),
{
    if items.len() == 0 {
        Seq::empty()
    } else {
        let init = filtered_names(items.drop_last(), name_allow, name_block, path_allow, path_block);
        let e = items.last();
        if passes_filter_spec(e.0@, e.1.path@, name_allow, name_block, path_allow, path_block) {
            init.push(e.0@)
        } else {
            init
        }
    }
}

/// Each name that passes the lists is the name of an entry of `items` whose
/// path passes them too.
proof fn lemma_filtered_member(
    items: Seq<(String, Dep)>,
    name_allow: Option<Seq<Seq<char>>>,
    name_block: Option<Seq<Seq<char>>>,
    path_allow: Option<Seq<Seq<char>>>,
    path_block: Option<Seq<Seq<char>>>,
    i: int,
)
    requires
        0 <= i < filtered_names(items, name_allow, name_block, path_allow, path_block).len(),
    ensures
        exists|j: int|
            0 <= j < items.len() && (#[trigger] items[j]).0@ == filtered_names(
                items,
                name_allow,
                name_block,
                path_allow,
                path_block,
            )[i] && passes_filter_spec(items[j].0@, items[j].1.path@, name_allow, name_block, path_allow, path_block),
    decreases items.len(),
{
    let init = filtered_names(items.drop_last(), name_allow, name_block, path_allow, path_block);
    if i < init.len() {
        lemma_filtered_member(items.drop_last(), name_allow, name_block, path_allow, path_block, i);
        let j = choose|j: int|
            0 <= j < items.drop_last().len() && (#[trigger] items.drop_last()[j]).0@ == init[i]
                && passes_filter_spec(
                items.drop_last()[j].0@,
                items.drop_last()[j].1.path@,
                name_allow,
                name_block,
                path_allow,
                path_block,
            );
        assert(items[j] == items.drop_last()[j]);
    } else {
        assert(items[items.len() - 1] == items.last());
    }
}

/// `v` ends with the names of the dependencies of `m`, in order.
pub open spec fn ends_with_names(v: Seq<String>, m: Manifest) -> bool {
    &&& v.len() >= m.deps.names().len()
    &&& views(v).skip(v.len() - m.deps.names().len()) == m.deps.names()
}

pub(crate) proof fn lemma_fetched_key_grows(a: Seq<FetchRecord>, b: Seq<FetchRecord>, k: Seq<char>)
    requires
        progressed(a, b),
        fetched_key(a, k),
    ensures
        fetched_key(b, k),
{
    let i = choose|i: int| 0 <= i < a.len() && record_key(#[trigger] a[i]) == k;
    assert(b[i] == a[i]);
}

proof fn lemma_keeps_all_resolved(names: Seq<String>, a: NameMap<ResolvedDep>, b: NameMap<ResolvedDep>)
    requires
        keeps_pins(a, b),
        all_resolved(names, a),
    ensures
        all_resolved(names, b),
{
    assert forall|i: int| 0 <= i < names.len() implies b.has((#[trigger] names[i])@) by {
        assert(a.has(names[i]@));
    }
}

proof fn lemma_progressed_trans(a: Seq<FetchRecord>, b: Seq<FetchRecord>, c: Seq<FetchRecord>)
    requires
        progressed(a, b),
        progressed(b, c),
    ensures
        progressed(a, c),
{
}

proof fn lemma_keeps_pins_trans(a: NameMap<ResolvedDep>, b: NameMap<ResolvedDep>, c: NameMap<ResolvedDep>)
    requires
        keeps_pins(a, b),
        keeps_pins(b, c),
    ensures
        keeps_pins(a, c),
{
}

/// Every entry of `a` is in `b`, unchanged.
pub open spec fn keeps_all(a: NameMap<ResolvedDep>, b: NameMap<ResolvedDep>) -> bool {
    forall|k: Seq<char>| #[trigger] a.has(k) ==> b.has(k) && b.lookup(k) == a.lookup(k)
}

/// Every name that an entry of `m` lists as imported has an entry itself.
pub open spec fn deps_ok(m: NameMap<ResolvedDep>) -> bool {
    forall|k: Seq<char>| #[trigger] m.has(k) ==> all_resolved(m.lookup(k).unwrap().deps@, m)
}

/// The strings of the lists `ls`, one list after the other.
pub open spec fn joined(ls: Seq<Seq<String>>) -> Seq<String>
    decreases ls.len(),
{
    if ls.len() == 0 {
        Seq::empty()
    } else {
        joined(ls.drop_last()) + ls.last()
    }
}

/// Joining lists of lists is a homomorphism: the names of two runs of
/// files are the names of the first run, then those of the second.
pub proof fn lemma_joined_concat(a: Seq<Seq<String>>, b: Seq<Seq<String>>)
    ensures
        joined(a + b) == joined(a) + joined(b),
    decreases b.len(),
{
    if b.len() == 0 {
        assert(a + b =~= a);
        assert(joined(a) + joined(b) =~= joined(a));
    } else {
        assert((a + b).drop_last() =~= a + b.drop_last());
        assert((a + b).last() == b.last());
        lemma_joined_concat(a, b.drop_last());
        assert(joined(a + b) =~= joined(a) + joined(b));
    }
}

/// The names of a single file are that file's names.
pub proof fn lemma_joined_single(x: Seq<String>)
    ensures
        joined(seq![x]) == x,
{
    let one = seq![x];
    assert(one.drop_last() =~= Seq::<Seq<String>>::empty());
    assert(joined(one.drop_last()) == Seq::<String>::empty());
    assert(one.last() == x);
    assert(joined(one) == joined(one.drop_last()) + one.last());
    assert(Seq::<String>::empty() + x =~= x);
}

/// Every name that file `i` lists stands in the joined list, after the
/// names of the files before it and in the order that file gives.
pub proof fn lemma_joined_holds_each(ls: Seq<Seq<String>>, i: int, j: int)
    requires
        0 <= i < ls.len(),
        0 <= j < ls[i].len(),
    ensures
        joined(ls.take(i)).len() + j < joined(ls).len(),
        joined(ls)[joined(ls.take(i)).len() + j] == ls[i][j],
{
    let pre = ls.take(i);
    let post = ls.skip(i + 1);
    assert(ls =~= pre + seq![ls[i]] + post);
    lemma_joined_concat(pre + seq![ls[i]], post);
    lemma_joined_concat(pre, seq![ls[i]]);
    lemma_joined_single(ls[i]);
    assert(joined(ls) == joined(pre) + ls[i] + joined(post));
}

/// Whether `v` is what merging the manifest `m`, fetched under the key `k`,
/// lists: the names its self import listed (recorded in `sl` under `k`; none
/// without a self dependency), then its dependencies' names in order.
pub open spec fn fetch_listed(v: Seq<String>, m: Manifest, k: Seq<char>, sl: Map<Seq<char>, Seq<String>>) -> bool {
    &&& ends_with_names(v, m)
    &&& m.self_dep is None ==> v.len() == m.deps.names().len()
    &&& m.self_dep is Some ==> sl.contains_key(k) && v.len() == sl[k].len() + m.deps.names().len() && v.take(
        sl[k].len() as int,
    ) == sl[k]
}

/// Whether `v` is the list of names that `import`, read from the repository
/// pinned at `rg`, imports, over the manifests `parsed` by fetch key.
pub open spec fn lists_imports(
    import: ImportSpec,
    rg: ResolvedGit,
    v: Seq<String>,
    parsed: Map<Seq<char>, Manifest>,
    sl: Map<Seq<char>, Seq<String>>,
) -> bool {
    match import {
        ImportSpec::NoImport => v.len() == 0,
        ImportSpec::Path(p) => {
            let k = fetch_key(rg.url@, rg.commit@, p@);
            parsed.contains_key(k) && fetch_listed(v, parsed[k], k, sl)
        },
        ImportSpec::Paths(ps) => {
            &&& forall|i: int|
                0 <= i < ps@.len() ==> parsed.contains_key(fetch_key(rg.url@, rg.commit@, (#[trigger] ps@[i])@))
            &&& exists|ls: Seq<Seq<String>>|
                ls.len() == ps@.len() && #[trigger] joined(ls) == v && forall|i: int|
                    0 <= i < ps@.len() ==> fetch_listed(
                        #[trigger] ls[i],
                        parsed[fetch_key(rg.url@, rg.commit@, ps@[i]@)],
                        fetch_key(rg.url@, rg.commit@, ps@[i]@),
                        sl,
                    )
        },
        ImportSpec::Filtered {
            path,
            name_allowlist,
            name_blocklist,
            path_allowlist,
            path_blocklist,
            path_prefix: _,
        } => {
            let k = fetch_key(rg.url@, rg.commit@, path@);
            &&& parsed.contains_key(k)
            &&& views(v) == filtered_names(
                parsed[k].deps.items(),
                list_views(name_allowlist),
                list_views(name_blocklist),
                list_views(path_allowlist),
                list_views(path_blocklist),
            )
        },
    }
}

/// Whether `pins` holds a pin of `s` answered with `rg`.
pub open spec fn pinned_in(pins: Seq<(Git, ResolvedGit)>, s: Source, rg: ResolvedGit) -> bool {
    exists|j: int| 0 <= j < pins.len() && #[trigger] pins[j] == (source_git(s), rg)
}

/// Whether `e` is the entry that an import admitting by `a` makes of the
/// dependency `d`: its path under the prefix, its source pinned by one of
/// `pins`, and the names its own import lists from the pinned repository.
pub open spec fn dep_entry(
    d: Dep,
    a: Admission,
    e: ResolvedDep,
    pins: Seq<(Git, ResolvedGit)>,
    parsed: Map<Seq<char>, Manifest>,
    sl: Map<Seq<char>, Seq<String>>,
) -> bool {
    &&& e.path@ == prefixed(a.prefix, d.path@)
    &&& match e.source {
        ResolvedSource::Git(rg) => pinned_in(pins, d.source, rg) && lists_imports(d.import, rg, e.deps@, parsed, sl),
    }
}

/// Whether `k` is the key of a manifest that `import`, read from the
/// repository pinned at `rg`, reads.
pub open spec fn import_reads(import: ImportSpec, rg: ResolvedGit, k: Seq<char>) -> bool {
    match import {
        ImportSpec::NoImport => false,
        ImportSpec::Path(p) => k == fetch_key(rg.url@, rg.commit@, p@),
        ImportSpec::Paths(ps) => exists|i: int|
            0 <= i < ps@.len() && k == fetch_key(rg.url@, rg.commit@, (#[trigger] ps@[i])@),
        ImportSpec::Filtered { path, .. } => k == fetch_key(rg.url@, rg.commit@, path@),
    }
}

/// Whether every manifest that `import` reads from the repository pinned at
/// `rg` was fetched at a position of `log` from `from` on.
pub open spec fn reads_fetched_from(import: ImportSpec, rg: ResolvedGit, log: Seq<FetchRecord>, from: int) -> bool {
    forall|k: Seq<char>|
        #[trigger] import_reads(import, rg, k) ==> exists|i: int|
            from <= i < log.len() && record_key(#[trigger] log[i]) == k
}

/// Whether every manifest that `import` reads from the repository pinned at
/// `rg` was fetched after the manifest with key `f`.
pub open spec fn reads_after(import: ImportSpec, rg: ResolvedGit, f: Seq<char>, log: Seq<FetchRecord>) -> bool {
    exists|i: int| 0 <= i < log.len() && record_key(#[trigger] log[i]) == f && reads_fetched_from(import, rg, log, i + 1)
}

/// Whether `e`, the entry under `k`, comes from a manifest fetched after
/// the fetches `log`: the entry that its fetching import makes of the
/// manifest's dependency `k`, which that import admits; and the manifests
/// that the entry's own import reads were fetched after that manifest, in
/// the fetches `now`.
pub open spec fn dep_explained(
    k: Seq<char>,
    e: ResolvedDep,
    parsed: Map<Seq<char>, Manifest>,
    sl: Map<Seq<char>, Seq<String>>,
    admitted: Map<Seq<char>, Admission>,
    pins: Seq<(Git, ResolvedGit)>,
    log: Seq<FetchRecord>,
    now: Seq<FetchRecord>,
) -> bool {
    exists|f: Seq<char>|
        #[trigger] parsed.contains_key(f) && admitted.contains_key(f) && !fetched_key(log, f)
            && parsed[f].deps.has(k) && admits(admitted[f], k, parsed[f].deps.lookup(k).unwrap().path@)
            && dep_entry(parsed[f].deps.lookup(k).unwrap(), admitted[f], e, pins, parsed, sl) && match e.source {
            ResolvedSource::Git(rg) => reads_after(parsed[f].deps.lookup(k).unwrap().import, rg, f, now),
        }
}

/// Every entry of `after` that `before` lacks, but for `skip`, comes from a
/// manifest fetched after the fetches `log`.
pub open spec fn dep_new_explained(
    before: NameMap<ResolvedDep>,
    after: NameMap<ResolvedDep>,
    skip: Option<Seq<char>>,
    parsed: Map<Seq<char>, Manifest>,
    sl: Map<Seq<char>, Seq<String>>,
    admitted: Map<Seq<char>, Admission>,
    pins: Seq<(Git, ResolvedGit)>,
    log: Seq<FetchRecord>,
    now: Seq<FetchRecord>,
) -> bool {
    forall|k: Seq<char>|
        #[trigger] after.has(k) ==> before.has(k) || skip == Some(k) || dep_explained(
            k,
            after.lookup(k).unwrap(),
            parsed,
            sl,
            admitted,
            pins,
            log,
            now,
        )
}

proof fn lemma_lists_persist(
    import: ImportSpec,
    rg: ResolvedGit,
    v: Seq<String>,
    p1: Map<Seq<char>, Manifest>,
    s1: Map<Seq<char>, Seq<String>>,
    p2: Map<Seq<char>, Manifest>,
    s2: Map<Seq<char>, Seq<String>>,
)
    requires
        lists_imports(import, rg, v, p1, s1),
        grows(p1, p2),
        grows(s1, s2),
    ensures
        lists_imports(import, rg, v, p2, s2),
{
    match import {
        ImportSpec::Paths(ps) => {
            let ls = choose|ls: Seq<Seq<String>>|
                ls.len() == ps@.len() && #[trigger] joined(ls) == v && forall|i: int|
                    0 <= i < ps@.len() ==> fetch_listed(
                        #[trigger] ls[i],
                        p1[fetch_key(rg.url@, rg.commit@, ps@[i]@)],
                        fetch_key(rg.url@, rg.commit@, ps@[i]@),
                        s1,
                    );
            assert forall|i: int| 0 <= i < ps@.len() implies fetch_listed(
                #[trigger] ls[i],
                p2[fetch_key(rg.url@, rg.commit@, ps@[i]@)],
                fetch_key(rg.url@, rg.commit@, ps@[i]@),
                s2,
            ) by {
                let k = fetch_key(rg.url@, rg.commit@, ps@[i]@);
                assert(p1.contains_key(k));
                if s1.contains_key(k) {
                    assert(s2[k] == s1[k]);
                }
            }
        },
        ImportSpec::Path(p) => {
            let k = fetch_key(rg.url@, rg.commit@, p@);
            assert(p1.contains_key(k));
            if s1.contains_key(k) {
                assert(s2[k] == s1[k]);
            }
        },
        ImportSpec::Filtered { path, .. } => {
            assert(p1.contains_key(fetch_key(rg.url@, rg.commit@, path@)));
        },
        ImportSpec::NoImport => {},
    }
}

proof fn lemma_reads_grow(import: ImportSpec, rg: ResolvedGit, n1: Seq<FetchRecord>, n2: Seq<FetchRecord>, from: int)
    requires
        reads_fetched_from(import, rg, n1, from),
        progressed(n1, n2),
        0 <= from,
    ensures
        reads_fetched_from(import, rg, n2, from),
{
    assert forall|k: Seq<char>| #[trigger] import_reads(import, rg, k) implies exists|i: int|
        from <= i < n2.len() && record_key(#[trigger] n2[i]) == k by {
        let i = choose|i: int| from <= i < n1.len() && record_key(#[trigger] n1[i]) == k;
        assert(n2[i] == n1[i]);
    }
}

proof fn lemma_reads_weaken(import: ImportSpec, rg: ResolvedGit, log: Seq<FetchRecord>, a: int, b: int)
    requires
        reads_fetched_from(import, rg, log, b),
        a <= b,
    ensures
        reads_fetched_from(import, rg, log, a),
{
    assert forall|k: Seq<char>| #[trigger] import_reads(import, rg, k) implies exists|i: int|
        a <= i < log.len() && record_key(#[trigger] log[i]) == k by {
        let i = choose|i: int| b <= i < log.len() && record_key(#[trigger] log[i]) == k;
    }
}

proof fn lemma_reads_after_grow(import: ImportSpec, rg: ResolvedGit, f: Seq<char>, n1: Seq<FetchRecord>, n2: Seq<FetchRecord>)
    requires
        reads_after(import, rg, f, n1),
        progressed(n1, n2),
    ensures
        reads_after(import, rg, f, n2),
{
    let i = choose|i: int| 0 <= i < n1.len() && record_key(#[trigger] n1[i]) == f && reads_fetched_from(import, rg, n1, i + 1);
    lemma_reads_grow(import, rg, n1, n2, i + 1);
    assert(n2[i] == n1[i]);
}

/// A key fetched by now but not before the fetches `old` sits at a position
/// past them.
pub(crate) proof fn lemma_fresh_position(old: Seq<FetchRecord>, now: Seq<FetchRecord>, k: Seq<char>)
    requires
        progressed(old, now),
        fetched_key(now, k),
        !fetched_key(old, k),
    ensures
        exists|i: int| old.len() <= i < now.len() && record_key(#[trigger] now[i]) == k,
{
    let i = choose|i: int| 0 <= i < now.len() && record_key(#[trigger] now[i]) == k;
    if i < old.len() {
        assert(now[i] == old[i]);
        assert(fetched_key(old, k));
    }
}

proof fn lemma_dep_explained_persists(
    k: Seq<char>,
    e: ResolvedDep,
    p1: Map<Seq<char>, Manifest>,
    s1: Map<Seq<char>, Seq<String>>,
    a1: Map<Seq<char>, Admission>,
    pins1: Seq<(Git, ResolvedGit)>,
    l1: Seq<FetchRecord>,
    n1: Seq<FetchRecord>,
    p2: Map<Seq<char>, Manifest>,
    s2: Map<Seq<char>, Seq<String>>,
    a2: Map<Seq<char>, Admission>,
    pins2: Seq<(Git, ResolvedGit)>,
    l0: Seq<FetchRecord>,
    n2: Seq<FetchRecord>,
)
    requires
        dep_explained(k, e, p1, s1, a1, pins1, l1, n1),
        grows(p1, p2),
        grows(s1, s2),
        grows(a1, a2),
        extends(pins1, pins2),
        progressed(l0, l1),
        progressed(n1, n2),
    ensures
        dep_explained(k, e, p2, s2, a2, pins2, l0, n2),
{
    let f = choose|f: Seq<char>|
        #[trigger] p1.contains_key(f) && a1.contains_key(f) && !fetched_key(l1, f) && p1[f].deps.has(k)
            && admits(a1[f], k, p1[f].deps.lookup(k).unwrap().path@) && dep_entry(
            p1[f].deps.lookup(k).unwrap(),
            a1[f],
            e,
            pins1,
            p1,
            s1,
        ) && match e.source {
            ResolvedSource::Git(rg) => reads_after(p1[f].deps.lookup(k).unwrap().import, rg, f, n1),
        };
    if fetched_key(l0, f) {
        lemma_fetched_key_grows(l0, l1, f);
    }
    assert(p2.contains_key(f) && a2.contains_key(f));
    let d = p1[f].deps.lookup(k).unwrap();
    match e.source {
        ResolvedSource::Git(rg) => {
            let j = choose|j: int| 0 <= j < pins1.len() && #[trigger] pins1[j] == (source_git(d.source), rg);
            assert(pins2[j] == pins1[j]);
            lemma_lists_persist(d.import, rg, e.deps@, p1, s1, p2, s2);
            lemma_reads_after_grow(d.import, rg, f, n1, n2);
        },
    }
}

/// Composes the new entries of two successive steps.
proof fn lemma_dep_explained_step(
    m_old: NameMap<ResolvedDep>,
    r0: NameMap<ResolvedDep>,
    r1: NameMap<ResolvedDep>,
    skip: Option<Seq<char>>,
    p0: Map<Seq<char>, Manifest>,
    s0: Map<Seq<char>, Seq<String>>,
    a0: Map<Seq<char>, Admission>,
    pins0: Seq<(Git, ResolvedGit)>,
    p1: Map<Seq<char>, Manifest>,
    s1: Map<Seq<char>, Seq<String>>,
    a1: Map<Seq<char>, Admission>,
    pins1: Seq<(Git, ResolvedGit)>,
    l_old: Seq<FetchRecord>,
    l0: Seq<FetchRecord>,
    l1: Seq<FetchRecord>,
)
    requires
        dep_new_explained(m_old, r0, None, p0, s0, a0, pins0, l_old, l0),
        keeps_all(r0, r1),
        dep_new_explained(r0, r1, skip, p1, s1, a1, pins1, l0, l1),
        grows(p0, p1),
        grows(s0, s1),
        grows(a0, a1),
        extends(pins0, pins1),
        progressed(l_old, l0),
        progressed(l0, l1),
        skip matches Some(name) ==> (r1.has(name) && !r0.has(name) ==> dep_explained(
            name,
            r1.lookup(name).unwrap(),
            p1,
            s1,
            a1,
            pins1,
            l_old,
            l1,
        )),
    ensures
        dep_new_explained(m_old, r1, None, p1, s1, a1, pins1, l_old, l1),
{
    assert forall|k: Seq<char>| #[trigger] r1.has(k) implies m_old.has(k) || None::<Seq<char>> == Some(k)
        || dep_explained(k, r1.lookup(k).unwrap(), p1, s1, a1, pins1, l_old, l1) by {
        if r0.has(k) {
            if !m_old.has(k) {
                assert(dep_explained(k, r0.lookup(k).unwrap(), p0, s0, a0, pins0, l_old, l0));
                lemma_dep_explained_persists(k, r0.lookup(k).unwrap(), p0, s0, a0, pins0, l_old, l0, p1, s1, a1, pins1, l_old, l1);
            }
        } else if skip != Some(k) {
            lemma_dep_explained_persists(k, r1.lookup(k).unwrap(), p1, s1, a1, pins1, l0, l1, p1, s1, a1, pins1, l_old, l1);
        }
    }
}

/// Every recorded self-import list belongs to a parsed manifest with a self
/// dependency, and is what that self import lists from a pin of its source.
pub open spec fn self_lists_ok(
    sl: Map<Seq<char>, Seq<String>>,
    parsed: Map<Seq<char>, Manifest>,
    pins: Seq<(Git, ResolvedGit)>,
) -> bool {
    forall|k: Seq<char>|
        #[trigger] sl.contains_key(k) ==> parsed.contains_key(k) && parsed[k].self_dep is Some && exists|
            rg: ResolvedGit,
        |
            pinned_in(pins, parsed[k].self_dep->Some_0.source, rg) && #[trigger] lists_imports(
                parsed[k].self_dep->Some_0.import,
                rg,
                sl[k],
                parsed,
                sl,
            )
}

/// The self-import lists that `s2` adds to `s1` belong to manifests not
/// fetched before the fetches `log`.
pub open spec fn lists_fresh(s1: Map<Seq<char>, Seq<String>>, s2: Map<Seq<char>, Seq<String>>, log: Seq<FetchRecord>) -> bool {
    &&& grows(s1, s2)
    &&& forall|k: Seq<char>| #[trigger] s2.contains_key(k) && !s1.contains_key(k) ==> !fetched_key(log, k)
}

proof fn lemma_lists_fresh_trans(
    s0: Map<Seq<char>, Seq<String>>,
    s1: Map<Seq<char>, Seq<String>>,
    s2: Map<Seq<char>, Seq<String>>,
    l0: Seq<FetchRecord>,
    l1: Seq<FetchRecord>,
)
    requires
        lists_fresh(s0, s1, l0),
        lists_fresh(s1, s2, l1),
        progressed(l0, l1),
    ensures
        lists_fresh(s0, s2, l0),
{
    assert forall|k: Seq<char>| #[trigger] s2.contains_key(k) && !s0.contains_key(k) implies !fetched_key(l0, k) by {
        if !s1.contains_key(k) && fetched_key(l0, k) {
            lemma_fetched_key_grows(l0, l1, k);
        }
    }
}

/// The recorded self-import lists stay right as more is parsed and pinned.
proof fn lemma_self_lists_persist(
    sl: Map<Seq<char>, Seq<String>>,
    p1: Map<Seq<char>, Manifest>,
    pins1: Seq<(Git, ResolvedGit)>,
    p2: Map<Seq<char>, Manifest>,
    pins2: Seq<(Git, ResolvedGit)>,
)
    requires
        self_lists_ok(sl, p1, pins1),
        grows(p1, p2),
        extends(pins1, pins2),
    ensures
        self_lists_ok(sl, p2, pins2),
{
    assert forall|k: Seq<char>| #[trigger] sl.contains_key(k) implies p2.contains_key(k) && p2[k].self_dep is Some
        && exists|rg: ResolvedGit|
        pinned_in(pins2, p2[k].self_dep->Some_0.source, rg) && #[trigger] lists_imports(
            p2[k].self_dep->Some_0.import,
            rg,
            sl[k],
            p2,
            sl,
        ) by {
        let sd = p1[k].self_dep->Some_0;
        let rg = choose|rg: ResolvedGit| pinned_in(pins1, sd.source, rg) && #[trigger] lists_imports(sd.import, rg, sl[k], p1, sl);
        let j = choose|j: int| 0 <= j < pins1.len() && #[trigger] pins1[j] == (source_git(sd.source), rg);
        assert(pins2[j] == pins1[j]);
        lemma_lists_persist(sd.import, rg, sl[k], p1, sl, p2, sl);
    }
}

/// Recording the list of a new self import keeps the records right.
proof fn lemma_self_lists_extend(
    sl: Map<Seq<char>, Seq<String>>,
    parsed: Map<Seq<char>, Manifest>,
    pins: Seq<(Git, ResolvedGit)>,
    key: Seq<char>,
    v: Seq<String>,
    rg: ResolvedGit,
)
    requires
        self_lists_ok(sl, parsed, pins),
        !sl.contains_key(key),
        parsed.contains_key(key),
        parsed[key].self_dep is Some,
        pinned_in(pins, parsed[key].self_dep->Some_0.source, rg),
        lists_imports(parsed[key].self_dep->Some_0.import, rg, v, parsed, sl),
    ensures
        self_lists_ok(sl.insert(key, v), parsed, pins),
        grows(sl, sl.insert(key, v)),
{
    let s2 = sl.insert(key, v);
    assert(grows(sl, s2));
    assert forall|k: Seq<char>| #[trigger] s2.contains_key(k) implies parsed.contains_key(k) && parsed[k].self_dep is Some
        && exists|r: ResolvedGit|
        pinned_in(pins, parsed[k].self_dep->Some_0.source, r) && #[trigger] lists_imports(
            parsed[k].self_dep->Some_0.import,
            r,
            s2[k],
            parsed,
            s2,
        ) by {
        if k == key {
            lemma_lists_persist(parsed[key].self_dep->Some_0.import, rg, v, parsed, sl, parsed, s2);
            assert(s2[k] == v);
            assert(pinned_in(pins, parsed[k].self_dep->Some_0.source, rg) && lists_imports(
                parsed[k].self_dep->Some_0.import,
                rg,
                s2[k],
                parsed,
                s2,
            ));
        } else {
            assert(sl.contains_key(k));
            let sd = parsed[k].self_dep->Some_0;
            let r = choose|r: ResolvedGit| pinned_in(pins, sd.source, r) && #[trigger] lists_imports(sd.import, r, sl[k], parsed, sl);
            lemma_lists_persist(sd.import, r, sl[k], parsed, sl, parsed, s2);
            assert(s2[k] == sl[k]);
            assert(pinned_in(pins, sd.source, r) && lists_imports(sd.import, r, s2[k], parsed, s2));
        }
    }
}

/// Whether resolving `m` involves no import at all: no self dependency, and
/// no dependency that imports anything.
pub open spec fn flat_manifest(m: Manifest) -> bool {
    &&& m.self_dep is None
    &&& forall|j: int| 0 <= j < m.deps.items().len() ==> (#[trigger] m.deps.items()[j]).1.import is NoImport
}

/// Whether the manifest fetched under `g` declares `k` and the import that
/// fetched it admits `k`.
pub open spec fn admits_from(
    parsed: Map<Seq<char>, Manifest>,
    admitted: Map<Seq<char>, Admission>,
    g: Seq<char>,
    k: Seq<char>,
) -> bool {
    &&& parsed.contains_key(g)
    &&& admitted.contains_key(g)
    &&& parsed[g].deps.has(k)
    &&& admits(admitted[g], k, parsed[g].deps.lookup(k).unwrap().path@)
}

/// Every name that a manifest fetched after the fetches `log` (but `skip`)
/// declares and admits has an entry in `m`.
pub open spec fn covered(
    m: NameMap<ResolvedDep>,
    parsed: Map<Seq<char>, Manifest>,
    admitted: Map<Seq<char>, Admission>,
    log: Seq<FetchRecord>,
    skip: Option<Seq<char>>,
) -> bool {
    forall|g: Seq<char>, k: Seq<char>|
        #[trigger] admits_from(parsed, admitted, g, k) && !fetched_key(log, g) && skip != Some(g) ==> m.has(k)
}

/// The manifests that `p1` adds to `p0` were fetched after the fetches `log`.
pub open spec fn parsed_fresh(p0: Map<Seq<char>, Manifest>, p1: Map<Seq<char>, Manifest>, log: Seq<FetchRecord>) -> bool {
    forall|g: Seq<char>| #[trigger] p1.contains_key(g) && !p0.contains_key(g) ==> !fetched_key(log, g)
}

proof fn lemma_parsed_fresh_trans(
    p0: Map<Seq<char>, Manifest>,
    p1: Map<Seq<char>, Manifest>,
    p2: Map<Seq<char>, Manifest>,
    l0: Seq<FetchRecord>,
    l1: Seq<FetchRecord>,
)
    requires
        parsed_fresh(p0, p1, l0),
        parsed_fresh(p1, p2, l1),
        grows(p0, p1),
        progressed(l0, l1),
    ensures
        parsed_fresh(p0, p2, l0),
{
    assert forall|g: Seq<char>| #[trigger] p2.contains_key(g) && !p0.contains_key(g) implies !fetched_key(l0, g) by {
        if !p1.contains_key(g) && fetched_key(l0, g) {
            lemma_fetched_key_grows(l0, l1, g);
        }
    }
}

/// Composes what a step covers with what was covered before it.
proof fn lemma_covered_step(
    r0: NameMap<ResolvedDep>,
    r1: NameMap<ResolvedDep>,
    p0: Map<Seq<char>, Manifest>,
    a0: Map<Seq<char>, Admission>,
    p1: Map<Seq<char>, Manifest>,
    a1: Map<Seq<char>, Admission>,
    l_old: Seq<FetchRecord>,
    l0: Seq<FetchRecord>,
    skip: Option<Seq<char>>,
)
    requires
        covered(r0, p0, a0, l_old, skip),
        covered(r1, p1, a1, l0, None),
        keeps_all(r0, r1),
        grows(p0, p1),
        grows(a0, a1),
        a0.dom() == p0.dom(),
        parsed_fresh(p0, p1, l0),
    ensures
        covered(r1, p1, a1, l_old, skip),
{
    assert forall|g: Seq<char>, k: Seq<char>|
        #[trigger] admits_from(p1, a1, g, k) && !fetched_key(l_old, g) && skip != Some(g) implies r1.has(k) by {
        if p0.contains_key(g) {
            assert(admits_from(p0, a0, g, k));
            assert(r0.has(k));
        } else {
            assert(None::<Seq<char>> != Some(g));
        }
    }
}

/// Each entry of `items` that passes the lists has its name among the
/// filtered names.
proof fn lemma_filtered_includes(
    items: Seq<(String, Dep)>,
    name_allow: Option<Seq<Seq<char>>>,
    name_block: Option<Seq<Seq<char>>>,
    path_allow: Option<Seq<Seq<char>>>,
    path_block: Option<Seq<Seq<char>>>,
    j: int,
)
    requires
        0 <= j < items.len(),
        passes_filter_spec(items[j].0@, items[j].1.path@, name_allow, name_block, path_allow, path_block),
    ensures
        filtered_names(items, name_allow, name_block, path_allow, path_block).contains(items[j].0@),
    decreases items.len(),
{
    let init = filtered_names(items.drop_last(), name_allow, name_block, path_allow, path_block);
    if j < items.len() - 1 {
        assert(items.drop_last()[j] == items[j]);
        lemma_filtered_includes(items.drop_last(), name_allow, name_block, path_allow, path_block, j);
        let x = choose|x: int| 0 <= x < init.len() && init[x] == items[j].0@;
        let all = filtered_names(items, name_allow, name_block, path_allow, path_block);
        assert(all[x] == init[x]);
    } else {
        let all = filtered_names(items, name_allow, name_block, path_allow, path_block);
        assert(all[all.len() - 1] == items[j].0@);
    }
}

/// Whether every manifest that `import` reads from the repository pinned at
/// `rg` was fetched at a position of `log` from `a` up to (not including) `b`.
pub open spec fn reads_between(import: ImportSpec, rg: ResolvedGit, log: Seq<FetchRecord>, a: int, b: int) -> bool {
    forall|k: Seq<char>|
        #[trigger] import_reads(import, rg, k) ==> exists|i: int|
            a <= i < b && i < log.len() && record_key(#[trigger] log[i]) == k
}

/// Every entry of `m` that is not a direct dependency comes from a manifest
/// fetched after the fetches `log` (see `dep_explained`).
pub open spec fn non_direct_explained(
    m: NameMap<ResolvedDep>,
    direct: NameMap<Dep>,
    parsed: Map<Seq<char>, Manifest>,
    sl: Map<Seq<char>, Seq<String>>,
    admitted: Map<Seq<char>, Admission>,
    pins: Seq<(Git, ResolvedGit)>,
    log: Seq<FetchRecord>,
    now: Seq<FetchRecord>,
) -> bool {
    forall|k: Seq<char>|
        #[trigger] m.has(k) && !direct.has(k) ==> dep_explained(k, m.lookup(k).unwrap(), parsed, sl, admitted, pins, log, now)
}

/// The walk order over the steps of a resolve, whose fetches end at the
/// positions `marks`: a name that is not a direct dependency and that a
/// manifest fetched by the end of some step declares and admits has an
/// entry, and that entry comes from a manifest fetched by the end of that
/// step. So the first step that meets a name decides its entry.
pub open spec fn first_step_wins(
    m: NameMap<ResolvedDep>,
    direct: NameMap<Dep>,
    parsed: Map<Seq<char>, Manifest>,
    sl: Map<Seq<char>, Seq<String>>,
    admitted: Map<Seq<char>, Admission>,
    pins: Seq<(Git, ResolvedGit)>,
    log: Seq<FetchRecord>,
    now: Seq<FetchRecord>,
    marks: Seq<int>,
) -> bool {
    forall|k: Seq<char>, g: Seq<char>, p: int|
        #![trigger admits_from(parsed, admitted, g, k), marks[p]]
        0 <= p < marks.len() && admits_from(parsed, admitted, g, k) && !fetched_key(log, g) && fetched_key(
            now.take(marks[p]),
            g,
        ) && !direct.has(k) ==> m.has(k) && dep_explained(
            k,
            m.lookup(k).unwrap(),
            parsed,
            sl,
            admitted,
            pins,
            log,
            now.take(marks[p]),
        )
}

/// The step marks rise, start after the fetches `log` and end at `now`'s end.
pub open spec fn marks_ok(marks: Seq<int>, log: Seq<FetchRecord>, now: Seq<FetchRecord>) -> bool {
    &&& marks.len() > 0 ==> log.len() <= marks[0] && marks[marks.len() - 1] == now.len()
    &&& forall|p: int, q: int| 0 <= p <= q < marks.len() ==> #[trigger] marks[p] <= #[trigger] marks[q]
}

pub(crate) proof fn lemma_fetched_in_prefix(l: Seq<FetchRecord>, m: int, g: Seq<char>)
    requires
        fetched_key(l.take(m), g),
        0 <= m <= l.len(),
    ensures
        fetched_key(l, g),
{
    let i = choose|i: int| 0 <= i < l.take(m).len() && record_key(#[trigger] l.take(m)[i]) == g;
    assert(l[i] == l.take(m)[i]);
}

/// One more step of the walk keeps the walk order.
proof fn lemma_first_step_wins_step(
    r0: NameMap<ResolvedDep>,
    r1: NameMap<ResolvedDep>,
    direct: NameMap<Dep>,
    p0: Map<Seq<char>, Manifest>,
    s0: Map<Seq<char>, Seq<String>>,
    a0: Map<Seq<char>, Admission>,
    pins0: Seq<(Git, ResolvedGit)>,
    p1: Map<Seq<char>, Manifest>,
    s1: Map<Seq<char>, Seq<String>>,
    a1: Map<Seq<char>, Admission>,
    pins1: Seq<(Git, ResolvedGit)>,
    old_log: Seq<FetchRecord>,
    l0: Seq<FetchRecord>,
    l1: Seq<FetchRecord>,
    marks: Seq<int>,
)
    requires
        first_step_wins(r0, direct, p0, s0, a0, pins0, old_log, l0, marks),
        non_direct_explained(r0, direct, p0, s0, a0, pins0, old_log, l0),
        marks_ok(marks, old_log, l0),
        marks.len() == 0 ==> l0 == old_log,
        keeps_all(r0, r1),
        dep_new_explained(r0, r1, None, p1, s1, a1, pins1, l0, l1),
        covered(r1, p1, a1, l0, None),
        parsed_fresh(p0, p1, l0),
        grows(p0, p1),
        grows(s0, s1),
        grows(a0, a1),
        extends(pins0, pins1),
        a0.dom() == p0.dom(),
        progressed(old_log, l0),
        progressed(l0, l1),
    ensures
        first_step_wins(r1, direct, p1, s1, a1, pins1, old_log, l1, marks.push(l1.len() as int)),
        non_direct_explained(r1, direct, p1, s1, a1, pins1, old_log, l1),
        marks_ok(marks.push(l1.len() as int), old_log, l1),
{
    let m2 = marks.push(l1.len() as int);
    assert forall|k: Seq<char>| #[trigger] r1.has(k) && !direct.has(k) implies dep_explained(
        k,
        r1.lookup(k).unwrap(),
        p1,
        s1,
        a1,
        pins1,
        old_log,
        l1,
    ) by {
        if r0.has(k) {
            lemma_dep_explained_persists(k, r0.lookup(k).unwrap(), p0, s0, a0, pins0, old_log, l0, p1, s1, a1, pins1, old_log, l1);
        } else {
            assert(dep_explained(k, r1.lookup(k).unwrap(), p1, s1, a1, pins1, l0, l1));
            lemma_dep_explained_persists(k, r1.lookup(k).unwrap(), p1, s1, a1, pins1, l0, l1, p1, s1, a1, pins1, old_log, l1);
        }
    }
    assert forall|k: Seq<char>, g: Seq<char>, p: int|
        #![trigger admits_from(p1, a1, g, k), m2[p]]
        0 <= p < m2.len() && admits_from(p1, a1, g, k) && !fetched_key(old_log, g) && fetched_key(l1.take(m2[p]), g)
            && !direct.has(k) implies r1.has(k) && dep_explained(
        k,
        r1.lookup(k).unwrap(),
        p1,
        s1,
        a1,
        pins1,
        old_log,
        l1.take(m2[p]),
    ) by {
        if p < marks.len() {
            assert(m2[p] == marks[p]);
            assert(marks[p] <= marks[marks.len() - 1]);
            assert(l1.take(marks[p]) =~= l0.take(marks[p]));
            lemma_fetched_in_prefix(l0, marks[p], g);
            assert(p0.contains_key(g));
            assert(admits_from(p0, a0, g, k));
            assert(marks[p] == marks[p]);
            assert(r0.has(k));
            lemma_dep_explained_persists(
                k,
                r0.lookup(k).unwrap(),
                p0,
                s0,
                a0,
                pins0,
                old_log,
                l0.take(marks[p]),
                p1,
                s1,
                a1,
                pins1,
                old_log,
                l1.take(m2[p]),
            );
        } else {
            assert(m2[p] == l1.len());
            assert(l1.take(m2[p]) =~= l1);
            if fetched_key(l0, g) {
                assert(marks.len() > 0);
                let q = marks.len() - 1;
                assert(l0.take(marks[q]) =~= l0);
                assert(p0.contains_key(g)) by {
                    if !p0.contains_key(g) {
                        assert(!fetched_key(l0, g));
                    }
                }
                assert(admits_from(p0, a0, g, k));
                assert(marks[q] == marks[q]);
                assert(r0.has(k));
                lemma_dep_explained_persists(
                    k,
                    r0.lookup(k).unwrap(),
                    p0,
                    s0,
                    a0,
                    pins0,
                    old_log,
                    l0,
                    p1,
                    s1,
                    a1,
                    pins1,
                    old_log,
                    l1,
                );
            } else {
                assert(r1.has(k));
            }
        }
    }
    assert forall|p: int, q: int| 0 <= p <= q < m2.len() implies #[trigger] m2[p] <= #[trigger] m2[q] by {
        if q < marks.len() {
            assert(marks[p] <= marks[q]);
        } else if p < marks.len() {
            assert(marks[p] <= marks[marks.len() - 1]);
        }
    }
}

proof fn lemma_reads_between_from(import: ImportSpec, rg: ResolvedGit, log: Seq<FetchRecord>, from: int)
    requires
        reads_fetched_from(import, rg, log, from),
    ensures
        reads_between(import, rg, log, from, log.len() as int),
{
    assert forall|k: Seq<char>| #[trigger] import_reads(import, rg, k) implies exists|i: int|
        from <= i < log.len() && i < log.len() && record_key(#[trigger] log[i]) == k by {
        let i = choose|i: int| from <= i < log.len() && record_key(#[trigger] log[i]) == k;
    }
}

proof fn lemma_reads_between_grow(
    import: ImportSpec,
    rg: ResolvedGit,
    n1: Seq<FetchRecord>,
    n2: Seq<FetchRecord>,
    a: int,
    b: int,
)
    requires
        reads_between(import, rg, n1, a, b),
        progressed(n1, n2),
        0 <= a,
    ensures
        reads_between(import, rg, n2, a, b),
{
    assert forall|k: Seq<char>| #[trigger] import_reads(import, rg, k) implies exists|i: int|
        a <= i < b && i < n2.len() && record_key(#[trigger] n2[i]) == k by {
        let i = choose|i: int| a <= i < b && i < n1.len() && record_key(#[trigger] n1[i]) == k;
        assert(n2[i] == n1[i]);
    }
}

/// Filling in the imported names of a direct dependency keeps the walk
/// order.
proof fn lemma_walk_patch(
    r1: NameMap<ResolvedDep>,
    r2: NameMap<ResolvedDep>,
    name: Seq<char>,
    direct: NameMap<Dep>,
    parsed: Map<Seq<char>, Manifest>,
    sl: Map<Seq<char>, Seq<String>>,
    admitted: Map<Seq<char>, Admission>,
    pins: Seq<(Git, ResolvedGit)>,
    log: Seq<FetchRecord>,
    now: Seq<FetchRecord>,
    marks: Seq<int>,
)
    requires
        forall|k: Seq<char>| #[trigger] r2.has(k) == r1.has(k),
        forall|k: Seq<char>| k != name ==> #[trigger] r2.lookup(k) == r1.lookup(k),
        direct.has(name),
        first_step_wins(r1, direct, parsed, sl, admitted, pins, log, now, marks),
        non_direct_explained(r1, direct, parsed, sl, admitted, pins, log, now),
    ensures
        first_step_wins(r2, direct, parsed, sl, admitted, pins, log, now, marks),
        non_direct_explained(r2, direct, parsed, sl, admitted, pins, log, now),
{
    assert forall|k: Seq<char>| #[trigger] r2.has(k) && !direct.has(k) implies dep_explained(
        k,
        r2.lookup(k).unwrap(),
        parsed,
        sl,
        admitted,
        pins,
        log,
        now,
    ) by {
        assert(r1.has(k));
    }
    assert forall|k: Seq<char>, g: Seq<char>, p: int|
        #![trigger admits_from(parsed, admitted, g, k), marks[p]]
        0 <= p < marks.len() && admits_from(parsed, admitted, g, k) && !fetched_key(log, g) && fetched_key(
            now.take(marks[p]),
            g,
        ) && !direct.has(k) implies r2.has(k) && dep_explained(
        k,
        r2.lookup(k).unwrap(),
        parsed,
        sl,
        admitted,
        pins,
        log,
        now.take(marks[p]),
    ) by {
        assert(r1.has(k));
        assert(r2.lookup(k) == r1.lookup(k));
    }
}

/// Whether the key `a` was fetched before the key `b` in `log`.
pub open spec fn fetched_before(log: Seq<FetchRecord>, a: Seq<char>, b: Seq<char>) -> bool {
    exists|x: int, y: int|
        #![trigger log[x], log[y]]
        0 <= x < y < log.len() && record_key(log[x]) == a && record_key(log[y]) == b
}

/// A fetch order already recorded stays recorded as the log grows.
pub(crate) proof fn lemma_fetched_before_grow(l1: Seq<FetchRecord>, l2: Seq<FetchRecord>, a: Seq<char>, b: Seq<char>)
    requires
        fetched_before(l1, a, b),
        progressed(l1, l2),
    ensures
        fetched_before(l2, a, b),
{
    let (x, y) = choose|x: int, y: int|
        #![trigger l1[x], l1[y]]
        0 <= x < y < l1.len() && record_key(l1[x]) == a && record_key(l1[y]) == b;
    assert(l2[x] == l1[x] && l2[y] == l1[y]);
}

/// A key fetched in `l0` comes before a key first fetched after it.
pub(crate) proof fn lemma_fetched_before_new(l0: Seq<FetchRecord>, l1: Seq<FetchRecord>, a: Seq<char>, b: Seq<char>)
    requires
        fetched_key(l0, a),
        !fetched_key(l0, b),
        fetched_key(l1, b),
        progressed(l0, l1),
    ensures
        fetched_before(l1, a, b),
{
    let x = choose|x: int| 0 <= x < l0.len() && record_key(#[trigger] l0[x]) == a;
    lemma_fresh_position(l0, l1, b);
    let y = choose|y: int| l0.len() <= y < l1.len() && record_key(#[trigger] l1[y]) == b;
    assert(l1[x] == l0[x]);
}

/// Replacing the value at one position changes the lookup of that name only.
proof fn lemma_patch_full(before: NameMap<ResolvedDep>, after: NameMap<ResolvedDep>, i: int)
    requires
        before.wf(),
        after.wf(),
        0 <= i < before.items().len(),
        after.items() == before.items().update(i, (before.items()[i].0, after.items()[i].1)),
    ensures
        forall|k: Seq<char>| #[trigger] after.has(k) == before.has(k),
        forall|k: Seq<char>| k != before.items()[i].0@ ==> #[trigger] after.lookup(k) == before.lookup(k),
        after.lookup(before.items()[i].0@) == Some(after.items()[i].1),
{
    assert forall|k: Seq<char>| #[trigger] after.has(k) == before.has(k) by {
        if before.has(k) {
            let p = before.pos(k);
            before.lemma_lookup_at(p);
            assert(after.items()[p].0@ == k);
        }
        if after.has(k) {
            let p = after.pos(k);
            after.lemma_lookup_at(p);
            assert(before.items()[p].0@ == k);
        }
    }
    assert forall|k: Seq<char>| k != before.items()[i].0@ implies #[trigger] after.lookup(k) == before.lookup(k) by {
        if before.has(k) {
            let p = before.pos(k);
            before.lemma_lookup_at(p);
            assert(after.items()[p].0@ == k);
            after.lemma_lookup_at(p);
        }
    }
    after.lemma_lookup_at(i);
}

proof fn lemma_patch_keeps(before: NameMap<ResolvedDep>, after: NameMap<ResolvedDep>, i: int)
    requires
        before.wf(),
        after.wf(),
        0 <= i < before.items().len(),
        entries_named(before),
        after.items() == before.items().update(i, (before.items()[i].0, after.items()[i].1)),
        same_pin(before.items()[i].1, after.items()[i].1),
    ensures
        keeps_pins(before, after),
        entries_named(after),
{
    assert forall|k: Seq<char>| #[trigger] before.has(k) implies after.has(k) && same_pin(
        before.lookup(k).unwrap(),
        after.lookup(k).unwrap(),
    ) by {
        let p = before.pos(k);
        before.lemma_lookup_at(p);
        assert(after.items()[p].0@ == k);
        after.lemma_lookup_at(p);
    }
    assert forall|k: Seq<char>| #[trigger] after.has(k) implies after.lookup(k).unwrap().name@ == k by {
        let p = after.pos(k);
        after.lemma_lookup_at(p);
        assert(before.items()[p].0@ == k);
        before.lemma_lookup_at(p);
    }
}

/// What the entry that `resolve_dep` inserts holds: the path it was given,
/// the source pinned to `rg`, and the names its import lists from there.
pub open spec fn entry_made(
    e: ResolvedDep,
    path: Seq<char>,
    import: ImportSpec,
    rg: ResolvedGit,
    parsed: Map<Seq<char>, Manifest>,
    sl: Map<Seq<char>, Seq<String>>,
) -> bool {
    &&& e.path@ == path
    &&& e.source == ResolvedSource::Git(rg)
    &&& lists_imports(import, rg, e.deps@, parsed, sl)
}

/// An entry made of the dependency `d` of the fresh manifest `f` is
/// explained by it.
proof fn lemma_fresh_entry(
    k: Seq<char>,
    e: ResolvedDep,
    d: Dep,
    f: Seq<char>,
    parsed: Map<Seq<char>, Manifest>,
    sl: Map<Seq<char>, Seq<String>>,
    admitted: Map<Seq<char>, Admission>,
    pins: Seq<(Git, ResolvedGit)>,
    log: Seq<FetchRecord>,
    before: Seq<FetchRecord>,
    now: Seq<FetchRecord>,
    j: int,
)
    requires
        parsed.contains_key(f),
        admitted.contains_key(f),
        !fetched_key(log, f),
        parsed[f].deps.has(k),
        parsed[f].deps.lookup(k) == Some(d),
        admits(admitted[f], k, d.path@),
        0 <= j < pins.len(),
        pins[j].0 == source_git(d.source),
        entry_made(e, prefixed(admitted[f].prefix, d.path@), d.import, pins[j].1, parsed, sl),
        fetched_key(before, f),
        progressed(before, now),
        reads_fetched_from(d.import, pins[j].1, now, before.len() as int),
    ensures
        dep_explained(k, e, parsed, sl, admitted, pins, log, now),
{
    let fi = choose|fi: int| 0 <= fi < before.len() && record_key(#[trigger] before[fi]) == f;
    assert(now[fi] == before[fi]);
    match e.source {
        ResolvedSource::Git(rg) => {
            assert(pins[j] == (source_git(d.source), rg));
            assert(pinned_in(pins, d.source, rg));
            assert forall|key: Seq<char>| #[trigger] import_reads(d.import, rg, key) implies exists|i: int|
                fi + 1 <= i < now.len() && record_key(#[trigger] now[i]) == key by {
                let i = choose|i: int| before.len() <= i < now.len() && record_key(#[trigger] now[i]) == key;
            }
            assert(reads_after(d.import, rg, f, now));
        },
    }
    assert(dep_entry(parsed[f].deps.lookup(k).unwrap(), admitted[f], e, pins, parsed, sl));
}

/// A map that only gains entries keeps every imported-names list resolved,
/// given that its new entries' lists are resolved.
proof fn lemma_deps_ok_grow(a: NameMap<ResolvedDep>, b: NameMap<ResolvedDep>)
    requires
        deps_ok(a),
        keeps_all(a, b),
        forall|k: Seq<char>| #[trigger] b.has(k) && !a.has(k) ==> all_resolved(b.lookup(k).unwrap().deps@, b),
    ensures
        deps_ok(b),
{
    assert forall|k: Seq<char>| #[trigger] b.has(k) implies all_resolved(b.lookup(k).unwrap().deps@, b) by {
        if a.has(k) {
            let ds = a.lookup(k).unwrap().deps@;
            assert forall|i: int| 0 <= i < ds.len() implies b.has((#[trigger] ds[i])@) by {
                assert(a.has(ds[i]@));
            }
        }
    }
}

/// Patching the imported names of one entry with resolved names keeps the
/// lists resolved, every other entry, and the entries that `base` explains.
proof fn lemma_patch_deps(
    base: NameMap<ResolvedDep>,
    before: NameMap<ResolvedDep>,
    after: NameMap<ResolvedDep>,
    i: int,
    skip: Option<Seq<char>>,
    parsed: Map<Seq<char>, Manifest>,
    sl: Map<Seq<char>, Seq<String>>,
    admitted: Map<Seq<char>, Admission>,
    pins: Seq<(Git, ResolvedGit)>,
    log: Seq<FetchRecord>,
    now: Seq<FetchRecord>,
)
    requires
        before.wf(),
        after.wf(),
        0 <= i < before.items().len(),
        after.items() == before.items().update(i, (before.items()[i].0, after.items()[i].1)),
        deps_ok(before),
        all_resolved(after.items()[i].1.deps@, before),
        base.has(before.items()[i].0@) || skip == Some(before.items()[i].0@),
        dep_new_explained(base, before, skip, parsed, sl, admitted, pins, log, now),
    ensures
        forall|k: Seq<char>| #[trigger] after.has(k) == before.has(k),
        forall|k: Seq<char>| k != before.items()[i].0@ ==> #[trigger] after.lookup(k) == before.lookup(k),
        after.lookup(before.items()[i].0@) == Some(after.items()[i].1),
        deps_ok(after),
        dep_new_explained(base, after, skip, parsed, sl, admitted, pins, log, now),
{
    lemma_patch_full(before, after, i);
    let name = before.items()[i].0@;
    assert forall|k: Seq<char>| #[trigger] after.has(k) implies all_resolved(after.lookup(k).unwrap().deps@, after) by {
        let ds = after.lookup(k).unwrap().deps@;
        if k != name {
            assert(all_resolved(before.lookup(k).unwrap().deps@, before));
        }
        assert forall|j: int| 0 <= j < ds.len() implies after.has((#[trigger] ds[j])@) by {
            assert(before.has(ds[j]@));
        }
    }
    assert forall|k: Seq<char>| #[trigger] after.has(k) implies base.has(k) || skip == Some(k) || dep_explained(
        k,
        after.lookup(k).unwrap(),
        parsed,
        sl,
        admitted,
        pins,
        log,
        now,
    ) by {
        assert(before.has(k));
    }
}

// ── DAG builder ───────────────────────────────────────────────────────

/// Recursively resolves a `Manifest` into a flat `ResolvedManifest` (DAG).
///
/// The algorithm:
/// 1. For each `Dep`, pin its git ref to a commit SHA via `GitResolver::resolve`.
/// 2. If the dep declares an `ImportSpec`, fetch the referenced file(s)
///    from the now-pinned repo, parse them via `ManifestParser`, and merge
///    the resulting deps (first-seen-wins) into the graph.
/// 3. Recurse until no new imports remain.
///
/// Cycle detection is based on `(url, commit, path)` fetch keys.
pub struct DependencyResolver<G: GitResolver, P: ManifestParser> {
    git: G,
    parser: P,
    /// The `url@commit:path` keys of the fetches made so far, to detect
    /// import cycles and avoid re-processing.
    seen_fetches: Vec<String>,
    /// The fetches made so far, in order.
    fetched: Ghost<Seq<FetchRecord>>,
    /// The revisions pinned so far, each with the commit it was pinned to, in order.
    pinned: Ghost<Seq<(Git, ResolvedGit)>>,
    /// The manifests parsed so far, by the key of the fetch that read them.
    parsed: Ghost<Map<Seq<char>, Manifest>>,
    /// How the import that read each parsed manifest admits its dependencies.
    admitted: Ghost<Map<Seq<char>, Admission>>,
    /// For each merged manifest with a self dependency, the names its self
    /// import listed, by the key of the fetch that read the manifest.
    self_listed: Ghost<Map<Seq<char>, Seq<String>>>,
    /// Where the steps of the last successful `resolve` ended in the fetch
    /// log: the self import, then each direct dependency's import.
    walk_marks: Ghost<Seq<int>>,
    /// What `GitResolver::fetch_file` answered, by the key of each fetch.
    git_said: Ghost<Map<Seq<char>, Result<String, GitResolverError>>>,
    /// What the parser answered for each fetched file it was given, by key.
    parser_said: Ghost<Map<Seq<char>, Result<Manifest, ResolveError>>>,
}

impl<G: GitResolver, P: ManifestParser> DependencyResolver<G, P> {
    /// The fetches this resolver has made, in order.
    pub closed spec fn fetches(&self) -> Seq<FetchRecord> {
        self.fetched@
    }

    /// The revisions this resolver has pinned (successful `GitResolver::resolve`
    /// calls, with their answers), in order.
    pub closed spec fn resolves(&self) -> Seq<(Git, ResolvedGit)> {
        self.pinned@
    }

    /// The manifests this resolver has parsed, by the key of the fetch
    /// (`url@commit:path`) that read them.
    pub closed spec fn parsed(&self) -> Map<Seq<char>, Manifest> {
        self.parsed@
    }

    /// How the import that read each parsed manifest admits its
    /// dependencies, by the same keys.
    pub closed spec fn admitted(&self) -> Map<Seq<char>, Admission> {
        self.admitted@
    }

    /// For each merged manifest with a self dependency, the names its self
    /// import listed, by the key of the fetch that read the manifest.
    pub closed spec fn self_lists(&self) -> Map<Seq<char>, Seq<String>> {
        self.self_listed@
    }

    /// The positions of the fetch log at which the steps of the last
    /// successful `resolve` ended: the self import, then each direct
    /// dependency's import, in the manifest's order.
    pub closed spec fn step_marks(&self) -> Seq<int> {
        self.walk_marks@
    }

    /// What `GitResolver::fetch_file` answered, by the key of each fetch.
    pub closed spec fn file_replies(&self) -> Map<Seq<char>, Result<String, GitResolverError>> {
        self.git_said@
    }

    /// What the parser answered for each fetched file, by its key.
    pub closed spec fn parser_replies(&self) -> Map<Seq<char>, Result<Manifest, ResolveError>> {
        self.parser_said@
    }

    /// The remembered keys are those of the fetches made, and no two agree.
    pub closed spec fn wf(&self) -> bool {
        &&& forall|k: Seq<char>| #[trigger] self.parsed@.contains_key(k) ==> fetched_key(self.fetched@, k)
        &&& self.admitted@.dom() == self.parsed@.dom()
        &&& forall|k: Seq<char>| #[trigger] self.git_said@.contains_key(k) ==> fetched_key(self.fetched@, k)
        &&& forall|k: Seq<char>| #[trigger] self.parser_said@.contains_key(k) ==> fetched_key(self.fetched@, k)
        &&& self_lists_ok(self.self_listed@, self.parsed@, self.pinned@)
        &&& self.seen_fetches@.len() == self.fetched@.len()
        &&& forall|i: int|
            0 <= i < self.seen_fetches@.len() ==> (#[trigger] self.seen_fetches@[i])@ == record_key(
                self.fetched@[i],
            )
        &&& no_repeated_fetch(self.fetched@)
    }

    pub fn new(git: G, parser: P) -> (r: Self)
        ensures
            r.wf(),
            r.fetches() == Seq::<FetchRecord>::empty(),
            r.resolves() == Seq::<(Git, ResolvedGit)>::empty(),
            r.parsed() == Map::<Seq<char>, Manifest>::empty(),
            r.admitted() == Map::<Seq<char>, Admission>::empty(),
            r.self_lists() == Map::<Seq<char>, Seq<String>>::empty(),
    {
        DependencyResolver {
            git,
            parser,
            seen_fetches: Vec::new(),
            fetched: Ghost(Seq::empty()),
            pinned: Ghost(Seq::empty()),
            parsed: Ghost(Map::empty()),
            admitted: Ghost(Map::empty()),
            self_listed: Ghost(Map::empty()),
            walk_marks: Ghost(Seq::empty()),
            git_said: Ghost(Map::empty()),
            parser_said: Ghost(Map::empty()),
        }
    }

    fn seen_contains(&self, key: &String) -> (b: bool)
        requires
            self.wf(),
        ensures
            b == fetched_key(self.fetches(), key@),
    {
        let n = self.seen_fetches.len();
        for i in 0..n
            invariant
                n == self.seen_fetches@.len(),
                self.wf(),
                forall|j: int| 0 <= j < i ==> record_key(#[trigger] self.fetched@[j]) != key@,
        {
            if self.seen_fetches[i] == *key {
                assert(record_key(self.fetched@[i as int]) == key@);
                return true;
            }
            assert(self.seen_fetches@[i as int]@ == record_key(self.fetched@[i as int]));
        }
        false
    }

    /// Pin a `Source` to a resolved git commit.
    fn resolve_git_source(&mut self, source: &Source) -> (r: Result<ResolvedGit, ResolveError>)
        requires
            old(self).wf(),
        ensures
            final(self).wf(),
            final(self).fetches() == old(self).fetches(),
            final(self).seen_fetches@ == old(self).seen_fetches@,
            final(self).parsed() == old(self).parsed(),
            final(self).admitted() == old(self).admitted(),
            final(self).self_lists() == old(self).self_lists(),
            r matches Err(e) ==> e is Git && final(self).resolves() == old(self).resolves(),
            r matches Ok(rg) ==> final(self).resolves() == old(self).resolves().push((source_git(*source), rg)),
    {
        match source {
            Source::Git(g) => match self.git.resolve(g) {
                Ok(rg) => {
                    let ghost pins0 = self.pinned@;
                    self.pinned = Ghost(self.pinned@.push((*g, rg)));
                    proof {
                        lemma_self_lists_persist(self.self_listed@, self.parsed@, pins0, self.parsed@, self.pinned@);
                    }
                    Ok(rg)
                },
                Err(e) => Err(ResolveError::Git(e)),
            },
        }
    }

    /// Fetch file content and parse it into a `Manifest` via the parser.
    /// Returns `Err(CycleDetected)` if we've already fetched this exact
    /// `(url, commit, path)` tuple.
    fn fetch_sub_manifest(&mut self, source: &ResolvedGit, path: &str, Ghost(adm): Ghost<Admission>) -> (r: Result<Manifest, ResolveError>)
        requires
            old(self).wf(),
        ensures
            final(self).wf(),
            fetched_key(old(self).fetches(), fetch_key(source.url@, source.commit@, path@)) ==> {
                &&& final(self).fetches() == old(self).fetches()
                &&& final(self).seen_fetches@ == old(self).seen_fetches@
                &&& r matches Err(ResolveError::CycleDetected(k)) && k@ == fetch_key(
                    source.url@,
                    source.commit@,
                    path@,
                )
            },
            !fetched_key(old(self).fetches(), fetch_key(source.url@, source.commit@, path@))
                ==> final(self).fetches() == old(self).fetches().push((source.url@, source.commit@, path@))
                && final(self).seen_fetches@.len() == old(self).seen_fetches@.len() + 1,
            cycle_names_fetched(r, final(self).fetches()),
            final(self).resolves() == old(self).resolves(),
            fetched_key(final(self).fetches(), fetch_key(source.url@, source.commit@, path@)),
            grows(old(self).parsed(), final(self).parsed()),
            r matches Ok(m) ==> final(self).parsed() == old(self).parsed().insert(
                fetch_key(source.url@, source.commit@, path@),
                m,
            ),
            r matches Ok(m) ==> final(self).admitted() == old(self).admitted().insert(
                fetch_key(source.url@, source.commit@, path@),
                adm,
            ),
            r is Err ==> final(self).admitted() == old(self).admitted() && final(self).parsed() == old(
                self,
            ).parsed(),
            !fetched_key(old(self).fetches(), fetch_key(source.url@, source.commit@, path@)) ==> (r matches Err(e)
                ==> e is Git || e is ParseError),
            grows(old(self).admitted(), final(self).admitted()),
            final(self).self_lists() == old(self).self_lists(),
            parsed_fresh(old(self).parsed(), final(self).parsed(), old(self).fetches()),
            grows(old(self).file_replies(), final(self).file_replies()),
            grows(old(self).parser_replies(), final(self).parser_replies()),
            !fetched_key(old(self).fetches(), fetch_key(source.url@, source.commit@, path@)) ==> {
                let k = fetch_key(source.url@, source.commit@, path@);
                &&& final(self).file_replies().contains_key(k)
                &&& final(self).file_replies()[k] matches Err(ge) ==> r == Err::<Manifest, ResolveError>(
                    ResolveError::Git(ge),
                )
                &&& final(self).file_replies()[k] is Ok ==> final(self).parser_replies().contains_key(k)
                &&& final(self).file_replies()[k] is Ok ==> parsed_reply(final(self).parser_replies()[k], *source, path@, r)
            },
    {
        let key = fetch_key_of(source, path);
        if self.seen_contains(&key) {
            return Err(ResolveError::CycleDetected(key));
        }
        let ghost before = self.fetched@;
        let ghost k = key@;
        self.seen_fetches.push(key);
        self.fetched = Ghost(self.fetched@.push((source.url@, source.commit@, path@)));
        proof {
            assert(record_key(self.fetched@[before.len() as int]) == k);
            assert(fetched_key(self.fetched@, k));
            assert forall|k2: Seq<char>| #[trigger] self.parsed@.contains_key(k2) implies fetched_key(self.fetched@, k2) by {
                let i = choose|i: int| 0 <= i < before.len() && record_key(#[trigger] before[i]) == k2;
                assert(self.fetched@[i] == before[i]);
            }
            assert forall|k2: Seq<char>| #[trigger] self.git_said@.contains_key(k2) implies fetched_key(self.fetched@, k2) by {
                let i = choose|i: int| 0 <= i < before.len() && record_key(#[trigger] before[i]) == k2;
                assert(self.fetched@[i] == before[i]);
            }
            assert forall|k2: Seq<char>| #[trigger] self.parser_said@.contains_key(k2) implies fetched_key(self.fetched@, k2) by {
                let i = choose|i: int| 0 <= i < before.len() && record_key(#[trigger] before[i]) == k2;
                assert(self.fetched@[i] == before[i]);
            }
            assert(!self.git_said@.contains_key(k));
            assert(!self.parser_said@.contains_key(k));
            assert(!self.parsed@.contains_key(k));
            assert forall|i: int, j: int| 0 <= i < j < self.fetched@.len() implies record_key(
                #[trigger] self.fetched@[i],
            ) != record_key(#[trigger] self.fetched@[j]) by {
                if j == self.fetched@.len() - 1 {
                    assert(self.fetched@[i] == before[i]);
                }
            }
            assert forall|i: int| 0 <= i < self.seen_fetches@.len() implies (
            #[trigger] self.seen_fetches@[i])@ == record_key(self.fetched@[i]) by {
                if i < before.len() {
                    assert(self.seen_fetches@[i] == old(self).seen_fetches@[i]);
                }
            }
        }
        let file_reply = self.git.fetch_file(source, owned(path));
        self.git_said = Ghost(self.git_said@.insert(k, file_reply));
        let content = match file_reply {
            Ok(c) => c,
            Err(e) => return Err(ResolveError::Git(e)),
        };
        let parse_reply = self.parser.parse(content.as_str());
        self.parser_said = Ghost(self.parser_said@.insert(k, parse_reply));
        match parse_reply {
            Ok(m) => {
                let ghost p0 = self.parsed@;
                self.parsed = Ghost(self.parsed@.insert(k, m));
                self.admitted = Ghost(self.admitted@.insert(k, adm));
                assert(self.admitted@.dom() =~= self.parsed@.dom());
                proof {
                    lemma_self_lists_persist(self.self_listed@, p0, self.pinned@, self.parsed@, self.pinned@);
                }
                Ok(m)
            },
            Err(e) => Err(rewrap_parse_error(e, source, path)),
        }
    }

    /// Resolve a single dep, inserting it into `resolved` if not already present,
    /// then recursively processing its imports.
    fn resolve_dep(
        &mut self,
        name: &str,
        path: String,
        import: &ImportSpec,
        source: &Source,
        resolved: &mut NameMap<ResolvedDep>,
    ) -> (r: Result<(), ResolveError>)
        requires
            old(self).wf(),
            entries_named(*old(resolved)),
            deps_ok(*old(resolved)),
        ensures
            final(self).wf(),
            progressed(old(self).fetches(), final(self).fetches()),
            extends(old(self).resolves(), final(self).resolves()),
            keeps_pins(*old(resolved), *final(resolved)),
            keeps_all(*old(resolved), *final(resolved)),
            entries_named(*final(resolved)),
            deps_ok(*final(resolved)),
            cycle_names_fetched(r, final(self).fetches()),
            r is Ok ==> final(resolved).has(name@),
            old(resolved).has(name@) ==> r is Ok && final(self).fetches() == old(self).fetches()
                && *final(resolved) == *old(resolved),
            grows(old(self).parsed(), final(self).parsed()),
            grows(old(self).admitted(), final(self).admitted()),
            lists_fresh(old(self).self_lists(), final(self).self_lists(), old(self).fetches()),
            parsed_fresh(old(self).parsed(), final(self).parsed(), old(self).fetches()),
            r is Ok ==> covered(*final(resolved), final(self).parsed(), final(self).admitted(), old(self).fetches(), None),
            old(resolved).has(name@) ==> final(self).resolves() == old(self).resolves(),
            r is Ok ==> dep_new_explained(
                *old(resolved),
                *final(resolved),
                Some(name@),
                final(self).parsed(),
                final(self).self_lists(),
                final(self).admitted(),
                final(self).resolves(),
                old(self).fetches(),
                final(self).fetches(),
            ),
            !old(resolved).has(name@) && r is Ok ==> {
                &&& final(self).resolves().len() > old(self).resolves().len()
                &&& final(self).resolves()[old(self).resolves().len() as int].0 == source_git(*source)
                &&& entry_made(
                    final(resolved).lookup(name@).unwrap(),
                    path@,
                    *import,
                    final(self).resolves()[old(self).resolves().len() as int].1,
                    final(self).parsed(),
                    final(self).self_lists(),
                )
                &&& reads_fetched_from(
                    *import,
                    final(self).resolves()[old(self).resolves().len() as int].1,
                    final(self).fetches(),
                    old(self).fetches().len() as int,
                )
            },
        decreases usize::MAX - old(self).seen_fetches.len(), 3int,
    {
        // First-seen-wins: skip if already resolved.
        if resolved.contains_key(name) {
            return Ok(());
        }
        let resolved_git = self.resolve_git_source(source)?;

        // Insert the dep *before* processing imports so that any circular
        // reference through imports sees us as already-present.
        let ghost r0 = *resolved;
        let entry = ResolvedDep {
            name: owned(name),
            path,
            source: ResolvedSource::Git(resolved_git.clone()),
            deps: Vec::new(),
        };
        resolved.insert(owned(name), entry);
        proof {
            assert forall|k: Seq<char>| #[trigger] r0.has(k) implies resolved.has(k) && resolved.lookup(k)
                == r0.lookup(k) by {
                assert(k != name@);
                assert(resolved.lookup(k) == r0.lookup(k));
                if !resolved.has(k) {
                    assert(resolved.lookup(k) is None);
                }
            }
            assert forall|k: Seq<char>| #[trigger] resolved.has(k) implies resolved.lookup(k).unwrap().name@ == k by {
                if k != name@ {
                    assert(resolved.lookup(k) == r0.lookup(k));
                    if !r0.has(k) {
                        assert(r0.lookup(k) is None);
                    }
                }
            }
            assert forall|k: Seq<char>| #[trigger] resolved.has(k) && !r0.has(k) implies all_resolved(
                resolved.lookup(k).unwrap().deps@,
                *resolved,
            ) by {
                if k != name@ {
                    assert(resolved.lookup(k) == r0.lookup(k));
                    assert(r0.lookup(k) is None);
                }
            }
            lemma_deps_ok_grow(r0, *resolved);
        }
        let ghost r1 = *resolved;
        let ghost pins0 = self.resolves();
        let ghost f1 = self.fetches();

        // Process imports and record which deps were pulled in.
        let imported = self.process_imports(import, &resolved_git, resolved)?;

        // Patch the deps list now that we know what was imported.
        proof {
            assert(r1.has(name@));
        }
        match resolved.find(name) {
            Some(i) => {
                let ghost r2 = *resolved;
                let current = resolved.value_at(i);
                let patched = ResolvedDep {
                    name: current.name.clone(),
                    path: current.path.clone(),
                    source: current.source.clone(),
                    deps: imported,
                };
                resolved.replace_at(i, patched);
                proof {
                    lemma_patch_keeps(r2, *resolved, i as int);
                    r2.lemma_lookup_at(i as int);
                    assert forall|k: Seq<char>| #[trigger] r2.has(k) && !r1.has(k) implies dep_explained(
                        k,
                        r2.lookup(k).unwrap(),
                        self.parsed(),
                        self.self_lists(),
                        self.admitted(),
                        self.resolves(),
                        f1,
                        self.fetches(),
                    ) by {}
                    assert(dep_new_explained(
                        r0,
                        r2,
                        Some(name@),
                        self.parsed(),
                        self.self_lists(),
                        self.admitted(),
                        self.resolves(),
                        f1,
                        self.fetches(),
                    ));
                    lemma_patch_deps(
                        r0,
                        r2,
                        *resolved,
                        i as int,
                        Some(name@),
                        self.parsed(),
                        self.self_lists(),
                        self.admitted(),
                        self.resolves(),
                        f1,
                        self.fetches(),
                    );
                    assert(r2.lookup(name@) == r1.lookup(name@));
                    assert forall|g: Seq<char>, k: Seq<char>|
                        #[trigger] admits_from(self.parsed(), self.admitted(), g, k) && !fetched_key(old(self).fetches(), g)
                            && None::<Seq<char>> != Some(g) implies resolved.has(k) by {
                        assert(r2.has(k));
                    }
                    assert forall|k: Seq<char>| #[trigger] r0.has(k) implies resolved.has(k)
                        && resolved.lookup(k) == r0.lookup(k) by {
                        assert(r1.has(k));
                    }
                    assert(self.resolves()[pins0.len() - 1] == pins0[pins0.len() - 1]);
                }
            },
            None => {},
        }
        Ok(())
    }

    /// Walk an `ImportSpec`, fetching sub-manifests and merging their deps.
    /// Returns the list of dependency names that were discovered.
    fn process_imports(
        &mut self,
        import: &ImportSpec,
        source: &ResolvedGit,
        resolved: &mut NameMap<ResolvedDep>,
    ) -> (r: Result<Vec<String>, ResolveError>)
        requires
            old(self).wf(),
            entries_named(*old(resolved)),
            deps_ok(*old(resolved)),
        ensures
            final(self).wf(),
            progressed(old(self).fetches(), final(self).fetches()),
            extends(old(self).resolves(), final(self).resolves()),
            keeps_pins(*old(resolved), *final(resolved)),
            keeps_all(*old(resolved), *final(resolved)),
            entries_named(*final(resolved)),
            deps_ok(*final(resolved)),
            cycle_names_fetched(r, final(self).fetches()),
            grows(old(self).parsed(), final(self).parsed()),
            grows(old(self).admitted(), final(self).admitted()),
            lists_fresh(old(self).self_lists(), final(self).self_lists(), old(self).fetches()),
            parsed_fresh(old(self).parsed(), final(self).parsed(), old(self).fetches()),
            r is Ok ==> covered(*final(resolved), final(self).parsed(), final(self).admitted(), old(self).fetches(), None),
            import is NoImport ==> final(self).resolves() == old(self).resolves(),
            r is Ok ==> (import matches ImportSpec::Paths(ps) ==> forall|i: int, j: int|
                0 <= i < j < ps@.len() ==> fetched_before(
                    final(self).fetches(),
                    fetch_key(source.url@, source.commit@, (#[trigger] ps@[i])@),
                    fetch_key(source.url@, source.commit@, (#[trigger] ps@[j])@),
                )),
            r matches Ok(v) ==> all_resolved(v@, *final(resolved)),
            r matches Ok(v) ==> lists_imports(*import, *source, v@, final(self).parsed(), final(self).self_lists()),
            r is Ok ==> dep_new_explained(
                *old(resolved),
                *final(resolved),
                None,
                final(self).parsed(),
                final(self).self_lists(),
                final(self).admitted(),
                final(self).resolves(),
                old(self).fetches(),
                final(self).fetches(),
            ),
            r is Ok ==> reads_fetched_from(*import, *source, final(self).fetches(), old(self).fetches().len() as int),
            import is NoImport ==> (r matches Ok(v) && v@.len() == 0 && final(self).fetches()
                == old(self).fetches() && *final(resolved) == *old(resolved)),
            match *import {
                ImportSpec::Path(p) => fetched_key(final(self).fetches(), fetch_key(source.url@, source.commit@, p@)),
                ImportSpec::Paths(ps) => r is Ok ==> forall|i: int|
                    0 <= i < ps@.len() ==> fetched_key(
                        final(self).fetches(),
                        fetch_key(source.url@, source.commit@, (#[trigger] ps@[i])@),
                    ),
                ImportSpec::Filtered { path, .. } => {
                    &&& fetched_key(final(self).fetches(), fetch_key(source.url@, source.commit@, path@))
                    &&& (r matches Ok(v) && v@.len() == 0) ==> (*final(resolved) == *old(resolved)
                        && final(self).fetches() == old(self).fetches().push((source.url@, source.commit@, path@)))
                },
                ImportSpec::NoImport => true,
            },
        decreases usize::MAX - old(self).seen_fetches.len(), 2int,
    {
        match import {
            ImportSpec::NoImport => Ok(Vec::new()),
            ImportSpec::Path(path) => {
                let res = self.fetch_and_merge(source, path.as_str(), resolved);
                proof {
                    if res is Ok {
                        let key = fetch_key(source.url@, source.commit@, path@);
                        lemma_fresh_position(old(self).fetches(), self.fetches(), key);
                    }
                }
                res
            },
            ImportSpec::Paths(paths) => {
                let mut all_names: Vec<String> = Vec::new();
                let ghost mut ls: Seq<Seq<String>> = Seq::empty();
                let n = paths.len();
                for i in 0..n
                    invariant
                        n == paths@.len(),
                        *import == ImportSpec::Paths(*paths),
                        self.wf(),
                        progressed(old(self).fetches(), self.fetches()),
                        extends(old(self).resolves(), self.resolves()),
                        keeps_pins(*old(resolved), *resolved),
                        keeps_all(*old(resolved), *resolved),
                        entries_named(*resolved),
                        deps_ok(*resolved),
                        self.seen_fetches.len() >= old(self).seen_fetches.len(),
                        grows(old(self).parsed(), self.parsed()),
                        grows(old(self).admitted(), self.admitted()),
                        lists_fresh(old(self).self_lists(), self.self_lists(), old(self).fetches()),
                        parsed_fresh(old(self).parsed(), self.parsed(), old(self).fetches()),
                        covered(*resolved, self.parsed(), self.admitted(), old(self).fetches(), None),
                        all_resolved(all_names@, *resolved),
                        dep_new_explained(
                            *old(resolved),
                            *resolved,
                            None,
                            self.parsed(),
                            self.self_lists(),
                            self.admitted(),
                            self.resolves(),
                            old(self).fetches(),
                            self.fetches(),
                        ),
                        ls.len() == i,
                        forall|j1: int, j2: int|
                            0 <= j1 < j2 < i ==> fetched_before(
                                self.fetches(),
                                fetch_key(source.url@, source.commit@, (#[trigger] paths@[j1])@),
                                fetch_key(source.url@, source.commit@, (#[trigger] paths@[j2])@),
                            ),
                        joined(ls) == all_names@,
                        forall|j: int|
                            0 <= j < i ==> {
                                &&& fetched_key(
                                    self.fetches(),
                                    fetch_key(source.url@, source.commit@, (#[trigger] paths@[j])@),
                                )
                                &&& self.parsed().contains_key(fetch_key(source.url@, source.commit@, paths@[j]@))
                                &&& fetch_listed(
                                    ls[j],
                                    self.parsed()[fetch_key(source.url@, source.commit@, paths@[j]@)],
                                    fetch_key(source.url@, source.commit@, paths@[j]@),
                                    self.self_lists(),
                                )
                                &&& !fetched_key(old(self).fetches(), fetch_key(source.url@, source.commit@, paths@[j]@))
                            },
                {
                    let ghost f0 = self.fetches();
                    let ghost r0 = *resolved;
                    let ghost p0 = self.parsed();
                    let ghost s0 = self.self_lists();
                    let ghost a0 = self.admitted();
                    let ghost pins0 = self.resolves();
                    let ghost names0 = all_names@;
                    let ghost ls0 = ls;
                    let res = self.fetch_and_merge(source, paths[i].as_str(), resolved);
                    proof {
                        lemma_lists_fresh_trans(old(self).self_lists(), s0, self.self_lists(), old(self).fetches(), f0);
                        lemma_parsed_fresh_trans(old(self).parsed(), p0, self.parsed(), old(self).fetches(), f0);
                        if res is Ok {
                            lemma_covered_step(r0, *resolved, p0, a0, self.parsed(), self.admitted(), old(self).fetches(), f0, None);
                        }
                    }
                    let mut names = match res {
                        Ok(v) => v,
                        Err(e) => return Err(e),
                    };
                    proof {
                        lemma_progressed_trans(old(self).fetches(), f0, self.fetches());
                        lemma_keeps_pins_trans(*old(resolved), r0, *resolved);
                        lemma_keeps_all_resolved(names0, r0, *resolved);
                        lemma_dep_explained_step(
                            *old(resolved),
                            r0,
                            *resolved,
                            None,
                            p0,
                            s0,
                            a0,
                            pins0,
                            self.parsed(),
                            self.self_lists(),
                            self.admitted(),
                            self.resolves(),
                            old(self).fetches(),
                            f0,
                            self.fetches(),
                        );
                        ls = ls.push(names@);
                        assert forall|j1: int, j2: int|
                            0 <= j1 < j2 < i + 1 implies fetched_before(
                                self.fetches(),
                                fetch_key(source.url@, source.commit@, (#[trigger] paths@[j1])@),
                                fetch_key(source.url@, source.commit@, (#[trigger] paths@[j2])@),
                            ) by {
                            let a = fetch_key(source.url@, source.commit@, paths@[j1]@);
                            let b = fetch_key(source.url@, source.commit@, paths@[j2]@);
                            if j2 < i {
                                lemma_fetched_before_grow(f0, self.fetches(), a, b);
                            } else {
                                lemma_fetched_before_new(f0, self.fetches(), a, b);
                            }
                        }
                        if fetched_key(old(self).fetches(), fetch_key(source.url@, source.commit@, paths@[i as int]@)) {
                            lemma_fetched_key_grows(
                                old(self).fetches(),
                                f0,
                                fetch_key(source.url@, source.commit@, paths@[i as int]@),
                            );
                        }
                        assert(ls.drop_last() =~= ls0);
                        assert forall|j: int| 0 <= j < i + 1 implies {
                            &&& fetched_key(
                                self.fetches(),
                                fetch_key(source.url@, source.commit@, (#[trigger] paths@[j])@),
                            )
                            &&& self.parsed().contains_key(fetch_key(source.url@, source.commit@, paths@[j]@))
                            &&& fetch_listed(
                                    ls[j],
                                    self.parsed()[fetch_key(source.url@, source.commit@, paths@[j]@)],
                                    fetch_key(source.url@, source.commit@, paths@[j]@),
                                    self.self_lists(),
                                )
                            &&& !fetched_key(old(self).fetches(), fetch_key(source.url@, source.commit@, paths@[j]@))
                        } by {
                            if j < i {
                                lemma_fetched_key_grows(
                                    f0,
                                    self.fetches(),
                                    fetch_key(source.url@, source.commit@, paths@[j]@),
                                );
                                assert(p0.contains_key(fetch_key(source.url@, source.commit@, paths@[j]@)));
                                assert(ls[j] == ls0[j]);
                            }
                        }
                    }
                    let ghost added = names@;
                    all_names.append(&mut names);
                    proof {
                        assert(all_names@ =~= names0 + added);
                        assert forall|j: int| 0 <= j < all_names@.len() implies resolved.has(
                            (#[trigger] all_names@[j])@,
                        ) by {
                            if j < names0.len() {
                                assert(all_names@[j] == names0[j]);
                            } else {
                                assert(all_names@[j] == added[j - names0.len()]);
                            }
                        }
                    }
                }
                proof {
                    assert(joined(ls) == all_names@);
                    assert forall|k: Seq<char>| #[trigger] import_reads(*import, *source, k) implies exists|x: int|
                        old(self).fetches().len() <= x < self.fetches().len() && record_key(#[trigger] self.fetches()[x])
                            == k by {
                        let j = choose|j: int|
                            0 <= j < paths@.len() && k == fetch_key(source.url@, source.commit@, (#[trigger] paths@[j])@);
                        lemma_fresh_position(old(self).fetches(), self.fetches(), k);
                    }
                }
                Ok(all_names)
            },
            ImportSpec::Filtered {
                path,
                name_allowlist,
                name_blocklist,
                path_allowlist,
                path_blocklist,
                path_prefix,
            } => {
                let ghost key = fetch_key(source.url@, source.commit@, path@);
                let ghost na = list_views(*name_allowlist);
                let ghost nb = list_views(*name_blocklist);
                let ghost pa = list_views(*path_allowlist);
                let ghost pb = list_views(*path_blocklist);
                let ghost adm = filter_admission(
                    *name_allowlist,
                    *name_blocklist,
                    *path_allowlist,
                    *path_blocklist,
                    *path_prefix,
                );
                let sub = self.fetch_sub_manifest(source, path.as_str(), Ghost(adm))?;
                let ghost p1 = self.parsed();
                proof {
                    assert forall|g: Seq<char>, k: Seq<char>|
                        #[trigger] admits_from(self.parsed(), self.admitted(), g, k) && !fetched_key(old(self).fetches(), g)
                            && Some(key) != Some(g) implies resolved.has(k) by {
                        assert(old(self).parsed().contains_key(g));
                    }
                }
                let ghost a1 = self.admitted();
                let imported = filtered_dep_names(
                    &sub.deps,
                    name_allowlist.as_ref(),
                    name_blocklist.as_ref(),
                    path_allowlist.as_ref(),
                    path_blocklist.as_ref(),
                );
                let n = imported.len();
                let ghost items = sub.deps.items();
                for i in 0..n
                    invariant
                        n == imported@.len(),
                        items == sub.deps.items(),
                        sub.deps.wf(),
                        *import == (ImportSpec::Filtered {
                            path: *path,
                            name_allowlist: *name_allowlist,
                            name_blocklist: *name_blocklist,
                            path_allowlist: *path_allowlist,
                            path_blocklist: *path_blocklist,
                            path_prefix: *path_prefix,
                        }),
                        key == fetch_key(source.url@, source.commit@, path@),
                        self.wf(),
                        progressed(old(self).fetches(), self.fetches()),
                        extends(old(self).resolves(), self.resolves()),
                        keeps_pins(*old(resolved), *resolved),
                        keeps_all(*old(resolved), *resolved),
                        entries_named(*resolved),
                        deps_ok(*resolved),
                        self.seen_fetches.len() > old(self).seen_fetches.len(),
                        grows(old(self).parsed(), p1),
                        grows(p1, self.parsed()),
                        grows(old(self).admitted(), a1),
                        grows(a1, self.admitted()),
                        lists_fresh(old(self).self_lists(), self.self_lists(), old(self).fetches()),
                        parsed_fresh(old(self).parsed(), self.parsed(), old(self).fetches()),
                        covered(*resolved, self.parsed(), self.admitted(), old(self).fetches(), Some(key)),
                        p1.contains_key(key),
                        p1[key] == sub,
                        a1.contains_key(key),
                        a1[key] == adm,
                        !fetched_key(old(self).fetches(), key),
                        fetched_key(self.fetches(), key),
                        na == list_views(*name_allowlist),
                        nb == list_views(*name_blocklist),
                        pa == list_views(*path_allowlist),
                        pb == list_views(*path_blocklist),
                        adm == filter_admission(
                            *name_allowlist,
                            *name_blocklist,
                            *path_allowlist,
                            *path_blocklist,
                            *path_prefix,
                        ),
                        views(imported@) == filtered_names(items, na, nb, pa, pb),
                        n == 0 ==> *resolved == *old(resolved) && self.fetches() == old(self).fetches().push(
                            (source.url@, source.commit@, path@),
                        ),
                        forall|j: int| 0 <= j < i ==> resolved.has((#[trigger] imported@[j])@),
                        dep_new_explained(
                            *old(resolved),
                            *resolved,
                            None,
                            self.parsed(),
                            self.self_lists(),
                            self.admitted(),
                            self.resolves(),
                            old(self).fetches(),
                            self.fetches(),
                        ),
                {
                    let dep_name = &imported[i];
                    proof {
                        assert(views(imported@)[i as int] == dep_name@);
                        lemma_filtered_member(items, na, nb, pa, pb, i as int);
                        let j = choose|j: int|
                            0 <= j < items.len() && (#[trigger] items[j]).0@ == dep_name@ && passes_filter_spec(
                                items[j].0@,
                                items[j].1.path@,
                                na,
                                nb,
                                pa,
                                pb,
                            );
                        sub.deps.lemma_lookup_at(j);
                    }
                    let dep = sub.deps.get(dep_name.as_str()).unwrap();
                    // Apply path prefix if configured.
                    let dep_path = prefixed_path(path_prefix, dep.path.as_str());
                    let ghost f0 = self.fetches();
                    let ghost r0 = *resolved;
                    let ghost p0 = self.parsed();
                    let ghost s0 = self.self_lists();
                    let ghost a0 = self.admitted();
                    let ghost pins0 = self.resolves();
                    let res = self.resolve_dep(dep_name.as_str(), dep_path, &dep.import, &dep.source, resolved);
                    proof {
                        lemma_lists_fresh_trans(old(self).self_lists(), s0, self.self_lists(), old(self).fetches(), f0);
                        lemma_parsed_fresh_trans(old(self).parsed(), p0, self.parsed(), old(self).fetches(), f0);
                        if res is Ok {
                            lemma_covered_step(r0, *resolved, p0, a0, self.parsed(), self.admitted(), old(self).fetches(), f0, Some(key));
                        }
                        lemma_progressed_trans(old(self).fetches(), f0, self.fetches());
                        lemma_keeps_pins_trans(*old(resolved), r0, *resolved);
                        lemma_fetched_key_grows(f0, self.fetches(), key);
                    }
                    if let Err(e) = res {
                        return Err(e);
                    }
                    proof {
                        if resolved.has(dep_name@) && !r0.has(dep_name@) {
                            lemma_fresh_entry(
                                dep_name@,
                                resolved.lookup(dep_name@).unwrap(),
                                *dep,
                                key,
                                self.parsed(),
                                self.self_lists(),
                                self.admitted(),
                                self.resolves(),
                                old(self).fetches(),
                                f0,
                                self.fetches(),
                                pins0.len() as int,
                            );
                        }
                        lemma_dep_explained_step(
                            *old(resolved),
                            r0,
                            *resolved,
                            Some(dep_name@),
                            p0,
                            s0,
                            a0,
                            pins0,
                            self.parsed(),
                            self.self_lists(),
                            self.admitted(),
                            self.resolves(),
                            old(self).fetches(),
                            f0,
                            self.fetches(),
                        );
                        assert forall|j: int| 0 <= j < i + 1 implies resolved.has((#[trigger] imported@[j])@) by {
                            if j < i {
                                assert(r0.has(imported@[j]@));
                            }
                        }
                    }
                }
                proof {
                    lemma_fresh_position(old(self).fetches(), self.fetches(), key);
                    assert forall|g: Seq<char>, k: Seq<char>|
                        #[trigger] admits_from(self.parsed(), self.admitted(), g, k) && !fetched_key(old(self).fetches(), g)
                            && None::<Seq<char>> != Some(g) implies resolved.has(k) by {
                        if g == key {
                            let j = sub.deps.pos(k);
                            sub.deps.lemma_lookup_at(j);
                            lemma_filtered_includes(items, na, nb, pa, pb, j);
                            let x = choose|x: int|
                                0 <= x < views(imported@).len() && views(imported@)[x] == items[j].0@;
                            assert(resolved.has(imported@[x]@));
                        }
                    }
                }
                Ok(imported)
            },
        }
    }

    /// Fetch a single sub-manifest file, parse it, and merge its deps.
    fn fetch_and_merge(
        &mut self,
        source: &ResolvedGit,
        path: &str,
        resolved: &mut NameMap<ResolvedDep>,
    ) -> (r: Result<Vec<String>, ResolveError>)
        requires
            old(self).wf(),
            entries_named(*old(resolved)),
            deps_ok(*old(resolved)),
        ensures
            final(self).wf(),
            progressed(old(self).fetches(), final(self).fetches()),
            extends(old(self).resolves(), final(self).resolves()),
            keeps_pins(*old(resolved), *final(resolved)),
            keeps_all(*old(resolved), *final(resolved)),
            entries_named(*final(resolved)),
            deps_ok(*final(resolved)),
            cycle_names_fetched(r, final(self).fetches()),
            grows(old(self).parsed(), final(self).parsed()),
            grows(old(self).admitted(), final(self).admitted()),
            lists_fresh(old(self).self_lists(), final(self).self_lists(), old(self).fetches()),
            parsed_fresh(old(self).parsed(), final(self).parsed(), old(self).fetches()),
            r is Ok ==> covered(*final(resolved), final(self).parsed(), final(self).admitted(), old(self).fetches(), None),
            fetched_key(final(self).fetches(), fetch_key(source.url@, source.commit@, path@)),
            fetched_key(old(self).fetches(), fetch_key(source.url@, source.commit@, path@)) ==> (r matches Err(
                ResolveError::CycleDetected(k),
            ) && k@ == fetch_key(source.url@, source.commit@, path@) && final(self).fetches() == old(
                self,
            ).fetches() && *final(resolved) == *old(resolved)),
            r matches Ok(v) ==> {
                &&& final(self).parsed().contains_key(fetch_key(source.url@, source.commit@, path@))
                &&& fetch_listed(
                    v@,
                    final(self).parsed()[fetch_key(source.url@, source.commit@, path@)],
                    fetch_key(source.url@, source.commit@, path@),
                    final(self).self_lists(),
                )
                &&& all_resolved(v@, *final(resolved))
            },
            r is Ok ==> dep_new_explained(
                *old(resolved),
                *final(resolved),
                None,
                final(self).parsed(),
                final(self).self_lists(),
                final(self).admitted(),
                final(self).resolves(),
                old(self).fetches(),
                final(self).fetches(),
            ),
            !final(self).parsed().contains_key(fetch_key(source.url@, source.commit@, path@)) ==> r is Err
                && *final(resolved) == *old(resolved) && final(self).resolves() == old(self).resolves(),
        decreases usize::MAX - old(self).seen_fetches.len(), 1int,
    {
        let ghost key = fetch_key(source.url@, source.commit@, path@);
        let sub = self.fetch_sub_manifest(source, path, Ghost(admit_all()))?;
        let ghost p1 = self.parsed();
        proof {
            assert forall|g: Seq<char>, k: Seq<char>|
                #[trigger] admits_from(self.parsed(), self.admitted(), g, k) && !fetched_key(old(self).fetches(), g)
                    && Some(key) != Some(g) implies resolved.has(k) by {
                assert(old(self).parsed().contains_key(g));
            }
        }
        let ghost a1 = self.admitted();
        let mut imported: Vec<String> = Vec::new();
        let ghost mut selfv: Seq<String> = Seq::empty();
        proof {
            assert(!old(self).parsed().contains_key(key));
            assert(!self.self_lists().contains_key(key));
        }

        // First resolve self-imports of the sub-manifest.
        match &sub.self_dep {
            Some(self_dep) => {
                let rg = self.resolve_git_source(&self_dep.source)?;
                let ghost pins_r = self.resolves();
                let ghost f0 = self.fetches();
                let ghost r0 = *resolved;
                let ghost p0 = self.parsed();
                let ghost s0 = self.self_lists();
                let ghost a0 = self.admitted();
                let ghost pins0 = self.resolves();
                let res = self.process_imports(&self_dep.import, &rg, resolved);
                proof {
                    lemma_progressed_trans(old(self).fetches(), f0, self.fetches());
                    lemma_keeps_pins_trans(*old(resolved), r0, *resolved);
                    lemma_fetched_key_grows(f0, self.fetches(), key);
                    assert(fetched_key(self.fetches(), key));
                    assert(!fetched_key(old(self).fetches(), key));
                    assert(p0.contains_key(key));
                    assert(self.parsed().contains_key(key));
                    lemma_lists_fresh_trans(old(self).self_lists(), s0, self.self_lists(), old(self).fetches(), f0);
                    lemma_parsed_fresh_trans(old(self).parsed(), p0, self.parsed(), old(self).fetches(), f0);
                    if res is Ok {
                        lemma_covered_step(r0, *resolved, p0, a0, self.parsed(), self.admitted(), old(self).fetches(), f0, Some(key));
                    }
                }
                let mut self_imported = match res {
                    Ok(v) => v,
                    Err(e) => return Err(e),
                };
                let ghost s_mid = self.self_lists();
                proof {
                    assert(!s_mid.contains_key(key));
                    assert(self.resolves()[pins_r.len() - 1] == pins_r[pins_r.len() - 1]);
                    assert(pinned_in(self.resolves(), self_dep.source, rg));
                    assert(self.parsed()[key] == sub);
                    lemma_self_lists_extend(s_mid, self.parsed(), self.resolves(), key, self_imported@, rg);
                }
                self.self_listed = Ghost(self.self_listed@.insert(key, self_imported@));
                proof {
                    selfv = self_imported@;
                    assert(lists_fresh(old(self).self_lists(), self.self_lists(), old(self).fetches()));
                }
                proof {
                    lemma_dep_explained_step(
                        *old(resolved),
                        r0,
                        *resolved,
                        None,
                        p0,
                        s0,
                        a0,
                        pins0,
                        self.parsed(),
                        s_mid,
                        self.admitted(),
                        self.resolves(),
                        old(self).fetches(),
                        f0,
                        self.fetches(),
                    );
                    assert forall|k: Seq<char>| #[trigger] resolved.has(k) implies old(resolved).has(k) || None::<
                        Seq<char>,
                    > == Some(k) || dep_explained(
                        k,
                        resolved.lookup(k).unwrap(),
                        self.parsed(),
                        self.self_lists(),
                        self.admitted(),
                        self.resolves(),
                        old(self).fetches(),
                        self.fetches(),
                    ) by {
                        if !old(resolved).has(k) {
                            lemma_dep_explained_persists(
                                k,
                                resolved.lookup(k).unwrap(),
                                self.parsed(),
                                s_mid,
                                self.admitted(),
                                self.resolves(),
                                old(self).fetches(),
                                self.fetches(),
                                self.parsed(),
                                self.self_lists(),
                                self.admitted(),
                                self.resolves(),
                                old(self).fetches(),
                                self.fetches(),
                            );
                        }
                    }
                }
                imported.append(&mut self_imported);
                assert(imported@ =~= selfv);
            },
            None => {},
        }
        let ghost s = imported@.len();
        assert(!fetched_key(old(self).fetches(), key));
        assert(sub.self_dep is None ==> s == 0);

        let n = sub.deps.len();
        let ghost items = sub.deps.items();
        for i in 0..n
            invariant
                n == sub.deps.items().len(),
                items == sub.deps.items(),
                sub.deps.wf(),
                self.wf(),
                progressed(old(self).fetches(), self.fetches()),
                extends(old(self).resolves(), self.resolves()),
                keeps_pins(*old(resolved), *resolved),
                keeps_all(*old(resolved), *resolved),
                entries_named(*resolved),
                deps_ok(*resolved),
                self.seen_fetches.len() > old(self).seen_fetches.len(),
                grows(old(self).parsed(), p1),
                grows(p1, self.parsed()),
                grows(old(self).admitted(), a1),
                grows(a1, self.admitted()),
                p1.contains_key(key),
                p1[key] == sub,
                a1.contains_key(key),
                a1[key] == admit_all(),
                fetched_key(self.fetches(), key),
                key == fetch_key(source.url@, source.commit@, path@),
                !fetched_key(old(self).fetches(), key),
                imported@.len() == s + i,
                sub.self_dep is None ==> s == 0,
                lists_fresh(old(self).self_lists(), self.self_lists(), old(self).fetches()),
                parsed_fresh(old(self).parsed(), self.parsed(), old(self).fetches()),
                covered(*resolved, self.parsed(), self.admitted(), old(self).fetches(), Some(key)),
                sub.self_dep is Some ==> {
                    &&& self.self_lists().contains_key(key)
                    &&& self.self_lists()[key] == selfv
                    &&& selfv.len() == s
                    &&& forall|j: int| 0 <= j < s ==> #[trigger] imported@[j] == selfv[j]
                },
                forall|j: int| 0 <= j < i ==> (#[trigger] imported@[s + j])@ == items[j].0@,
                all_resolved(imported@, *resolved),
                dep_new_explained(
                    *old(resolved),
                    *resolved,
                    None,
                    self.parsed(),
                    self.self_lists(),
                    self.admitted(),
                    self.resolves(),
                    old(self).fetches(),
                    self.fetches(),
                ),
        {
            let dep_name = sub.deps.key_at(i);
            let dep = sub.deps.value_at(i);
            let ghost before = imported@;
            imported.push(dep_name.clone());
            let ghost f0 = self.fetches();
            let ghost r0 = *resolved;
            let ghost p0 = self.parsed();
            let ghost s0 = self.self_lists();
            let ghost a0 = self.admitted();
            let ghost pins0 = self.resolves();
            let res = self.resolve_dep(dep_name.as_str(), dep.path.clone(), &dep.import, &dep.source, resolved);
            proof {
                lemma_lists_fresh_trans(old(self).self_lists(), s0, self.self_lists(), old(self).fetches(), f0);
                lemma_parsed_fresh_trans(old(self).parsed(), p0, self.parsed(), old(self).fetches(), f0);
                if res is Ok {
                    lemma_covered_step(r0, *resolved, p0, a0, self.parsed(), self.admitted(), old(self).fetches(), f0, Some(key));
                }
                lemma_progressed_trans(old(self).fetches(), f0, self.fetches());
                lemma_keeps_pins_trans(*old(resolved), r0, *resolved);
                lemma_fetched_key_grows(f0, self.fetches(), key);
            }
            if let Err(e) = res {
                return Err(e);
            }
            proof {
                if resolved.has(dep_name@) && !r0.has(dep_name@) {
                    sub.deps.lemma_lookup_at(i as int);
                    lemma_fresh_entry(
                        dep_name@,
                        resolved.lookup(dep_name@).unwrap(),
                        *dep,
                        key,
                        self.parsed(),
                        self.self_lists(),
                        self.admitted(),
                        self.resolves(),
                        old(self).fetches(),
                        f0,
                        self.fetches(),
                        pins0.len() as int,
                    );
                }
                lemma_dep_explained_step(
                    *old(resolved),
                    r0,
                    *resolved,
                    Some(dep_name@),
                    p0,
                    s0,
                    a0,
                    pins0,
                    self.parsed(),
                    self.self_lists(),
                    self.admitted(),
                    self.resolves(),
                    old(self).fetches(),
                    f0,
                    self.fetches(),
                );
                assert forall|j: int| 0 <= j < imported@.len() implies resolved.has((#[trigger] imported@[j])@) by {
                    if j < before.len() {
                        assert(imported@[j] == before[j]);
                        assert(r0.has(before[j]@));
                    }
                }
                assert forall|j: int| 0 <= j < i + 1 implies (#[trigger] imported@[s + j])@ == items[j].0@ by {
                    if j < i {
                        assert(imported@[s + j] == before[s + j]);
                    }
                }
            }
        }
        proof {
            assert forall|j: int| 0 <= j < n implies #[trigger] views(imported@).skip(s as int)[j]
                == sub.deps.names()[j] by {
                assert(imported@[s + j]@ == items[j].0@);
            }
            assert(views(imported@).skip(s as int) =~= sub.deps.names());
            if sub.self_dep is Some {
                assert(imported@.take(s as int) =~= selfv);
            }
            assert forall|g: Seq<char>, k: Seq<char>|
                #[trigger] admits_from(self.parsed(), self.admitted(), g, k) && !fetched_key(old(self).fetches(), g)
                    && None::<Seq<char>> != Some(g) implies resolved.has(k) by {
                if g == key {
                    let j = sub.deps.pos(k);
                    sub.deps.lemma_lookup_at(j);
                    assert(resolved.has(imported@[s + j]@));
                }
            }
        }
        Ok(imported)
    }

    /// Resolve a manifest into a flat dependency graph.
    ///
    /// Uses a two-pass approach so that direct deps always take priority
    /// over transitive deps discovered through imports (first-seen-wins):
    ///   1. Pin and insert every direct dep.
    ///   2. Walk imports for each dep, skipping any name already resolved.
    ///
    /// On success every entry is either a direct dep, pinned by this call
    /// and listing the names its import brings in, or a dep of a
    /// sub-manifest fetched in this call and admitted by the import that
    /// fetched it, whose own import was read after that sub-manifest; every
    /// name an entry lists is an entry; no `url@commit:path` is fetched twice.
    /// The steps of the walk (the self import, then each direct dep's import
    /// in the manifest's order) end at `step_marks()`, and a name that is not
    /// a direct dep takes its entry from the first step that meets it
    /// (`first_step_wins`).
    pub fn resolve(&mut self, manifest: &Manifest) -> (r: Result<ResolvedManifest, ResolveError>)
        requires
            old(self).wf(),
        ensures
            final(self).wf(),
            progressed(old(self).fetches(), final(self).fetches()),
            extends(old(self).resolves(), final(self).resolves()),
            no_repeated_fetch(final(self).fetches()),
            cycle_names_fetched(r, final(self).fetches()),
            grows(old(self).parsed(), final(self).parsed()),
            grows(old(self).admitted(), final(self).admitted()),
            self_lists_ok(final(self).self_lists(), final(self).parsed(), final(self).resolves()),
            r matches Ok(rm) ==> entries_named(rm.deps),
            r matches Ok(rm) ==> deps_ok(rm.deps),
            r matches Ok(rm) ==> forall|k: Seq<char>| #[trigger] manifest.deps.has(k) ==> {
                &&& rm.deps.has(k)
                &&& rm.deps.lookup(k).unwrap().path == manifest.deps.lookup(k).unwrap().path
            },
            r matches Ok(rm) ==> forall|k: Seq<char>| #[trigger] rm.deps.has(k) ==> manifest.deps.has(k)
                || dep_explained(
                k,
                rm.deps.lookup(k).unwrap(),
                final(self).parsed(),
                final(self).self_lists(),
                final(self).admitted(),
                final(self).resolves(),
                old(self).fetches(),
                final(self).fetches(),
            ),
            r matches Ok(rm) ==> final(self).resolves().len() >= old(self).resolves().len()
                + manifest.deps.items().len(),
            r matches Ok(rm) ==> forall|j: int| 0 <= j < manifest.deps.items().len() ==> {
                &&& (#[trigger] final(self).resolves()[old(self).resolves().len() + j]).0 == source_git(
                    manifest.deps.items()[j].1.source,
                )
                &&& rm.deps.lookup(manifest.deps.items()[j].0@).unwrap().source == ResolvedSource::Git(
                    final(self).resolves()[old(self).resolves().len() + j].1,
                )
                &&& lists_imports(
                    manifest.deps.items()[j].1.import,
                    final(self).resolves()[old(self).resolves().len() + j].1,
                    rm.deps.lookup(manifest.deps.items()[j].0@).unwrap().deps@,
                    final(self).parsed(),
                    final(self).self_lists(),
                )
                &&& reads_fetched_from(
                    manifest.deps.items()[j].1.import,
                    final(self).resolves()[old(self).resolves().len() + j].1,
                    final(self).fetches(),
                    old(self).fetches().len() as int,
                )
            },
            r matches Ok(rm) ==> manifest.self_dep matches Some(sd) ==> exists|rg: ResolvedGit, v: Seq<String>|
                pinned_in(final(self).resolves(), sd.source, rg) && #[trigger] lists_imports(
                    sd.import,
                    rg,
                    v,
                    final(self).parsed(),
                    final(self).self_lists(),
                ) && all_resolved(v, rm.deps) && reads_between(
                    sd.import,
                    rg,
                    final(self).fetches(),
                    old(self).fetches().len() as int,
                    final(self).step_marks()[0],
                ),
            r matches Ok(rm) ==> final(self).step_marks().len() == manifest.deps.items().len() + 1 && marks_ok(
                final(self).step_marks(),
                old(self).fetches(),
                final(self).fetches(),
            ),
            r matches Ok(rm) ==> first_step_wins(
                rm.deps,
                manifest.deps,
                final(self).parsed(),
                final(self).self_lists(),
                final(self).admitted(),
                final(self).resolves(),
                old(self).fetches(),
                final(self).fetches(),
                final(self).step_marks(),
            ),
            r matches Ok(rm) ==> forall|j: int|
                0 <= j < manifest.deps.items().len() ==> reads_between(
                    (#[trigger] manifest.deps.items()[j]).1.import,
                    final(self).resolves()[old(self).resolves().len() + j].1,
                    final(self).fetches(),
                    final(self).step_marks()[j],
                    final(self).step_marks()[j + 1],
                ),
            flat_manifest(*manifest) ==> final(self).fetches() == old(self).fetches() && (r matches Ok(rm)
                ==> forall|k: Seq<char>| #[trigger] rm.deps.has(k) == manifest.deps.has(k)),
            manifest.deps.items().len() == 0 && manifest.self_dep is None ==> {
                &&& r matches Ok(rm)
                &&& rm.deps.items().len() == 0
                &&& final(self).fetches() == old(self).fetches()
            },
    {
        let mut resolved: NameMap<ResolvedDep> = NameMap::new();
        let n = manifest.deps.len();
        let ghost keys = manifest.deps.items();

        // Pass 1: pin all direct deps so they claim their names first.
        let mut pinned: Vec<ResolvedGit> = Vec::new();
        for i in 0..n
            invariant
                n == manifest.deps.items().len(),
                keys == manifest.deps.items(),
                manifest.deps.wf(),
                self.wf(),
                self.fetches() == old(self).fetches(),
                self.seen_fetches@ == old(self).seen_fetches@,
                self.parsed() == old(self).parsed(),
                self.admitted() == old(self).admitted(),
                entries_named(resolved),
                pinned@.len() == i,
                n == 0 ==> resolved.items().len() == 0,
                forall|k: Seq<char>| #[trigger] resolved.has(k) ==> resolved.lookup(k).unwrap().deps@.len() == 0,
                forall|j: int| 0 <= j < i ==> {
                    &&& #[trigger] resolved.has(keys[j].0@)
                    &&& resolved.lookup(keys[j].0@).unwrap().path == keys[j].1.path
                },
                forall|k: Seq<char>| #[trigger] resolved.has(k) ==> exists|j: int| 0 <= j < i && keys[j].0@ == k,
                self.resolves().len() == old(self).resolves().len() + i,
                extends(old(self).resolves(), self.resolves()),
                forall|j: int| 0 <= j < i ==> {
                    &&& (#[trigger] self.resolves()[old(self).resolves().len() + j]).0 == source_git(keys[j].1.source)
                    &&& resolved.lookup(keys[j].0@).unwrap().source == ResolvedSource::Git(
                        self.resolves()[old(self).resolves().len() + j].1,
                    )
                    &&& pinned@[j] == self.resolves()[old(self).resolves().len() + j].1
                },
        {
            let name = manifest.deps.key_at(i);
            let dep = manifest.deps.value_at(i);
            let rg = self.resolve_git_source(&dep.source)?;
            let ghost r0 = resolved;
            let ghost pinned0 = pinned@;
            let entry = ResolvedDep {
                name: name.clone(),
                path: dep.path.clone(),
                source: ResolvedSource::Git(rg.clone()),
                deps: Vec::new(),
            };
            resolved.insert(name.clone(), entry);
            pinned.push(rg);
            proof {
                assert forall|j: int| 0 <= j < i + 1 implies {
                    &&& #[trigger] resolved.has(keys[j].0@)
                    &&& resolved.lookup(keys[j].0@).unwrap().path == keys[j].1.path
                    &&& resolved.lookup(keys[j].0@).unwrap().source == ResolvedSource::Git(
                        self.resolves()[old(self).resolves().len() + j].1,
                    )
                    &&& pinned@[j] == self.resolves()[old(self).resolves().len() + j].1
                } by {
                    if j < i {
                        if keys[j].0@ == name@ {
                            manifest.deps.lemma_unique(j, i as int);
                        }
                        assert(resolved.lookup(keys[j].0@) == r0.lookup(keys[j].0@));
                        assert(pinned@[j] == pinned0[j]);
                    }
                    if !resolved.has(keys[j].0@) {
                        assert(resolved.lookup(keys[j].0@) is None);
                    }
                }
                assert forall|k: Seq<char>| #[trigger] resolved.has(k) implies exists|j: int|
                    0 <= j < i + 1 && keys[j].0@ == k by {
                    if k != name@ {
                        assert(resolved.lookup(k) == r0.lookup(k));
                        if !r0.has(k) {
                            assert(r0.lookup(k) is None);
                        }
                    } else {
                        assert(keys[i as int].0@ == k);
                    }
                }
                assert forall|k: Seq<char>| #[trigger] resolved.has(k) implies resolved.lookup(k).unwrap().name@ == k
                    && resolved.lookup(k).unwrap().deps@.len() == 0 by {
                    if k != name@ {
                        assert(resolved.lookup(k) == r0.lookup(k));
                        if !r0.has(k) {
                            assert(r0.lookup(k) is None);
                        }
                    }
                }
            }
        }
        let ghost pass1 = resolved;
        let ghost pins1 = self.resolves();
        proof {
            assert forall|k: Seq<char>| #[trigger] pass1.has(k) implies all_resolved(pass1.lookup(k).unwrap().deps@, pass1) by {}
        }

        // Handle self-imports (manifest repo importing its own sub-manifests).
        // Done between pass 1 and pass 2 so direct deps beat self-imports,
        // but self-imports beat transitive imports.
        let ghost mut self_part: Option<(ResolvedGit, Seq<String>)> = None;
        let ghost mut marks: Seq<int> = Seq::empty();
        proof {
            assert forall|k: Seq<char>| #[trigger] pass1.has(k) implies manifest.deps.has(k) by {
                let j = choose|j: int| 0 <= j < n && keys[j].0@ == k;
                manifest.deps.lemma_lookup_at(j);
            }
        }
        match &manifest.self_dep {
            Some(self_dep) => {
                let resolved_git = self.resolve_git_source(&self_dep.source)?;
                let ghost pins_s = self.resolves();
                let ghost p0 = self.parsed();
                let ghost s0 = self.self_lists();
                let ghost a0 = self.admitted();
                let self_imported = self.process_imports(&self_dep.import, &resolved_git, &mut resolved)?;
                proof {
                    self_part = Some((resolved_git, self_imported@));
                    assert(self.resolves()[pins_s.len() - 1] == pins_s[pins_s.len() - 1]);
                    assert(pinned_in(self.resolves(), self_dep.source, resolved_git));
                    lemma_first_step_wins_step(
                        pass1,
                        resolved,
                        manifest.deps,
                        p0,
                        s0,
                        a0,
                        pins_s,
                        self.parsed(),
                        self.self_lists(),
                        self.admitted(),
                        self.resolves(),
                        old(self).fetches(),
                        old(self).fetches(),
                        self.fetches(),
                        marks,
                    );
                    marks = marks.push(self.fetches().len() as int);
                    lemma_reads_between_from(self_dep.import, resolved_git, self.fetches(), old(self).fetches().len() as int);
                }
            },
            None => {
                proof {
                    assert forall|g: Seq<char>, k: Seq<char>|
                        #[trigger] admits_from(self.parsed(), self.admitted(), g, k) && !fetched_key(old(self).fetches(), g)
                            && None::<Seq<char>> != Some(g) implies resolved.has(k) by {
                        assert(old(self).parsed().contains_key(g));
                    }
                    lemma_first_step_wins_step(
                        pass1,
                        resolved,
                        manifest.deps,
                        self.parsed(),
                        self.self_lists(),
                        self.admitted(),
                        self.resolves(),
                        self.parsed(),
                        self.self_lists(),
                        self.admitted(),
                        self.resolves(),
                        old(self).fetches(),
                        old(self).fetches(),
                        self.fetches(),
                        marks,
                    );
                    marks = marks.push(self.fetches().len() as int);
                }
            },
        }

        // Pass 2: process imports for each direct dep.
        for i in 0..n
            invariant
                n == manifest.deps.items().len(),
                keys == manifest.deps.items(),
                manifest.deps.wf(),
                pinned@.len() == n,
                self.wf(),
                progressed(old(self).fetches(), self.fetches()),
                extends(old(self).resolves(), self.resolves()),
                grows(old(self).parsed(), self.parsed()),
                grows(old(self).admitted(), self.admitted()),
                keeps_pins(pass1, resolved),
                entries_named(resolved),
                deps_ok(resolved),
                extends(pins1, self.resolves()),
                pins1.len() == old(self).resolves().len() + n,
                forall|j: int| 0 <= j < n ==> #[trigger] pass1.has(keys[j].0@),
                forall|j: int| 0 <= j < n ==> #[trigger] pinned@[j] == pins1[old(self).resolves().len() + j].1,
                forall|k: Seq<char>| #[trigger] pass1.has(k) ==> exists|j: int| 0 <= j < n && keys[j].0@ == k,
                dep_new_explained(
                    pass1,
                    resolved,
                    None,
                    self.parsed(),
                    self.self_lists(),
                    self.admitted(),
                    self.resolves(),
                    old(self).fetches(),
                    self.fetches(),
                ),
                forall|j: int| 0 <= j < i ==> reads_fetched_from(
                    keys[j].1.import,
                    #[trigger] pinned@[j],
                    self.fetches(),
                    old(self).fetches().len() as int,
                ),
                forall|j: int| 0 <= j < i ==> lists_imports(
                    keys[j].1.import,
                    #[trigger] pinned@[j],
                    resolved.lookup(keys[j].0@).unwrap().deps@,
                    self.parsed(),
                    self.self_lists(),
                ),
                flat_manifest(*manifest) ==> self.fetches() == old(self).fetches() && forall|k: Seq<char>|
                    #[trigger] resolved.has(k) == pass1.has(k),
                n == 0 && manifest.self_dep is None ==> resolved.items().len() == 0 && self.fetches()
                    == old(self).fetches(),
                manifest.self_dep matches Some(sd) ==> self_part matches Some(sp) && pinned_in(
                    self.resolves(),
                    sd.source,
                    sp.0,
                ) && lists_imports(sd.import, sp.0, sp.1, self.parsed(), self.self_lists()) && all_resolved(sp.1, resolved)
                    && reads_between(sd.import, sp.0, self.fetches(), old(self).fetches().len() as int, marks[0]),
                marks.len() == i + 1,
                marks_ok(marks, old(self).fetches(), self.fetches()),
                first_step_wins(
                    resolved,
                    manifest.deps,
                    self.parsed(),
                    self.self_lists(),
                    self.admitted(),
                    self.resolves(),
                    old(self).fetches(),
                    self.fetches(),
                    marks,
                ),
                non_direct_explained(
                    resolved,
                    manifest.deps,
                    self.parsed(),
                    self.self_lists(),
                    self.admitted(),
                    self.resolves(),
                    old(self).fetches(),
                    self.fetches(),
                ),
                forall|j: int| 0 <= j < i ==> reads_between(
                    keys[j].1.import,
                    #[trigger] pinned@[j],
                    self.fetches(),
                    marks[j],
                    marks[j + 1],
                ),
        {
            let name = manifest.deps.key_at(i);
            let dep = manifest.deps.value_at(i);
            let ghost f0 = self.fetches();
            let ghost r0 = resolved;
            let ghost p0 = self.parsed();
            let ghost s0 = self.self_lists();
            let ghost a0 = self.admitted();
            let ghost pins0 = self.resolves();
            let imported = self.process_imports(&dep.import, &pinned[i], &mut resolved)?;
            proof {
                lemma_progressed_trans(old(self).fetches(), f0, self.fetches());
                lemma_keeps_pins_trans(pass1, r0, resolved);
                lemma_dep_explained_step(
                    pass1,
                    r0,
                    resolved,
                    None,
                    p0,
                    s0,
                    a0,
                    pins0,
                    self.parsed(),
                    self.self_lists(),
                    self.admitted(),
                    self.resolves(),
                    old(self).fetches(),
                    f0,
                    self.fetches(),
                );
                assert(pass1.has(keys[i as int].0@));
                lemma_reads_weaken(dep.import, pinned@[i as int], self.fetches(), old(self).fetches().len() as int, f0.len() as int);
                assert forall|j: int| 0 <= j < i implies reads_fetched_from(
                    keys[j].1.import,
                    #[trigger] pinned@[j],
                    self.fetches(),
                    old(self).fetches().len() as int,
                ) by {
                    lemma_reads_grow(keys[j].1.import, pinned@[j], f0, self.fetches(), old(self).fetches().len() as int);
                }
                if manifest.self_dep is Some {
                    let sd = manifest.self_dep->Some_0;
                    let sp = self_part->Some_0;
                    lemma_lists_persist(sd.import, sp.0, sp.1, p0, s0, self.parsed(), self.self_lists());
                    lemma_keeps_all_resolved(sp.1, r0, resolved);
                    let jj = choose|jj: int| 0 <= jj < pins0.len() && #[trigger] pins0[jj] == (source_git(sd.source), sp.0);
                    assert(self.resolves()[jj] == pins0[jj]);
                    lemma_reads_between_grow(sd.import, sp.0, f0, self.fetches(), old(self).fetches().len() as int, marks[0]);
                }
                lemma_first_step_wins_step(
                    r0,
                    resolved,
                    manifest.deps,
                    p0,
                    s0,
                    a0,
                    pins0,
                    self.parsed(),
                    self.self_lists(),
                    self.admitted(),
                    self.resolves(),
                    old(self).fetches(),
                    f0,
                    self.fetches(),
                    marks,
                );
                let ghost marks0 = marks;
                marks = marks.push(self.fetches().len() as int);
                lemma_reads_between_from(dep.import, pinned@[i as int], self.fetches(), f0.len() as int);
                assert forall|j: int| 0 <= j < i + 1 implies reads_between(
                    keys[j].1.import,
                    #[trigger] pinned@[j],
                    self.fetches(),
                    marks[j],
                    marks[j + 1],
                ) by {
                    if j < i {
                        assert(marks[j] == marks0[j] && marks[j + 1] == marks0[j + 1]);
                        assert(marks0[0] <= marks0[j]);
                        lemma_reads_between_grow(keys[j].1.import, pinned@[j], f0, self.fetches(), marks0[j], marks0[j + 1]);
                    } else {
                        assert(marks[j] == marks0[marks0.len() - 1]);
                    }
                }
            }
            let ghost r1 = resolved;
            match resolved.find(name.as_str()) {
                Some(idx) => {
                    let ghost r2 = resolved;
                    let current = resolved.value_at(idx);
                    let patched = ResolvedDep {
                        name: current.name.clone(),
                        path: current.path.clone(),
                        source: current.source.clone(),
                        deps: imported,
                    };
                    resolved.replace_at(idx, patched);
                    proof {
                        lemma_patch_keeps(r2, resolved, idx as int);
                        lemma_keeps_pins_trans(pass1, r2, resolved);
                        lemma_patch_full(r2, resolved, idx as int);
                        lemma_walk_patch(
                            r2,
                            resolved,
                            name@,
                            manifest.deps,
                            self.parsed(),
                            self.self_lists(),
                            self.admitted(),
                            self.resolves(),
                            old(self).fetches(),
                            self.fetches(),
                            marks,
                        );
                        if manifest.self_dep is Some {
                            lemma_keeps_all_resolved(self_part->Some_0.1, r2, resolved);
                        }
                        lemma_patch_deps(
                            pass1,
                            r2,
                            resolved,
                            idx as int,
                            None,
                            self.parsed(),
                            self.self_lists(),
                            self.admitted(),
                            self.resolves(),
                            old(self).fetches(),
                            self.fetches(),
                        );
                        assert forall|j: int| 0 <= j < i + 1 implies lists_imports(
                            keys[j].1.import,
                            #[trigger] pinned@[j],
                            resolved.lookup(keys[j].0@).unwrap().deps@,
                            self.parsed(),
                            self.self_lists(),
                        ) by {
                            if j < i {
                                if keys[j].0@ == name@ {
                                    manifest.deps.lemma_unique(j, i as int);
                                }
                                assert(pass1.has(keys[j].0@));
                                assert(r0.has(keys[j].0@));
                                assert(resolved.lookup(keys[j].0@) == r0.lookup(keys[j].0@));
                                lemma_lists_persist(
                                    keys[j].1.import,
                                    pinned@[j],
                                    r0.lookup(keys[j].0@).unwrap().deps@,
                                    p0,
                                    s0,
                                    self.parsed(),
                                    self.self_lists(),
                                );
                            }
                        }
                    }
                },
                None => {},
            }
        }
        proof {
            assert forall|k: Seq<char>| #[trigger] manifest.deps.has(k) implies {
                &&& resolved.has(k)
                &&& resolved.lookup(k).unwrap().path == manifest.deps.lookup(k).unwrap().path
            } by {
                let j = manifest.deps.pos(k);
                manifest.deps.lemma_lookup_at(j);
                assert(pass1.has(keys[j].0@));
            }
            assert forall|k: Seq<char>| #[trigger] resolved.has(k) implies manifest.deps.has(k) || dep_explained(
                k,
                resolved.lookup(k).unwrap(),
                self.parsed(),
                self.self_lists(),
                self.admitted(),
                self.resolves(),
                old(self).fetches(),
                self.fetches(),
            ) by {
                if pass1.has(k) {
                    let j = choose|j: int| 0 <= j < n && keys[j].0@ == k;
                    manifest.deps.lemma_lookup_at(j);
                }
            }
            assert forall|j: int| 0 <= j < manifest.deps.items().len() implies {
                &&& (#[trigger] self.resolves()[old(self).resolves().len() + j]).0 == source_git(
                    manifest.deps.items()[j].1.source,
                )
                &&& resolved.lookup(manifest.deps.items()[j].0@).unwrap().source == ResolvedSource::Git(
                    self.resolves()[old(self).resolves().len() + j].1,
                )
                &&& lists_imports(
                    manifest.deps.items()[j].1.import,
                    self.resolves()[old(self).resolves().len() + j].1,
                    resolved.lookup(manifest.deps.items()[j].0@).unwrap().deps@,
                    self.parsed(),
                    self.self_lists(),
                )
                &&& reads_fetched_from(
                    manifest.deps.items()[j].1.import,
                    self.resolves()[old(self).resolves().len() + j].1,
                    self.fetches(),
                    old(self).fetches().len() as int,
                )
            } by {
                assert(pass1.has(keys[j].0@));
                assert(self.resolves()[old(self).resolves().len() + j] == pins1[old(self).resolves().len() + j]);
                assert(pinned@[j] == pins1[old(self).resolves().len() + j].1);
            }
        }
        proof {
            if flat_manifest(*manifest) {
                assert forall|k: Seq<char>| #[trigger] resolved.has(k) == manifest.deps.has(k) by {
                    if resolved.has(k) {
                        let j = choose|j: int| 0 <= j < n && keys[j].0@ == k;
                        manifest.deps.lemma_lookup_at(j);
                    }
                    if manifest.deps.has(k) {
                        let j = manifest.deps.pos(k);
                        manifest.deps.lemma_lookup_at(j);
                        assert(pass1.has(keys[j].0@));
                    }
                }
            }
            if manifest.self_dep is Some {
                let sd = manifest.self_dep->Some_0;
                let sp = self_part->Some_0;
                assert(lists_imports(sd.import, sp.0, sp.1, self.parsed(), self.self_lists()));
            }
            assert forall|j: int| 0 <= j < manifest.deps.items().len() implies reads_between(
                (#[trigger] manifest.deps.items()[j]).1.import,
                self.resolves()[old(self).resolves().len() + j].1,
                self.fetches(),
                marks[j],
                marks[j + 1],
            ) by {
                assert(self.resolves()[old(self).resolves().len() + j] == pins1[old(self).resolves().len() + j]);
                assert(pinned@[j] == pins1[old(self).resolves().len() + j].1);
                assert(reads_between(keys[j].1.import, pinned@[j], self.fetches(), marks[j], marks[j + 1]));
            }
        }
        self.walk_marks = Ghost(marks);
        proof {
            if manifest.self_dep is Some {
                let sd = manifest.self_dep->Some_0;
                let sp = self_part->Some_0;
                assert(pinned_in(self.resolves(), sd.source, sp.0));
                assert(lists_imports(sd.import, sp.0, sp.1, self.parsed(), self.self_lists()));
                assert(all_resolved(sp.1, resolved));
                assert(reads_between(
                    sd.import,
                    sp.0,
                    self.fetches(),
                    old(self).fetches().len() as int,
                    self.step_marks()[0],
                ));
            }
        }
        Ok(ResolvedManifest { deps: resolved })
    }
}

} // verus!
