//! Resolution of an `UnresolvedManifest` into a flat `ResolvedManifest` by
//! following west.yml imports fetched from git.
use vstd::prelude::*;

use crate::config::{lowered_module, Config};
use crate::manifest::{ImportSpec, ResolvedDep, ResolvedManifest, UnresolvedDep, UnresolvedManifest};
use crate::name_map::NameMap;
use crate::resolver::{
    admit_all,
    admits,
    filter_admission,
    prefixed,
    Admission,
    fetch_key,
    fetched_before,
    fetched_key,
    grows,
    lemma_fetched_before_grow,
    lemma_fetched_before_new,
    lemma_fetched_key_grows,
    lemma_fresh_position,
    lemma_fetched_in_prefix,
    marks_ok,
    list_views,
    passes_filter_spec,
    no_repeated_fetch,
    passes_filter,
    prefixed_path,
    progressed,
    record_key,
    FetchRecord,
};
use crate::text::{owned, push_str, str_eq};
use crate::west::{deps_lowered, lower_upto, lowered_import, west_fault_message, West, WestError};

verus! {

/// A request for the file `path` of the repository at `url`, at `revision`.
#[derive(Debug)]
pub struct FetchRequest {
    /// The repository URL, serialized.
    pub url: String,
    pub revision: String,
    pub path: String,
}

impl Clone for FetchRequest {
    fn clone(&self) -> (r: Self)
        ensures
            r == *self,
    {
        FetchRequest { url: self.url.clone(), revision: self.revision.clone(), path: self.path.clone() }
    }
}

/// What can go wrong while resolving imports.
#[derive(Debug)]
pub enum ResolveError {
    FetchFailed { url: String, rev: String, path: String, reason: String },
    ParseError { url: String, rev: String, path: String, reason: String },
    CycleDetected(String),
    West(WestError),
}

/// The human-readable message of an error.
pub open spec fn resolve_error_message(e: ResolveError) -> Seq<char> {
    match e {
        ResolveError::FetchFailed { url, rev, path, reason } => "fetch failed for "@ + url@ + " @ "@
            + rev@ + ", path "@ + path@ + ": "@ + reason@,
        ResolveError::ParseError { url, rev, path, reason } => "parse error in "@ + url@ + " @ "@
            + rev@ + ", path "@ + path@ + ": "@ + reason@,
        ResolveError::CycleDetected(key) => "cycle detected: "@ + key@,
        ResolveError::West(w) => west_fault_message(w@),
    }
}

/// `prefix url @ rev, path path: reason`.
fn located_message(prefix: &str, url: &str, rev: &str, path: &str, reason: &str) -> (m: String)
    ensures
        m@ == prefix@ + url@ + " @ "@ + rev@ + ", path "@ + path@ + ": "@ + reason@,
{
    let mut m = owned(prefix);
    push_str(&mut m, url);
    push_str(&mut m, " @ ");
    push_str(&mut m, rev);
    push_str(&mut m, ", path ");
    push_str(&mut m, path);
    push_str(&mut m, ": ");
    push_str(&mut m, reason);
    m
}

impl ResolveError {
    /// The human-readable message of this error.
    pub fn message(&self) -> (m: String)
        ensures
            m@ == resolve_error_message(*self),
    {
        match self {
            ResolveError::FetchFailed { url, rev, path, reason } => located_message(
                "fetch failed for ",
                url.as_str(),
                rev.as_str(),
                path.as_str(),
                reason.as_str(),
            ),
            ResolveError::ParseError { url, rev, path, reason } => located_message(
                "parse error in ",
                url.as_str(),
                rev.as_str(),
                path.as_str(),
                reason.as_str(),
            ),
            ResolveError::CycleDetected(key) => {
                let mut m = owned("cycle detected: ");
                push_str(&mut m, key.as_str());
                m
            },
            ResolveError::West(w) => w.message(),
        }
    }
}

/// Abstracts fetching a file from a git repo at a revision.
pub trait ManifestFetcher {
    fn fetch(&self, request: &FetchRequest) -> Result<String, ResolveError>;
}

/// Decodes the text of a west.yml into a `West`; a failure carries the
/// decoder's message.
pub trait ManifestDecoder {
    fn decode(&self, content: &str) -> Result<West, String>;
}

/// Every entry of `before` is still in `after`, unchanged: the first
/// dependency seen under a name wins.
pub open spec fn keeps_entries(before: NameMap<ResolvedDep>, after: NameMap<ResolvedDep>) -> bool {
    forall|k: Seq<char>| #[trigger] before.has(k) ==> after.has(k) && after.lookup(k) == before.lookup(k)
}

/// Whether `e` is the resolved form of `d`.
pub open spec fn resolved_from(d: UnresolvedDep, e: ResolvedDep) -> bool {
    &&& e.name == d.name
    &&& e.url == d.url
    &&& e.revision == d.revision
    &&& e.path == d.path
}

/// Stores `entry` under `name` unless an entry already has that name, and
/// says whether it did: the first dependency seen under a name wins.
pub fn claim(resolved: &mut NameMap<ResolvedDep>, name: &String, entry: ResolvedDep) -> (stored: bool)
    ensures
        final(resolved).wf(),
        stored == !old(resolved).has(name@),
        stored ==> final(resolved).lookup(name@) == Some(entry),
        stored ==> forall|k: Seq<char>| k != name@ ==> #[trigger] final(resolved).lookup(k) == old(resolved).lookup(k),
        !stored ==> *final(resolved) == *old(resolved),
{
    if resolved.contains_key(name.as_str()) {
        false
    } else {
        resolved.insert(name.clone(), entry);
        true
    }
}

/// Whether resolving `m` involves no import at all: the self import does not
/// apply (no self repository, or nothing to import from it) and no direct
/// dependency imports anything.
pub open spec fn is_flat(m: UnresolvedManifest) -> bool {
    &&& (m.self_url is None || m.self_revision is None || m.self_import == ImportSpec::NoImport)
    &&& forall|j: int| 0 <= j < m.deps.items().len() ==> (#[trigger] m.deps.items()[j]).1.import == ImportSpec::NoImport
}

/// An east.toml is already flat: what `Config::into_unresolved` gives
/// involves no import, so resolving it fetches nothing and yields exactly
/// the modules.
pub proof fn lemma_lowered_config_is_flat(cfg: Config, um: UnresolvedManifest)
    requires
        um.self_url is None,
        um.deps.items().len() == cfg.modules.items().len(),
        forall|i: int|
            0 <= i < um.deps.items().len() ==> lowered_module(
                cfg.modules.items()[i].0@,
                cfg.modules.items()[i].1,
                #[trigger] um.deps.items()[i].1,
            ),
    ensures
        is_flat(um),
{
}

/// Whether `sub` is what a west manifest lowers into (`West::into_unresolved`)
/// when it names no repository of its own.
pub open spec fn lowered_west(sub: UnresolvedManifest) -> bool {
    exists|w: West|
        #[trigger] lower_upto(w.manifest, w.manifest.projects@.len()) is Ok && {
            &&& sub.self_url is None
            &&& sub.self_revision is None
            &&& lowered_import(w.manifest.manifest_self.import, sub.self_import)
            &&& deps_lowered(w.manifest, lower_upto(w.manifest, w.manifest.projects@.len())->Ok_0, sub.deps)
        }
}

/// Whether `a` admits none of the dependencies of `sub`.
pub open spec fn none_admitted(sub: UnresolvedManifest, a: Admission) -> bool {
    forall|k: Seq<char>| #[trigger] sub.deps.has(k) ==> !admits(a, k, sub.deps.lookup(k).unwrap().path@)
}

/// Every dependency of `sub` has an entry in `m`.
pub open spec fn merged_all(sub: UnresolvedManifest, m: NameMap<ResolvedDep>) -> bool {
    forall|k: Seq<char>| #[trigger] sub.deps.has(k) ==> m.has(k)
}

/// Every dependency of `sub` that passes the allow/block lists has an entry
/// in `m`.
pub open spec fn merged_filtered(
    sub: UnresolvedManifest,
    name_allow: Option<Seq<Seq<char>>>,
    name_block: Option<Seq<Seq<char>>>,
    path_allow: Option<Seq<Seq<char>>>,
    path_block: Option<Seq<Seq<char>>>,
    m: NameMap<ResolvedDep>,
) -> bool {
    forall|k: Seq<char>|
        #[trigger] sub.deps.has(k) && passes_filter_spec(
            k,
            sub.deps.lookup(k).unwrap().path@,
            name_allow,
            name_block,
            path_allow,
            path_block,
        ) ==> m.has(k)
}

proof fn lemma_merged_all_kept(sub: UnresolvedManifest, a: NameMap<ResolvedDep>, b: NameMap<ResolvedDep>)
    requires
        merged_all(sub, a),
        keeps_entries(a, b),
    ensures
        merged_all(sub, b),
{
    assert forall|k: Seq<char>| #[trigger] sub.deps.has(k) implies b.has(k) by {
        assert(a.has(k));
    }
}

/// Whether `e` is the entry that an import admitting by `a` makes of the
/// dependency `d`: its name, URL and revision, and its path under the
/// import's prefix.
pub open spec fn imported_form(d: UnresolvedDep, a: Admission, e: ResolvedDep) -> bool {
    &&& e.name == d.name
    &&& e.url == d.url
    &&& e.revision == d.revision
    &&& e.path@ == prefixed(a.prefix, d.path@)
}

/// Whether `e`, the entry under `k`, comes from a manifest that was fetched
/// after the fetches `log` and decoded: it is the imported form of that
/// manifest's dependency `k`, which the fetching import admits.
pub open spec fn explained_by(
    k: Seq<char>,
    e: ResolvedDep,
    decoded: Map<Seq<char>, UnresolvedManifest>,
    admitted: Map<Seq<char>, Admission>,
    log: Seq<FetchRecord>,
) -> bool {
    exists|f: Seq<char>|
        #[trigger] decoded.contains_key(f) && admitted.contains_key(f) && !fetched_key(log, f)
            && decoded[f].deps.has(k) && admits(admitted[f], k, decoded[f].deps.lookup(k).unwrap().path@)
            && imported_form(decoded[f].deps.lookup(k).unwrap(), admitted[f], e)
}

/// Every entry of `after` that `before` lacks, but for `skip`, comes from a
/// manifest decoded after the fetches `log`.
pub open spec fn new_explained_but(
    before: NameMap<ResolvedDep>,
    after: NameMap<ResolvedDep>,
    skip: Option<Seq<char>>,
    decoded: Map<Seq<char>, UnresolvedManifest>,
    admitted: Map<Seq<char>, Admission>,
    log: Seq<FetchRecord>,
) -> bool {
    forall|k: Seq<char>|
        #[trigger] after.has(k) ==> before.has(k) || skip == Some(k) || explained_by(
            k,
            after.lookup(k).unwrap(),
            decoded,
            admitted,
            log,
        )
}

/// Every entry of `after` that `before` lacks comes from a manifest decoded
/// after the fetches `log`.
pub open spec fn new_explained(
    before: NameMap<ResolvedDep>,
    after: NameMap<ResolvedDep>,
    decoded: Map<Seq<char>, UnresolvedManifest>,
    admitted: Map<Seq<char>, Admission>,
    log: Seq<FetchRecord>,
) -> bool {
    new_explained_but(before, after, None, decoded, admitted, log)
}

/// Every entry of `m` is either the resolved form of the direct dependency
/// of its name, or comes from a manifest decoded after the fetches `log`.
pub open spec fn accounted(
    m: NameMap<ResolvedDep>,
    direct: NameMap<UnresolvedDep>,
    decoded: Map<Seq<char>, UnresolvedManifest>,
    admitted: Map<Seq<char>, Admission>,
    log: Seq<FetchRecord>,
) -> bool {
    forall|k: Seq<char>|
        #[trigger] m.has(k) ==> (direct.has(k) && resolved_from(direct.lookup(k).unwrap(), m.lookup(k).unwrap()))
            || explained_by(k, m.lookup(k).unwrap(), decoded, admitted, log)
}

/// Whether `import` of the repository at `url` and `rev` names `k` among the
/// dependencies of a manifest it read (and, if filtered, lets it through).
pub open spec fn import_claims(
    import: ImportSpec,
    url: Seq<char>,
    rev: Seq<char>,
    decoded: Map<Seq<char>, UnresolvedManifest>,
    k: Seq<char>,
) -> bool {
    match import {
        ImportSpec::File(p) => decoded.contains_key(fetch_key(url, rev, p@)) && decoded[fetch_key(
            url,
            rev,
            p@,
        )].deps.has(k),
        ImportSpec::Files(ps) => exists|i: int|
            0 <= i < ps@.len() && decoded.contains_key(fetch_key(url, rev, (#[trigger] ps@[i])@))
                && decoded[fetch_key(url, rev, ps@[i]@)].deps.has(k),
        ImportSpec::Filtered {
            file,
            name_allowlist,
            name_blocklist,
            path_allowlist,
            path_blocklist,
            path_prefix: _,
        } => {
            let f = fetch_key(url, rev, file@);
            &&& decoded.contains_key(f)
            &&& decoded[f].deps.has(k)
            &&& passes_filter_spec(
                k,
                decoded[f].deps.lookup(k).unwrap().path@,
                list_views(name_allowlist),
                list_views(name_blocklist),
                list_views(path_allowlist),
                list_views(path_blocklist),
            )
        },
        ImportSpec::NoImport => false,
    }
}

/// Whether every manifest that `import` of the repository at `url` and `rev`
/// names has been decoded.
pub open spec fn import_keys_decoded(
    import: ImportSpec,
    url: Seq<char>,
    rev: Seq<char>,
    decoded: Map<Seq<char>, UnresolvedManifest>,
) -> bool {
    match import {
        ImportSpec::File(p) => decoded.contains_key(fetch_key(url, rev, p@)),
        ImportSpec::Files(ps) => forall|i: int|
            0 <= i < ps@.len() ==> decoded.contains_key(fetch_key(url, rev, (#[trigger] ps@[i])@)),
        ImportSpec::Filtered { file, .. } => decoded.contains_key(fetch_key(url, rev, file@)),
        ImportSpec::NoImport => true,
    }
}

/// A name that an import claims in a larger record of decoded manifests is
/// claimed in a smaller one that already holds every manifest it names.
proof fn lemma_claims_back(
    import: ImportSpec,
    url: Seq<char>,
    rev: Seq<char>,
    d_mid: Map<Seq<char>, UnresolvedManifest>,
    d_fin: Map<Seq<char>, UnresolvedManifest>,
    k: Seq<char>,
)
    requires
        import_keys_decoded(import, url, rev, d_mid),
        grows(d_mid, d_fin),
        import_claims(import, url, rev, d_fin, k),
    ensures
        import_claims(import, url, rev, d_mid, k),
{
    match import {
        ImportSpec::Files(ps) => {
            let i = choose|i: int|
                0 <= i < ps@.len() && d_fin.contains_key(fetch_key(url, rev, (#[trigger] ps@[i])@))
                    && d_fin[fetch_key(url, rev, ps@[i]@)].deps.has(k);
            assert(d_mid.contains_key(fetch_key(url, rev, ps@[i]@)));
        },
        _ => {},
    }
}

proof fn lemma_explained_persists(
    k: Seq<char>,
    e: ResolvedDep,
    d1: Map<Seq<char>, UnresolvedManifest>,
    a1: Map<Seq<char>, Admission>,
    l1: Seq<FetchRecord>,
    d2: Map<Seq<char>, UnresolvedManifest>,
    a2: Map<Seq<char>, Admission>,
    l0: Seq<FetchRecord>,
)
    requires
        explained_by(k, e, d1, a1, l1),
        grows(d1, d2),
        grows(a1, a2),
        progressed(l0, l1),
    ensures
        explained_by(k, e, d2, a2, l0),
{
    let f = choose|f: Seq<char>|
        #[trigger] d1.contains_key(f) && a1.contains_key(f) && !fetched_key(l1, f) && d1[f].deps.has(k) && admits(
            a1[f],
            k,
            d1[f].deps.lookup(k).unwrap().path@,
        ) && imported_form(d1[f].deps.lookup(k).unwrap(), a1[f], e);
    if fetched_key(l0, f) {
        lemma_fetched_key_grows(l0, l1, f);
    }
    assert(d2.contains_key(f) && a2.contains_key(f));
}

proof fn lemma_merge_step(
    m_old: NameMap<ResolvedDep>,
    r0: NameMap<ResolvedDep>,
    r1: NameMap<ResolvedDep>,
    name: Seq<char>,
    d0: Map<Seq<char>, UnresolvedManifest>,
    a0: Map<Seq<char>, Admission>,
    d1: Map<Seq<char>, UnresolvedManifest>,
    a1: Map<Seq<char>, Admission>,
    l_old: Seq<FetchRecord>,
    l0: Seq<FetchRecord>,
)
    requires
        new_explained(m_old, r0, d0, a0, l_old),
        keeps_entries(r0, r1),
        new_explained_but(r0, r1, Some(name), d1, a1, l0),
        grows(d0, d1),
        grows(a0, a1),
        progressed(l_old, l0),
        r1.has(name) && !r0.has(name) ==> explained_by(name, r1.lookup(name).unwrap(), d1, a1, l_old),
    ensures
        new_explained(m_old, r1, d1, a1, l_old),
{
    assert forall|k: Seq<char>| #[trigger] r1.has(k) implies m_old.has(k) || None::<Seq<char>> == Some(k)
        || explained_by(k, r1.lookup(k).unwrap(), d1, a1, l_old) by {
        if r0.has(k) {
            if !m_old.has(k) {
                assert(explained_by(k, r0.lookup(k).unwrap(), d0, a0, l_old));
                lemma_explained_persists(k, r0.lookup(k).unwrap(), d0, a0, l_old, d1, a1, l_old);
            }
        } else if k != name {
            lemma_explained_persists(k, r1.lookup(k).unwrap(), d1, a1, l0, d1, a1, l_old);
        }
    }
}

proof fn lemma_explained_trans(
    m_old: NameMap<ResolvedDep>,
    r0: NameMap<ResolvedDep>,
    r1: NameMap<ResolvedDep>,
    d0: Map<Seq<char>, UnresolvedManifest>,
    a0: Map<Seq<char>, Admission>,
    d1: Map<Seq<char>, UnresolvedManifest>,
    a1: Map<Seq<char>, Admission>,
    l_old: Seq<FetchRecord>,
    l0: Seq<FetchRecord>,
)
    requires
        new_explained(m_old, r0, d0, a0, l_old),
        keeps_entries(r0, r1),
        new_explained(r0, r1, d1, a1, l0),
        grows(d0, d1),
        grows(a0, a1),
        progressed(l_old, l0),
    ensures
        new_explained(m_old, r1, d1, a1, l_old),
{
    assert forall|k: Seq<char>| #[trigger] r1.has(k) implies m_old.has(k) || None::<Seq<char>> == Some(k)
        || explained_by(k, r1.lookup(k).unwrap(), d1, a1, l_old) by {
        if r0.has(k) {
            if !m_old.has(k) {
                assert(explained_by(k, r0.lookup(k).unwrap(), d0, a0, l_old));
                lemma_explained_persists(k, r0.lookup(k).unwrap(), d0, a0, l_old, d1, a1, l_old);
            }
        } else {
            lemma_explained_persists(k, r1.lookup(k).unwrap(), d1, a1, l0, d1, a1, l_old);
        }
    }
}

proof fn lemma_accounted_step(
    m0: NameMap<ResolvedDep>,
    m1: NameMap<ResolvedDep>,
    direct: NameMap<UnresolvedDep>,
    d0: Map<Seq<char>, UnresolvedManifest>,
    a0: Map<Seq<char>, Admission>,
    d1: Map<Seq<char>, UnresolvedManifest>,
    a1: Map<Seq<char>, Admission>,
    l: Seq<FetchRecord>,
    l1: Seq<FetchRecord>,
)
    requires
        accounted(m0, direct, d0, a0, l),
        keeps_entries(m0, m1),
        new_explained(m0, m1, d1, a1, l1),
        grows(d0, d1),
        grows(a0, a1),
        progressed(l, l1),
    ensures
        accounted(m1, direct, d1, a1, l),
{
    assert forall|k: Seq<char>| #[trigger] m1.has(k) implies (direct.has(k) && resolved_from(
        direct.lookup(k).unwrap(),
        m1.lookup(k).unwrap(),
    )) || explained_by(k, m1.lookup(k).unwrap(), d1, a1, l) by {
        if m0.has(k) {
            if !(direct.has(k) && resolved_from(direct.lookup(k).unwrap(), m0.lookup(k).unwrap())) {
                lemma_explained_persists(k, m0.lookup(k).unwrap(), d0, a0, l, d1, a1, l);
            }
        } else {
            lemma_explained_persists(k, m1.lookup(k).unwrap(), d1, a1, l1, d1, a1, l);
        }
    }
}

/// Whether `k` is the key of a file that `import` of the repository at `url`
/// and `rev` reads.
pub open spec fn import_reads_key(import: ImportSpec, url: Seq<char>, rev: Seq<char>, k: Seq<char>) -> bool {
    match import {
        ImportSpec::NoImport => false,
        ImportSpec::File(p) => k == fetch_key(url, rev, p@),
        ImportSpec::Files(ps) => exists|i: int| 0 <= i < ps@.len() && k == fetch_key(url, rev, (#[trigger] ps@[i])@),
        ImportSpec::Filtered { file, .. } => k == fetch_key(url, rev, file@),
    }
}

/// Whether every file that `import` of the repository at `url` and `rev`
/// reads was fetched at a position of `log` from `from` on.
pub open spec fn files_fetched_from(
    import: ImportSpec,
    url: Seq<char>,
    rev: Seq<char>,
    log: Seq<FetchRecord>,
    from: int,
) -> bool {
    forall|k: Seq<char>|
        #[trigger] import_reads_key(import, url, rev, k) ==> exists|i: int|
            from <= i < log.len() && record_key(#[trigger] log[i]) == k
}

/// Whether the files that the import of `d`, a dependency of the manifest
/// fetched under `f`, reads were fetched after that manifest, in `now`.
pub open spec fn walked_after(d: UnresolvedDep, f: Seq<char>, now: Seq<FetchRecord>) -> bool {
    exists|i: int|
        0 <= i < now.len() && record_key(#[trigger] now[i]) == f && files_fetched_from(
            d.import,
            d.url@,
            d.revision@,
            now,
            i + 1,
        )
}

/// Every dependency that a manifest decoded after the fetches `log` (but
/// `skip`) admits had the files its own import reads fetched after that
/// manifest, in the fetches `now`.
pub open spec fn walked_but(
    decoded: Map<Seq<char>, UnresolvedManifest>,
    admitted: Map<Seq<char>, Admission>,
    log: Seq<FetchRecord>,
    now: Seq<FetchRecord>,
    skip: Option<Seq<char>>,
) -> bool {
    forall|f: Seq<char>, k: Seq<char>|
        decoded.contains_key(f) && admitted.contains_key(f) && !fetched_key(log, f) && skip != Some(f)
            && #[trigger] decoded[f].deps.has(k) && admits(admitted[f], k, decoded[f].deps.lookup(k).unwrap().path@)
            ==> walked_after(decoded[f].deps.lookup(k).unwrap(), f, now)
}

/// The manifests that `d1` adds to `d0` were fetched after the fetches `log`.
pub open spec fn decoded_fresh(
    d0: Map<Seq<char>, UnresolvedManifest>,
    d1: Map<Seq<char>, UnresolvedManifest>,
    log: Seq<FetchRecord>,
) -> bool {
    forall|f: Seq<char>| #[trigger] d1.contains_key(f) && !d0.contains_key(f) ==> !fetched_key(log, f)
}

proof fn lemma_files_grow(
    import: ImportSpec,
    url: Seq<char>,
    rev: Seq<char>,
    n1: Seq<FetchRecord>,
    n2: Seq<FetchRecord>,
    from: int,
)
    requires
        files_fetched_from(import, url, rev, n1, from),
        progressed(n1, n2),
        0 <= from,
    ensures
        files_fetched_from(import, url, rev, n2, from),
{
    assert forall|k: Seq<char>| #[trigger] import_reads_key(import, url, rev, k) implies exists|i: int|
        from <= i < n2.len() && record_key(#[trigger] n2[i]) == k by {
        let i = choose|i: int| from <= i < n1.len() && record_key(#[trigger] n1[i]) == k;
        assert(n2[i] == n1[i]);
    }
}

proof fn lemma_walked_after_grow(d: UnresolvedDep, f: Seq<char>, n1: Seq<FetchRecord>, n2: Seq<FetchRecord>)
    requires
        walked_after(d, f, n1),
        progressed(n1, n2),
    ensures
        walked_after(d, f, n2),
{
    let i = choose|i: int|
        0 <= i < n1.len() && record_key(#[trigger] n1[i]) == f && files_fetched_from(d.import, d.url@, d.revision@, n1, i + 1);
    lemma_files_grow(d.import, d.url@, d.revision@, n1, n2, i + 1);
    assert(n2[i] == n1[i]);
}

/// A dependency of the manifest fetched under `f`, before the fetches
/// `before`, whose import's files were fetched from there on, was walked
/// after that manifest.
proof fn lemma_walked_after_from(d: UnresolvedDep, f: Seq<char>, before: Seq<FetchRecord>, now: Seq<FetchRecord>)
    requires
        fetched_key(before, f),
        progressed(before, now),
        files_fetched_from(d.import, d.url@, d.revision@, now, before.len() as int),
    ensures
        walked_after(d, f, now),
{
    let fi = choose|fi: int| 0 <= fi < before.len() && record_key(#[trigger] before[fi]) == f;
    assert(now[fi] == before[fi]);
    assert forall|k: Seq<char>| #[trigger] import_reads_key(d.import, d.url@, d.revision@, k) implies exists|i: int|
        fi + 1 <= i < now.len() && record_key(#[trigger] now[i]) == k by {
        let i = choose|i: int| before.len() <= i < now.len() && record_key(#[trigger] now[i]) == k;
    }
}

/// Composes what a step walks with what was walked before it.
proof fn lemma_walked_step(
    d0: Map<Seq<char>, UnresolvedManifest>,
    a0: Map<Seq<char>, Admission>,
    d1: Map<Seq<char>, UnresolvedManifest>,
    a1: Map<Seq<char>, Admission>,
    l_old: Seq<FetchRecord>,
    l0: Seq<FetchRecord>,
    n1: Seq<FetchRecord>,
    skip: Option<Seq<char>>,
)
    requires
        walked_but(d0, a0, l_old, l0, skip),
        walked_but(d1, a1, l0, n1, None),
        a0.dom() == d0.dom(),
        grows(d0, d1),
        grows(a0, a1),
        decoded_fresh(d0, d1, l0),
        progressed(l_old, l0),
        progressed(l0, n1),
    ensures
        walked_but(d1, a1, l_old, n1, skip),
{
    assert forall|f: Seq<char>, k: Seq<char>|
        d1.contains_key(f) && a1.contains_key(f) && !fetched_key(l_old, f) && skip != Some(f)
            && #[trigger] d1[f].deps.has(k) && admits(a1[f], k, d1[f].deps.lookup(k).unwrap().path@) implies walked_after(
        d1[f].deps.lookup(k).unwrap(),
        f,
        n1,
    ) by {
        if d0.contains_key(f) {
            assert(a0.contains_key(f));
            assert(d0[f].deps.has(k));
            lemma_walked_after_grow(d0[f].deps.lookup(k).unwrap(), f, l0, n1);
        } else {
            assert(!fetched_key(l0, f));
            assert(None::<Seq<char>> != Some(f));
        }
    }
}

proof fn lemma_decoded_fresh_trans(
    d0: Map<Seq<char>, UnresolvedManifest>,
    d1: Map<Seq<char>, UnresolvedManifest>,
    d2: Map<Seq<char>, UnresolvedManifest>,
    l0: Seq<FetchRecord>,
    l1: Seq<FetchRecord>,
)
    requires
        decoded_fresh(d0, d1, l0),
        decoded_fresh(d1, d2, l1),
        grows(d0, d1),
        progressed(l0, l1),
    ensures
        decoded_fresh(d0, d2, l0),
{
    assert forall|f: Seq<char>| #[trigger] d2.contains_key(f) && !d0.contains_key(f) implies !fetched_key(l0, f) by {
        if !d1.contains_key(f) && fetched_key(l0, f) {
            lemma_fetched_key_grows(l0, l1, f);
        }
    }
}

proof fn lemma_files_weaken(import: ImportSpec, url: Seq<char>, rev: Seq<char>, log: Seq<FetchRecord>, a: int, b: int)
    requires
        files_fetched_from(import, url, rev, log, b),
        a <= b,
    ensures
        files_fetched_from(import, url, rev, log, a),
{
    assert forall|k: Seq<char>| #[trigger] import_reads_key(import, url, rev, k) implies exists|i: int|
        a <= i < log.len() && record_key(#[trigger] log[i]) == k by {
        let i = choose|i: int| b <= i < log.len() && record_key(#[trigger] log[i]) == k;
    }
}

/// Whether the manifest fetched under `g` declares `k` and the import that
/// fetched it admits `k`.
pub open spec fn declares_admitted(
    decoded: Map<Seq<char>, UnresolvedManifest>,
    admitted: Map<Seq<char>, Admission>,
    g: Seq<char>,
    k: Seq<char>,
) -> bool {
    &&& decoded.contains_key(g)
    &&& admitted.contains_key(g)
    &&& decoded[g].deps.has(k)
    &&& admits(admitted[g], k, decoded[g].deps.lookup(k).unwrap().path@)
}

/// Every name that a manifest fetched after the fetches `log` (but `skip`)
/// declares and admits has an entry in `m`.
pub open spec fn covers_admitted(
    m: NameMap<ResolvedDep>,
    decoded: Map<Seq<char>, UnresolvedManifest>,
    admitted: Map<Seq<char>, Admission>,
    log: Seq<FetchRecord>,
    skip: Option<Seq<char>>,
) -> bool {
    forall|g: Seq<char>, k: Seq<char>|
        #[trigger] declares_admitted(decoded, admitted, g, k) && !fetched_key(log, g) && skip != Some(g) ==> m.has(k)
}

proof fn lemma_covers_step(
    r0: NameMap<ResolvedDep>,
    r1: NameMap<ResolvedDep>,
    d0: Map<Seq<char>, UnresolvedManifest>,
    a0: Map<Seq<char>, Admission>,
    d1: Map<Seq<char>, UnresolvedManifest>,
    a1: Map<Seq<char>, Admission>,
    l_old: Seq<FetchRecord>,
    l0: Seq<FetchRecord>,
    skip: Option<Seq<char>>,
)
    requires
        covers_admitted(r0, d0, a0, l_old, skip),
        covers_admitted(r1, d1, a1, l0, None),
        keeps_entries(r0, r1),
        grows(d0, d1),
        grows(a0, a1),
        a0.dom() == d0.dom(),
        decoded_fresh(d0, d1, l0),
    ensures
        covers_admitted(r1, d1, a1, l_old, skip),
{
    assert forall|g: Seq<char>, k: Seq<char>|
        #[trigger] declares_admitted(d1, a1, g, k) && !fetched_key(l_old, g) && skip != Some(g) implies r1.has(k) by {
        if d0.contains_key(g) {
            assert(declares_admitted(d0, a0, g, k));
            assert(r0.has(k));
        } else {
            assert(None::<Seq<char>> != Some(g));
        }
    }
}

/// Whether every file that `import` of the repository at `url` and `rev`
/// reads was fetched at a position of `log` from `a` up to (not including)
/// `b`.
pub open spec fn files_between(import: ImportSpec, url: Seq<char>, rev: Seq<char>, log: Seq<FetchRecord>, a: int, b: int) -> bool {
    forall|k: Seq<char>|
        #[trigger] import_reads_key(import, url, rev, k) ==> exists|i: int|
            a <= i < b && i < log.len() && record_key(#[trigger] log[i]) == k
}

/// Whether `e`, the entry under `k`, is the imported form of the
/// declaration of `k` in a manifest fetched after the fetches `log` and by
/// the end of the fetches `upto`, which its import admits.
pub open spec fn explained_within(
    k: Seq<char>,
    e: ResolvedDep,
    decoded: Map<Seq<char>, UnresolvedManifest>,
    admitted: Map<Seq<char>, Admission>,
    log: Seq<FetchRecord>,
    upto: Seq<FetchRecord>,
) -> bool {
    exists|f: Seq<char>|
        #[trigger] declares_admitted(decoded, admitted, f, k) && !fetched_key(log, f) && fetched_key(upto, f)
            && imported_form(decoded[f].deps.lookup(k).unwrap(), admitted[f], e)
}

/// Whether one of the first `p` direct dependencies is named `k`.
pub open spec fn claimed_before(items: Seq<(String, UnresolvedDep)>, k: Seq<char>, p: int) -> bool {
    exists|j: int| 0 <= j < p && (#[trigger] items[j]).0@ == k
}

/// Whether a manifest fetched after `log` and by the end of `upto` declares
/// and admits `k`.
pub open spec fn met_by(
    decoded: Map<Seq<char>, UnresolvedManifest>,
    admitted: Map<Seq<char>, Admission>,
    log: Seq<FetchRecord>,
    upto: Seq<FetchRecord>,
    k: Seq<char>,
) -> bool {
    exists|g: Seq<char>| #[trigger] declares_admitted(decoded, admitted, g, k) && !fetched_key(log, g) && fetched_key(upto, g)
}

/// The walk order of a resolve whose imports ended at the positions `marks`
/// of the fetches (the self import, then each direct dependency's import,
/// each direct dependency claiming its name just before its import): a name
/// that a manifest fetched by the end of step `p` declares and admits, and
/// that none of the direct dependencies claimed before step `p` names, has
/// the entry that some manifest fetched by then makes of it.
pub open spec fn walk_order(
    m: NameMap<ResolvedDep>,
    items: Seq<(String, UnresolvedDep)>,
    decoded: Map<Seq<char>, UnresolvedManifest>,
    admitted: Map<Seq<char>, Admission>,
    log: Seq<FetchRecord>,
    now: Seq<FetchRecord>,
    marks: Seq<int>,
) -> bool {
    forall|k: Seq<char>, g: Seq<char>, p: int|
        #![trigger declares_admitted(decoded, admitted, g, k), marks[p]]
        0 <= p < marks.len() && declares_admitted(decoded, admitted, g, k) && !fetched_key(log, g) && fetched_key(
            now.take(marks[p]),
            g,
        ) && !claimed_before(items, k, p) ==> m.has(k) && explained_within(
            k,
            m.lookup(k).unwrap(),
            decoded,
            admitted,
            log,
            now.take(marks[p]),
        )
}

/// Each of the first `count` direct dependencies whose name no manifest met
/// before its claim declares and admits has its resolved form as entry.
pub open spec fn direct_kept(
    m: NameMap<ResolvedDep>,
    items: Seq<(String, UnresolvedDep)>,
    decoded: Map<Seq<char>, UnresolvedManifest>,
    admitted: Map<Seq<char>, Admission>,
    log: Seq<FetchRecord>,
    now: Seq<FetchRecord>,
    marks: Seq<int>,
    count: int,
) -> bool {
    forall|j: int|
        0 <= j < count && !met_by(decoded, admitted, log, now.take(marks[j]), (#[trigger] items[j]).0@) ==> m.has(
            items[j].0@,
        ) && resolved_from(items[j].1, m.lookup(items[j].0@).unwrap())
}

/// Every entry of `m` is named by one of the first `count` direct
/// dependencies or is explained by a manifest fetched by the end of `now`.
pub open spec fn entries_so_far(
    m: NameMap<ResolvedDep>,
    items: Seq<(String, UnresolvedDep)>,
    decoded: Map<Seq<char>, UnresolvedManifest>,
    admitted: Map<Seq<char>, Admission>,
    log: Seq<FetchRecord>,
    now: Seq<FetchRecord>,
    count: int,
) -> bool {
    forall|k: Seq<char>|
        #[trigger] m.has(k) ==> claimed_before(items, k, count) || explained_within(
            k,
            m.lookup(k).unwrap(),
            decoded,
            admitted,
            log,
            now,
        )
}

proof fn lemma_within_grow(
    k: Seq<char>,
    e: ResolvedDep,
    d0: Map<Seq<char>, UnresolvedManifest>,
    a0: Map<Seq<char>, Admission>,
    d1: Map<Seq<char>, UnresolvedManifest>,
    a1: Map<Seq<char>, Admission>,
    log: Seq<FetchRecord>,
    u0: Seq<FetchRecord>,
    u1: Seq<FetchRecord>,
)
    requires
        explained_within(k, e, d0, a0, log, u0),
        grows(d0, d1),
        grows(a0, a1),
        progressed(u0, u1),
    ensures
        explained_within(k, e, d1, a1, log, u1),
{
    let f = choose|f: Seq<char>|
        #[trigger] declares_admitted(d0, a0, f, k) && !fetched_key(log, f) && fetched_key(u0, f) && imported_form(
            d0[f].deps.lookup(k).unwrap(),
            a0[f],
            e,
        );
    lemma_fetched_key_grows(u0, u1, f);
    assert(declares_admitted(d1, a1, f, k));
}

/// One more import step of the walk keeps the walk order.
proof fn lemma_walk_phase(
    r0: NameMap<ResolvedDep>,
    r1: NameMap<ResolvedDep>,
    items: Seq<(String, UnresolvedDep)>,
    d0: Map<Seq<char>, UnresolvedManifest>,
    a0: Map<Seq<char>, Admission>,
    d1: Map<Seq<char>, UnresolvedManifest>,
    a1: Map<Seq<char>, Admission>,
    old_log: Seq<FetchRecord>,
    l0: Seq<FetchRecord>,
    l1: Seq<FetchRecord>,
    marks: Seq<int>,
    c: int,
)
    requires
        walk_order(r0, items, d0, a0, old_log, l0, marks),
        entries_so_far(r0, items, d0, a0, old_log, l0, c),
        direct_kept(r0, items, d0, a0, old_log, l0, marks, c),
        marks_ok(marks, old_log, l0),
        marks.len() == c,
        c == 0 ==> l0 == old_log,
        keeps_entries(r0, r1),
        new_explained(r0, r1, d1, a1, l0),
        covers_admitted(r1, d1, a1, l0, None),
        decoded_fresh(d0, d1, l0),
        grows(d0, d1),
        grows(a0, a1),
        a0.dom() == d0.dom(),
        progressed(old_log, l0),
        progressed(l0, l1),
        forall|f: Seq<char>| #[trigger] d1.contains_key(f) ==> fetched_key(l1, f),
    ensures
        walk_order(r1, items, d1, a1, old_log, l1, marks.push(l1.len() as int)),
        entries_so_far(r1, items, d1, a1, old_log, l1, c),
        direct_kept(r1, items, d1, a1, old_log, l1, marks.push(l1.len() as int), c),
        marks_ok(marks.push(l1.len() as int), old_log, l1),
{
    let m2 = marks.push(l1.len() as int);
    assert forall|k: Seq<char>| #[trigger] r1.has(k) implies claimed_before(items, k, c) || explained_within(
        k,
        r1.lookup(k).unwrap(),
        d1,
        a1,
        old_log,
        l1,
    ) by {
        if r0.has(k) {
            if !claimed_before(items, k, c) {
                lemma_within_grow(k, r0.lookup(k).unwrap(), d0, a0, d1, a1, old_log, l0, l1);
            }
        } else {
            let f = choose|f: Seq<char>|
                #[trigger] d1.contains_key(f) && a1.contains_key(f) && !fetched_key(l0, f) && d1[f].deps.has(k) && admits(
                    a1[f],
                    k,
                    d1[f].deps.lookup(k).unwrap().path@,
                ) && imported_form(d1[f].deps.lookup(k).unwrap(), a1[f], r1.lookup(k).unwrap());
            if fetched_key(old_log, f) {
                lemma_fetched_key_grows(old_log, l0, f);
            }
            assert(declares_admitted(d1, a1, f, k));
        }
    }
    assert forall|k: Seq<char>, g: Seq<char>, p: int|
        #![trigger declares_admitted(d1, a1, g, k), m2[p]]
        0 <= p < m2.len() && declares_admitted(d1, a1, g, k) && !fetched_key(old_log, g) && fetched_key(l1.take(m2[p]), g)
            && !claimed_before(items, k, p) implies r1.has(k) && explained_within(
        k,
        r1.lookup(k).unwrap(),
        d1,
        a1,
        old_log,
        l1.take(m2[p]),
    ) by {
        if p < marks.len() {
            assert(m2[p] == marks[p]);
            assert(marks[p] <= marks[marks.len() - 1]);
            assert(l1.take(marks[p]) =~= l0.take(marks[p]));
            lemma_fetched_in_prefix(l0, marks[p], g);
            assert(d0.contains_key(g));
            assert(declares_admitted(d0, a0, g, k));
            assert(marks[p] == marks[p]);
            assert(r0.has(k));
            lemma_within_grow(k, r0.lookup(k).unwrap(), d0, a0, d1, a1, old_log, l0.take(marks[p]), l1.take(m2[p]));
        } else {
            assert(m2[p] == l1.len());
            assert(l1.take(m2[p]) =~= l1);
            if fetched_key(l0, g) {
                assert(marks.len() > 0);
                let q = marks.len() - 1;
                assert(l0.take(marks[q]) =~= l0);
                assert(d0.contains_key(g));
                assert(declares_admitted(d0, a0, g, k));
                assert(marks[q] == marks[q]);
                assert(!claimed_before(items, k, q)) by {
                    if claimed_before(items, k, q) {
                        let j = choose|j: int| 0 <= j < q && (#[trigger] items[j]).0@ == k;
                        assert(claimed_before(items, k, p));
                    }
                }
                assert(r0.has(k));
                lemma_within_grow(k, r0.lookup(k).unwrap(), d0, a0, d1, a1, old_log, l0, l1);
            } else {
                assert(r1.has(k));
                assert(claimed_before(items, k, c) || explained_within(k, r1.lookup(k).unwrap(), d1, a1, old_log, l1));
            }
        }
    }
    assert forall|j: int|
        0 <= j < c && !met_by(d1, a1, old_log, l1.take(m2[j]), (#[trigger] items[j]).0@) implies r1.has(items[j].0@)
        && resolved_from(items[j].1, r1.lookup(items[j].0@).unwrap()) by {
        assert(m2[j] == marks[j]);
        assert(marks[j] <= marks[marks.len() - 1]);
        assert(l1.take(marks[j]) =~= l0.take(marks[j]));
        if met_by(d0, a0, old_log, l0.take(marks[j]), items[j].0@) {
            let g = choose|g: Seq<char>|
                #[trigger] declares_admitted(d0, a0, g, items[j].0@) && !fetched_key(old_log, g) && fetched_key(
                    l0.take(marks[j]),
                    g,
                );
            assert(declares_admitted(d1, a1, g, items[j].0@));
        }
    }
    assert forall|p: int, q: int| 0 <= p <= q < m2.len() implies #[trigger] m2[p] <= #[trigger] m2[q] by {
        if q < marks.len() {
            assert(marks[p] <= marks[q]);
        } else if p < marks.len() {
            assert(marks[p] <= marks[marks.len() - 1]);
        }
    }
}

/// A direct dependency claiming its name keeps the walk order.
proof fn lemma_walk_claim(
    r0: NameMap<ResolvedDep>,
    r1: NameMap<ResolvedDep>,
    items: Seq<(String, UnresolvedDep)>,
    i: int,
    d: Map<Seq<char>, UnresolvedManifest>,
    a: Map<Seq<char>, Admission>,
    old_log: Seq<FetchRecord>,
    now: Seq<FetchRecord>,
    marks: Seq<int>,
)
    requires
        walk_order(r0, items, d, a, old_log, now, marks),
        entries_so_far(r0, items, d, a, old_log, now, i),
        direct_kept(r0, items, d, a, old_log, now, marks, i),
        marks_ok(marks, old_log, now),
        marks.len() == i + 1,
        0 <= i < items.len(),
        forall|j1: int, j2: int| 0 <= j1 < items.len() && 0 <= j2 < items.len() && j1 != j2 ==> (#[trigger] items[j1]).0@ != (#[trigger] items[j2]).0@,
        r0.has(items[i].0@) ==> r1 == r0,
        !r0.has(items[i].0@) ==> r1.has(items[i].0@) && resolved_from(items[i].1, r1.lookup(items[i].0@).unwrap()),
        forall|k: Seq<char>| k != items[i].0@ ==> #[trigger] r1.lookup(k) == r0.lookup(k),
        forall|k: Seq<char>| k != items[i].0@ ==> #[trigger] r1.has(k) == r0.has(k),
    ensures
        walk_order(r1, items, d, a, old_log, now, marks),
        entries_so_far(r1, items, d, a, old_log, now, i + 1),
        direct_kept(r1, items, d, a, old_log, now, marks, i + 1),
{
    let name = items[i].0@;
    assert(now.take(marks[i]) =~= now);
    assert forall|k: Seq<char>| #[trigger] r1.has(k) implies claimed_before(items, k, i + 1) || explained_within(
        k,
        r1.lookup(k).unwrap(),
        d,
        a,
        old_log,
        now,
    ) by {
        if k == name {
            assert(claimed_before(items, k, i + 1));
        } else {
            assert(r0.has(k));
            if claimed_before(items, k, i) {
                let j = choose|j: int| 0 <= j < i && (#[trigger] items[j]).0@ == k;
                assert(claimed_before(items, k, i + 1));
            }
        }
    }
    assert forall|k: Seq<char>, g: Seq<char>, p: int|
        #![trigger declares_admitted(d, a, g, k), marks[p]]
        0 <= p < marks.len() && declares_admitted(d, a, g, k) && !fetched_key(old_log, g) && fetched_key(now.take(marks[p]), g)
            && !claimed_before(items, k, p) implies r1.has(k) && explained_within(
        k,
        r1.lookup(k).unwrap(),
        d,
        a,
        old_log,
        now.take(marks[p]),
    ) by {
        assert(r0.has(k));
        if k == name {
            assert(r1 == r0);
        }
    }
    assert forall|j: int|
        0 <= j < i + 1 && !met_by(d, a, old_log, now.take(marks[j]), (#[trigger] items[j]).0@) implies r1.has(items[j].0@)
        && resolved_from(items[j].1, r1.lookup(items[j].0@).unwrap()) by {
        if j < i {
            assert(items[j].0@ != name);
        } else if r0.has(name) {
            if !claimed_before(items, name, i) {
                let f = choose|f: Seq<char>|
                    #[trigger] declares_admitted(d, a, f, name) && !fetched_key(old_log, f) && fetched_key(now, f)
                        && imported_form(d[f].deps.lookup(name).unwrap(), a[f], r0.lookup(name).unwrap());
                assert(met_by(d, a, old_log, now.take(marks[j]), name));
            } else {
                let j2 = choose|j2: int| 0 <= j2 < i && (#[trigger] items[j2]).0@ == name;
                assert(items[j2].0@ != items[i].0@);
            }
        }
    }
}

proof fn lemma_files_between_from(import: ImportSpec, url: Seq<char>, rev: Seq<char>, log: Seq<FetchRecord>, from: int)
    requires
        files_fetched_from(import, url, rev, log, from),
    ensures
        files_between(import, url, rev, log, from, log.len() as int),
{
    assert forall|k: Seq<char>| #[trigger] import_reads_key(import, url, rev, k) implies exists|i: int|
        from <= i < log.len() && i < log.len() && record_key(#[trigger] log[i]) == k by {
        let i = choose|i: int| from <= i < log.len() && record_key(#[trigger] log[i]) == k;
    }
}

proof fn lemma_files_between_grow(
    import: ImportSpec,
    url: Seq<char>,
    rev: Seq<char>,
    n1: Seq<FetchRecord>,
    n2: Seq<FetchRecord>,
    a: int,
    b: int,
)
    requires
        files_between(import, url, rev, n1, a, b),
        progressed(n1, n2),
        0 <= a,
    ensures
        files_between(import, url, rev, n2, a, b),
{
    assert forall|k: Seq<char>| #[trigger] import_reads_key(import, url, rev, k) implies exists|i: int|
        a <= i < b && i < n2.len() && record_key(#[trigger] n2[i]) == k by {
        let i = choose|i: int| a <= i < b && i < n1.len() && record_key(#[trigger] n1[i]) == k;
        assert(n2[i] == n1[i]);
    }
}

proof fn lemma_keeps_entries_trans(a: NameMap<ResolvedDep>, b: NameMap<ResolvedDep>, c: NameMap<ResolvedDep>)
    requires
        keeps_entries(a, b),
        keeps_entries(b, c),
    ensures
        keeps_entries(a, c),
{
}

/// A cycle error names a key that was fetched before, or is what the fetcher
/// itself answered for some fetch.
pub open spec fn cycle_traced<T>(
    r: Result<T, ResolveError>,
    log: Seq<FetchRecord>,
    replies: Map<Seq<char>, Result<String, ResolveError>>,
) -> bool {
    r matches Err(ResolveError::CycleDetected(k)) ==> fetched_key(log, k@) || exists|f: Seq<char>|
        #[trigger] replies.contains_key(f) && replies[f] == Err::<String, ResolveError>(ResolveError::CycleDetected(k))
}

/// Whether `r` is what lowering the decoder's answer `d` for `path` fetched
/// from `url` at `rev` gives: a decoding failure becomes a `ParseError`
/// naming the file and carrying the decoder's reason; a decoded manifest is
/// lowered, and a lowering fault becomes a `West` error.
pub open spec fn lowered_reply(
    d: Result<West, String>,
    url: Seq<char>,
    rev: Seq<char>,
    path: Seq<char>,
    r: Result<UnresolvedManifest, ResolveError>,
) -> bool {
    match d {
        Err(reason) => r matches Err(ResolveError::ParseError { url: u, rev: v, path: p, reason: why }) && u@ == url
            && v@ == rev && p@ == path && why == reason,
        Ok(w) => match lower_upto(w.manifest, w.manifest.projects@.len()) {
            Ok(idx) => r matches Ok(um) && {
                &&& um.self_url is None
                &&& um.self_revision is None
                &&& lowered_import(w.manifest.manifest_self.import, um.self_import)
                &&& deps_lowered(w.manifest, idx, um.deps)
            },
            Err(f) => r matches Err(ResolveError::West(e)) && e@ == f,
        },
    }
}

/// Lowers what the decoder answered for `path` fetched from `url` at `rev`
/// into an unresolved manifest (see `lowered_reply`).
pub fn lower_reply(decoded: Result<West, String>, url: &str, rev: &str, path: &str) -> (r: Result<UnresolvedManifest, ResolveError>)
    ensures
        lowered_reply(decoded, url@, rev@, path@, r),
        r matches Ok(sub) ==> lowered_west(sub),
{
    let west = match decoded {
        Ok(w) => w,
        Err(reason) => {
            return Err(ResolveError::ParseError { url: owned(url), rev: owned(rev), path: owned(path), reason });
        },
    };
    match west.into_unresolved(None, None) {
        Ok(sub) => {
            proof {
                let m = west.manifest;
                assert(lower_upto(m, m.projects@.len()) is Ok);
            }
            Ok(sub)
        },
        Err(e) => Err(ResolveError::West(e)),
    }
}

/// Resolves imports of west manifests into a flat dependency set, first
/// seen wins. Fetches are keyed by `url@rev:path`; fetching the same key
/// twice is reported as a cycle.
pub struct Resolver<F: ManifestFetcher, D: ManifestDecoder> {
    fetcher: F,
    decoder: D,
    /// The keys of the fetches made so far.
    seen: Vec<String>,
    /// The fetches made so far, in order.
    fetched: Ghost<Seq<FetchRecord>>,
    /// The manifests decoded so far, by the key of the fetch that read them.
    decoded: Ghost<Map<Seq<char>, UnresolvedManifest>>,
    /// How the import that read each decoded manifest admits its
    /// dependencies, by fetch key.
    admitted: Ghost<Map<Seq<char>, Admission>>,
    /// The entries that the last successful `resolve` held once its self
    /// import was merged, before any direct dependency.
    after_self: Ghost<NameMap<ResolvedDep>>,
    /// Where the steps of the last successful `resolve` ended in the fetch
    /// log: the self import, then each direct dependency's import.
    walk_marks: Ghost<Seq<int>>,
    /// What the fetcher answered, by the key of each fetch it was asked for.
    fetcher_said: Ghost<Map<Seq<char>, Result<String, ResolveError>>>,
    /// What the decoder answered for each fetched file it was given, by key.
    decoder_said: Ghost<Map<Seq<char>, Result<West, String>>>,
}

impl<F: ManifestFetcher, D: ManifestDecoder> Resolver<F, D> {
    /// The fetches this resolver has made, in order: (url, revision, path).
    pub closed spec fn fetches(&self) -> Seq<FetchRecord> {
        self.fetched@
    }

    /// The manifests this resolver has decoded and lowered, by the key of
    /// the fetch (`url@rev:path`) that read them.
    pub closed spec fn decoded(&self) -> Map<Seq<char>, UnresolvedManifest> {
        self.decoded@
    }

    /// How the import that read each decoded manifest admits its
    /// dependencies, by the key of the fetch that read it.
    pub closed spec fn admitted(&self) -> Map<Seq<char>, Admission> {
        self.admitted@
    }

    /// The entries that the last successful `resolve` held once its self
    /// import was merged, before any direct dependency.
    pub closed spec fn self_imported(&self) -> NameMap<ResolvedDep> {
        self.after_self@
    }

    /// The positions of the fetch log at which the steps of the last
    /// successful `resolve` ended: the self import, then each direct
    /// dependency's import, in name order.
    pub closed spec fn step_marks(&self) -> Seq<int> {
        self.walk_marks@
    }

    /// How many more fetches this resolver can remember: a measure that
    /// every fetch lowers.
    pub closed spec fn fetch_room(&self) -> int {
        usize::MAX - self.seen.len()
    }

    /// What the fetcher answered, by the key (`url@rev:path`) of each fetch.
    pub closed spec fn fetcher_replies(&self) -> Map<Seq<char>, Result<String, ResolveError>> {
        self.fetcher_said@
    }

    /// What the decoder answered for each fetched file, by its key.
    pub closed spec fn decoder_replies(&self) -> Map<Seq<char>, Result<West, String>> {
        self.decoder_said@
    }

    /// The remembered keys are those of the fetches made, and no two agree.
    pub closed spec fn wf(&self) -> bool {
        &&& forall|k: Seq<char>| #[trigger] self.decoded@.contains_key(k) ==> fetched_key(self.fetched@, k)
        &&& forall|k: Seq<char>| #[trigger] self.admitted@.contains_key(k) ==> fetched_key(self.fetched@, k)
        &&& self.admitted@.dom() == self.decoded@.dom()
        &&& forall|k: Seq<char>| #[trigger] self.fetcher_said@.contains_key(k) ==> fetched_key(self.fetched@, k)
        &&& forall|k: Seq<char>| #[trigger] self.decoder_said@.contains_key(k) ==> fetched_key(self.fetched@, k)
        &&& self.seen@.len() == self.fetched@.len()
        &&& forall|i: int| 0 <= i < self.seen@.len() ==> (#[trigger] self.seen@[i])@ == record_key(self.fetched@[i])
        &&& no_repeated_fetch(self.fetched@)
    }

    pub fn new(fetcher: F, decoder: D) -> (r: Self)
        ensures
            r.wf(),
            r.fetches() == Seq::<FetchRecord>::empty(),
            r.decoded() == Map::<Seq<char>, UnresolvedManifest>::empty(),
            r.admitted() == Map::<Seq<char>, Admission>::empty(),
    {
        let none: NameMap<ResolvedDep> = NameMap::new();
        Resolver {
            fetcher,
            decoder,
            seen: Vec::new(),
            fetched: Ghost(Seq::empty()),
            decoded: Ghost(Map::empty()),
            admitted: Ghost(Map::empty()),
            after_self: Ghost(none),
            walk_marks: Ghost(Seq::empty()),
            fetcher_said: Ghost(Map::empty()),
            decoder_said: Ghost(Map::empty()),
        }
    }

    fn seen_contains(&self, key: &String) -> (b: bool)
        requires
            self.wf(),
        ensures
            b == fetched_key(self.fetches(), key@),
    {
        let n = self.seen.len();
        for i in 0..n
            invariant
                n == self.seen@.len(),
                self.wf(),
                forall|j: int| 0 <= j < i ==> record_key(#[trigger] self.fetched@[j]) != key@,
        {
            if str_eq(self.seen[i].as_str(), key.as_str()) {
                assert(record_key(self.fetched@[i as int]) == key@);
                return true;
            }
            assert(self.seen@[i as int]@ == record_key(self.fetched@[i as int]));
        }
        false
    }

    /// Fetches `path` of `url` at `rev`, unless that key was fetched before,
    /// which is a cycle.
    fn fetch_file(&mut self, url: &str, rev: &str, path: &str) -> (r: Result<String, ResolveError>)
        requires
            old(self).wf(),
        ensures
            final(self).wf(),
            fetched_key(old(self).fetches(), fetch_key(url@, rev@, path@)) ==> {
                &&& final(self).fetches() == old(self).fetches()
                &&& r matches Err(ResolveError::CycleDetected(k)) && k@ == fetch_key(url@, rev@, path@)
            },
            !fetched_key(old(self).fetches(), fetch_key(url@, rev@, path@)) ==> final(self).fetches()
                == old(self).fetches().push((url@, rev@, path@)) && final(self).seen@.len() == old(
                self,
            ).seen@.len() + 1,
            fetched_key(final(self).fetches(), fetch_key(url@, rev@, path@)),
            final(self).decoded() == old(self).decoded(),
            final(self).admitted() == old(self).admitted(),
            final(self).decoder_replies() == old(self).decoder_replies(),
            fetched_key(old(self).fetches(), fetch_key(url@, rev@, path@)) ==> final(self).fetcher_replies() == old(
                self,
            ).fetcher_replies(),
            !fetched_key(old(self).fetches(), fetch_key(url@, rev@, path@)) ==> final(self).fetcher_replies() == old(
                self,
            ).fetcher_replies().insert(fetch_key(url@, rev@, path@), r),
            cycle_traced(r, final(self).fetches(), final(self).fetcher_replies()),
    {
        let mut key = owned(url);
        push_str(&mut key, "@");
        push_str(&mut key, rev);
        push_str(&mut key, ":");
        push_str(&mut key, path);
        if self.seen_contains(&key) {
            return Err(ResolveError::CycleDetected(key));
        }
        let ghost before = self.fetched@;
        self.seen.push(key);
        self.fetched = Ghost(self.fetched@.push((url@, rev@, path@)));
        proof {
            assert(record_key(self.fetched@[before.len() as int]) == fetch_key(url@, rev@, path@));
            assert forall|k2: Seq<char>| #[trigger] self.decoded@.contains_key(k2) implies fetched_key(self.fetched@, k2) by {
                let i = choose|i: int| 0 <= i < before.len() && record_key(#[trigger] before[i]) == k2;
                assert(self.fetched@[i] == before[i]);
            }
            assert forall|k2: Seq<char>| #[trigger] self.admitted@.contains_key(k2) implies fetched_key(self.fetched@, k2) by {
                let i = choose|i: int| 0 <= i < before.len() && record_key(#[trigger] before[i]) == k2;
                assert(self.fetched@[i] == before[i]);
            }
            assert forall|k2: Seq<char>| #[trigger] self.decoder_said@.contains_key(k2) implies fetched_key(self.fetched@, k2) by {
                let i = choose|i: int| 0 <= i < before.len() && record_key(#[trigger] before[i]) == k2;
                assert(self.fetched@[i] == before[i]);
            }
            assert forall|i: int, j: int| 0 <= i < j < self.fetched@.len() implies record_key(
                #[trigger] self.fetched@[i],
            ) != record_key(#[trigger] self.fetched@[j]) by {
                if j == self.fetched@.len() - 1 {
                    assert(self.fetched@[i] == before[i]);
                }
            }
            assert forall|i: int| 0 <= i < self.seen@.len() implies (#[trigger] self.seen@[i])@
                == record_key(self.fetched@[i]) by {
                if i < before.len() {
                    assert(self.seen@[i] == old(self).seen@[i]);
                }
            }
        }
        let request = FetchRequest { url: owned(url), revision: owned(rev), path: owned(path) };
        let reply = self.fetcher.fetch(&request);
        let ghost fk = fetch_key(url@, rev@, path@);
        let ghost said0 = self.fetcher_said@;
        self.fetcher_said = Ghost(self.fetcher_said@.insert(fk, reply));
        proof {
            assert forall|k2: Seq<char>| #[trigger] self.fetcher_said@.contains_key(k2) implies fetched_key(self.fetched@, k2) by {
                if k2 != fk {
                    assert(said0.contains_key(k2));
                    let i = choose|i: int| 0 <= i < before.len() && record_key(#[trigger] before[i]) == k2;
                    assert(self.fetched@[i] == before[i]);
                }
            }
            assert(self.fetcher_said@.contains_key(fk) && self.fetcher_said@[fk] == reply);
        }
        reply
    }

    /// Fetches `path` of `url` at `rev` (unless that key was fetched before,
    /// which is a cycle), decodes it and lowers it.
    fn fetch_sub(&mut self, url: &str, rev: &str, path: &str, Ghost(adm): Ghost<Admission>) -> (r: Result<
        UnresolvedManifest,
        ResolveError,
    >)
        requires
            old(self).wf(),
        ensures
            final(self).wf(),
            fetched_key(final(self).fetches(), fetch_key(url@, rev@, path@)),
            fetched_key(old(self).fetches(), fetch_key(url@, rev@, path@)) ==> {
                &&& final(self).fetches() == old(self).fetches()
                &&& final(self).decoded() == old(self).decoded()
                &&& r matches Err(ResolveError::CycleDetected(k)) && k@ == fetch_key(url@, rev@, path@)
            },
            !fetched_key(old(self).fetches(), fetch_key(url@, rev@, path@)) ==> final(self).fetches()
                == old(self).fetches().push((url@, rev@, path@)) && final(self).seen@.len() == old(
                self,
            ).seen@.len() + 1,
            grows(old(self).decoded(), final(self).decoded()),
            grows(old(self).admitted(), final(self).admitted()),
            r is Err ==> final(self).decoded() == old(self).decoded() && final(self).admitted() == old(
                self,
            ).admitted(),
            r matches Ok(sub) ==> lowered_west(sub) && final(self).decoded() == old(self).decoded().insert(
                fetch_key(url@, rev@, path@),
                sub,
            ) && final(self).admitted() == old(self).admitted().insert(fetch_key(url@, rev@, path@), adm)
                && !fetched_key(old(self).fetches(), fetch_key(url@, rev@, path@)),
            grows(old(self).fetcher_replies(), final(self).fetcher_replies()),
            grows(old(self).decoder_replies(), final(self).decoder_replies()),
            !fetched_key(old(self).fetches(), fetch_key(url@, rev@, path@)) ==> {
                let k = fetch_key(url@, rev@, path@);
                &&& final(self).fetcher_replies().contains_key(k)
                &&& final(self).fetcher_replies()[k] matches Err(e) ==> r == Err::<UnresolvedManifest, ResolveError>(e)
                &&& final(self).fetcher_replies()[k] is Ok ==> final(self).decoder_replies().contains_key(k)
                    && lowered_reply(final(self).decoder_replies()[k], url@, rev@, path@, r)
            },
            cycle_traced(r, final(self).fetches(), final(self).fetcher_replies()),
    {
        let content = self.fetch_file(url, rev, path)?;
        let reply = self.decoder.decode(content.as_str());
        let ghost dk = fetch_key(url@, rev@, path@);
        proof {
            assert(!self.decoder_said@.contains_key(dk)) by {
                if self.decoder_said@.contains_key(dk) {
                    assert(fetched_key(old(self).fetches(), dk));
                }
            }
        }
        self.decoder_said = Ghost(self.decoder_said@.insert(dk, reply));
        let sub = lower_reply(reply, url, rev, path)?;
        proof {
            assert(!old(self).decoded@.contains_key(fetch_key(url@, rev@, path@)));
            assert(!old(self).admitted@.contains_key(fetch_key(url@, rev@, path@)));
        }
        self.decoded = Ghost(self.decoded@.insert(fetch_key(url@, rev@, path@), sub));
        self.admitted = Ghost(self.admitted@.insert(fetch_key(url@, rev@, path@), adm));
        assert(self.admitted@.dom() =~= self.decoded@.dom());
        Ok(sub)
    }

    /// Inserts the resolved form of `dep` under `name` unless the name is
    /// taken, then follows `dep`'s import.
    fn merge_dep(
        &mut self,
        name: &String,
        dep: &UnresolvedDep,
        path: String,
        resolved: &mut NameMap<ResolvedDep>,
    ) -> (r: Result<(), ResolveError>)
        requires
            old(self).wf(),
        ensures
            final(self).wf(),
            progressed(old(self).fetches(), final(self).fetches()),
            keeps_entries(*old(resolved), *final(resolved)),
            final(resolved).has(name@),
            grows(old(self).decoded(), final(self).decoded()),
            grows(old(self).admitted(), final(self).admitted()),
            !old(resolved).has(name@) ==> final(resolved).lookup(name@) == Some(
                ResolvedDep { name: dep.name, url: dep.url, revision: dep.revision, path },
            ),
            r is Ok ==> new_explained_but(
                *old(resolved),
                *final(resolved),
                Some(name@),
                final(self).decoded(),
                final(self).admitted(),
                old(self).fetches(),
            ),
            decoded_fresh(old(self).decoded(), final(self).decoded(), old(self).fetches()),
            r is Ok ==> covers_admitted(*final(resolved), final(self).decoded(), final(self).admitted(), old(self).fetches(), None),
            r is Ok ==> walked_but(
                final(self).decoded(),
                final(self).admitted(),
                old(self).fetches(),
                final(self).fetches(),
                None,
            ),
            r is Ok ==> files_fetched_from(
                dep.import,
                dep.url@,
                dep.revision@,
                final(self).fetches(),
                old(self).fetches().len() as int,
            ),
            cycle_traced(r, final(self).fetches(), final(self).fetcher_replies()),
        decreases old(self).fetch_room(), 3int,
    {
        let ghost r0 = *resolved;
        let entry = ResolvedDep {
            name: dep.name.clone(),
            url: dep.url.clone(),
            revision: dep.revision.clone(),
            path,
        };
        if claim(resolved, name, entry) {
            proof {
                assert forall|k: Seq<char>| #[trigger] r0.has(k) implies resolved.has(k) && resolved.lookup(k)
                    == r0.lookup(k) by {
                    assert(k != name@);
                    assert(resolved.lookup(k) == r0.lookup(k));
                }
            }
        }
        let ghost r1 = *resolved;
        let res = self.resolve_import(&dep.import, dep.url.as_str(), dep.revision.as_str(), resolved);
        proof {
            lemma_keeps_entries_trans(*old(resolved), r1, *resolved);
            assert(r1.has(name@));
            if res is Ok {
                assert forall|k: Seq<char>| #[trigger] resolved.has(k) implies old(resolved).has(k) || Some(
                    name@,
                ) == Some(k) || explained_by(
                    k,
                    resolved.lookup(k).unwrap(),
                    self.decoded(),
                    self.admitted(),
                    old(self).fetches(),
                ) by {
                    if !r1.has(k) {
                        assert(explained_by(k, resolved.lookup(k).unwrap(), self.decoded(), self.admitted(), old(self).fetches()));
                    } else if k != name@ {
                        assert(r1.lookup(k) == old(resolved).lookup(k));
                        if !old(resolved).has(k) {
                            assert(r1.lookup(k) is None);
                        }
                    }
                }
            }
        }
        res
    }

    /// Walks an `ImportSpec` of the repository at `url` and `rev`, fetching
    /// sub-manifests and merging their dependencies.
    pub fn resolve_import(
        &mut self,
        import: &ImportSpec,
        url: &str,
        rev: &str,
        resolved: &mut NameMap<ResolvedDep>,
    ) -> (r: Result<(), ResolveError>)
        requires
            old(self).wf(),
        ensures
            final(self).wf(),
            progressed(old(self).fetches(), final(self).fetches()),
            keeps_entries(*old(resolved), *final(resolved)),
            grows(old(self).decoded(), final(self).decoded()),
            grows(old(self).admitted(), final(self).admitted()),
            r is Ok ==> new_explained(
                *old(resolved),
                *final(resolved),
                final(self).decoded(),
                final(self).admitted(),
                old(self).fetches(),
            ),
            r is Ok ==> import_keys_decoded(*import, url@, rev@, final(self).decoded()),
            r is Ok ==> forall|k: Seq<char>|
                #[trigger] import_claims(*import, url@, rev@, final(self).decoded(), k) ==> final(resolved).has(k),
            *import == ImportSpec::NoImport ==> r is Ok && final(self).fetches() == old(self).fetches()
                && *final(resolved) == *old(resolved),
            match *import {
                ImportSpec::File(p) => {
                    let k = fetch_key(url@, rev@, p@);
                    &&& fetched_key(final(self).fetches(), k)
                    &&& r is Ok ==> final(self).decoded().contains_key(k) && merged_all(
                        final(self).decoded()[k],
                        *final(resolved),
                    )
                },
                ImportSpec::Files(ps) => r is Ok ==> {
                    &&& forall|i: int|
                        0 <= i < ps@.len() ==> {
                            let k = fetch_key(url@, rev@, (#[trigger] ps@[i])@);
                            &&& fetched_key(final(self).fetches(), k)
                            &&& final(self).decoded().contains_key(k)
                            &&& merged_all(final(self).decoded()[k], *final(resolved))
                        }
                    &&& forall|i: int, j: int|
                        0 <= i < j < ps@.len() ==> fetched_before(
                            final(self).fetches(),
                            fetch_key(url@, rev@, (#[trigger] ps@[i])@),
                            fetch_key(url@, rev@, (#[trigger] ps@[j])@),
                        )
                },
                ImportSpec::Filtered {
                    file,
                    name_allowlist,
                    name_blocklist,
                    path_allowlist,
                    path_blocklist,
                    path_prefix,
                } => {
                    let k = fetch_key(url@, rev@, file@);
                    &&& fetched_key(final(self).fetches(), k)
                    &&& r is Ok ==> final(self).decoded().contains_key(k) && final(self).admitted()[k]
                        == filter_admission(name_allowlist, name_blocklist, path_allowlist, path_blocklist, path_prefix)
                    &&& (r is Ok && none_admitted(
                        final(self).decoded()[k],
                        filter_admission(name_allowlist, name_blocklist, path_allowlist, path_blocklist, path_prefix),
                    )) ==> *final(resolved) == *old(resolved) && final(self).fetches() == old(self).fetches().push(
                        (url@, rev@, file@),
                    )
                    &&& r is Ok ==> final(self).decoded().contains_key(k) && merged_filtered(
                        final(self).decoded()[k],
                        list_views(name_allowlist),
                        list_views(name_blocklist),
                        list_views(path_allowlist),
                        list_views(path_blocklist),
                        *final(resolved),
                    )
                },
                ImportSpec::NoImport => true,
            },
            decoded_fresh(old(self).decoded(), final(self).decoded(), old(self).fetches()),
            r is Ok ==> covers_admitted(*final(resolved), final(self).decoded(), final(self).admitted(), old(self).fetches(), None),
            r is Ok ==> walked_but(
                final(self).decoded(),
                final(self).admitted(),
                old(self).fetches(),
                final(self).fetches(),
                None,
            ),
            r is Ok ==> files_fetched_from(*import, url@, rev@, final(self).fetches(), old(self).fetches().len() as int),
            cycle_traced(r, final(self).fetches(), final(self).fetcher_replies()),
        decreases old(self).fetch_room(), 2int,
    {
        match import {
            ImportSpec::NoImport => {
                proof {
                    assert forall|g: Seq<char>, k: Seq<char>|
                        #[trigger] declares_admitted(self.decoded(), self.admitted(), g, k) && !fetched_key(old(self).fetches(), g)
                            && None::<Seq<char>> != Some(g) implies resolved.has(k) by {
                        assert(old(self).decoded().contains_key(g));
                    }
                }
                Ok(())
            },
            ImportSpec::File(path) => {
                let res = self.fetch_and_merge(url, rev, path.as_str(), resolved);
                proof {
                    if res is Ok {
                        lemma_fresh_position(old(self).fetches(), self.fetches(), fetch_key(url@, rev@, path@));
                        let f = fetch_key(url@, rev@, path@);
                        assert forall|k: Seq<char>| #[trigger]
                            import_claims(*import, url@, rev@, self.decoded(), k) implies resolved.has(k) by {
                            assert(self.decoded()[f].deps.has(k));
                        }
                    }
                }
                res
            },
            ImportSpec::Files(paths) => {
                let n = paths.len();
                for i in 0..n
                    invariant
                        n == paths@.len(),
                        *import == ImportSpec::Files(*paths),
                        self.wf(),
                        progressed(old(self).fetches(), self.fetches()),
                        keeps_entries(*old(resolved), *resolved),
                        grows(old(self).decoded(), self.decoded()),
                        grows(old(self).admitted(), self.admitted()),
                        new_explained(*old(resolved), *resolved, self.decoded(), self.admitted(), old(self).fetches()),
                        self.seen@.len() >= old(self).seen@.len(),
                        self.fetches().len() >= old(self).fetches().len(),
                        forall|j: int|
                            0 <= j < i ==> {
                                let k = fetch_key(url@, rev@, (#[trigger] paths@[j])@);
                                &&& fetched_key(self.fetches(), k)
                                &&& self.decoded().contains_key(k)
                                &&& merged_all(self.decoded()[k], *resolved)
                                &&& !fetched_key(old(self).fetches(), k)
                            },
                        forall|j1: int, j2: int|
                            0 <= j1 < j2 < i ==> fetched_before(
                                self.fetches(),
                                fetch_key(url@, rev@, (#[trigger] paths@[j1])@),
                                fetch_key(url@, rev@, (#[trigger] paths@[j2])@),
                            ),
                        decoded_fresh(old(self).decoded(), self.decoded(), old(self).fetches()),
                        walked_but(self.decoded(), self.admitted(), old(self).fetches(), self.fetches(), None),
                        covers_admitted(*resolved, self.decoded(), self.admitted(), old(self).fetches(), None),
                {
                    let ghost r0 = *resolved;
                    let ghost f0 = self.fetches();
                    let ghost d0 = self.decoded();
                    let ghost a0 = self.admitted();
                    let res = self.fetch_and_merge(url, rev, paths[i].as_str(), resolved);
                    proof {
                        lemma_decoded_fresh_trans(old(self).decoded(), d0, self.decoded(), old(self).fetches(), f0);
                    }
                    if let Err(e) = res {
                        return Err(e);
                    }
                    proof {
                        lemma_walked_step(d0, a0, self.decoded(), self.admitted(), old(self).fetches(), f0, self.fetches(), None);
                        lemma_covers_step(r0, *resolved, d0, a0, self.decoded(), self.admitted(), old(self).fetches(), f0, None);
                        if fetched_key(old(self).fetches(), fetch_key(url@, rev@, paths@[i as int]@)) {
                            lemma_fetched_key_grows(old(self).fetches(), f0, fetch_key(url@, rev@, paths@[i as int]@));
                        }
                        lemma_keeps_entries_trans(*old(resolved), r0, *resolved);
                        lemma_explained_trans(*old(resolved), r0, *resolved, d0, a0, self.decoded(), self.admitted(), old(self).fetches(), f0);
                        assert forall|j1: int, j2: int|
                            0 <= j1 < j2 < i + 1 implies fetched_before(
                                self.fetches(),
                                fetch_key(url@, rev@, (#[trigger] paths@[j1])@),
                                fetch_key(url@, rev@, (#[trigger] paths@[j2])@),
                            ) by {
                            let a = fetch_key(url@, rev@, paths@[j1]@);
                            let b = fetch_key(url@, rev@, paths@[j2]@);
                            if j2 < i {
                                lemma_fetched_before_grow(f0, self.fetches(), a, b);
                            } else {
                                lemma_fetched_before_new(f0, self.fetches(), a, b);
                            }
                        }
                        assert forall|j: int| 0 <= j < i + 1 implies {
                            let k = fetch_key(url@, rev@, (#[trigger] paths@[j])@);
                            &&& fetched_key(self.fetches(), k)
                            &&& self.decoded().contains_key(k)
                            &&& merged_all(self.decoded()[k], *resolved)
                        } by {
                            if j < i {
                                let k = fetch_key(url@, rev@, paths@[j]@);
                                lemma_fetched_key_grows(f0, self.fetches(), k);
                                assert(d0.contains_key(k));
                                lemma_merged_all_kept(d0[k], r0, *resolved);
                            }
                        }
                    }
                }
                Ok(())
            },
            ImportSpec::Filtered {
                file,
                name_allowlist,
                name_blocklist,
                path_allowlist,
                path_blocklist,
                path_prefix,
            } => {
                let ghost key = fetch_key(url@, rev@, file@);
                let ghost na = list_views(*name_allowlist);
                let ghost nb = list_views(*name_blocklist);
                let ghost pa = list_views(*path_allowlist);
                let ghost pb = list_views(*path_blocklist);
                let ghost adm = filter_admission(
                    *name_allowlist,
                    *name_blocklist,
                    *path_allowlist,
                    *path_blocklist,
                    *path_prefix,
                );
                let sub = self.fetch_sub(url, rev, file.as_str(), Ghost(adm))?;
                let ghost d1 = self.decoded();
                let ghost a1 = self.admitted();
                let ghost f1 = self.fetches();
                proof {
                    assert forall|g: Seq<char>, k: Seq<char>|
                        #[trigger] declares_admitted(self.decoded(), self.admitted(), g, k) && !fetched_key(old(self).fetches(), g)
                            && Some(key) != Some(g) implies resolved.has(k) by {
                        assert(old(self).decoded().contains_key(g));
                    }
                }
                proof {
                    assert forall|f: Seq<char>, k: Seq<char>|
                        d1.contains_key(f) && a1.contains_key(f) && !fetched_key(old(self).fetches(), f) && Some(key)
                            != Some(f) && #[trigger] d1[f].deps.has(k) && admits(a1[f], k, d1[f].deps.lookup(k).unwrap().path@)
                        implies walked_after(d1[f].deps.lookup(k).unwrap(), f, self.fetches()) by {
                        assert(old(self).decoded().contains_key(f));
                    }
                    assert(new_explained(*old(resolved), *resolved, self.decoded(), self.admitted(), old(self).fetches()));
                }
                let n = sub.deps.len();
                let ghost items = sub.deps.items();
                for i in 0..n
                    invariant
                        n == sub.deps.items().len(),
                        items == sub.deps.items(),
                        sub.deps.wf(),
                        *import == (ImportSpec::Filtered {
                            file: *file,
                            name_allowlist: *name_allowlist,
                            name_blocklist: *name_blocklist,
                            path_allowlist: *path_allowlist,
                            path_blocklist: *path_blocklist,
                            path_prefix: *path_prefix,
                        }),
                        key == fetch_key(url@, rev@, file@),
                        na == list_views(*name_allowlist),
                        nb == list_views(*name_blocklist),
                        pa == list_views(*path_allowlist),
                        pb == list_views(*path_blocklist),
                        self.wf(),
                        progressed(old(self).fetches(), self.fetches()),
                        keeps_entries(*old(resolved), *resolved),
                        self.seen@.len() > old(self).seen@.len(),
                self.fetches().len() > old(self).fetches().len(),
                        self.fetches().len() > old(self).fetches().len(),
                        grows(old(self).decoded(), d1),
                        grows(d1, self.decoded()),
                        d1.contains_key(key),
                        d1[key] == sub,
                        fetched_key(self.fetches(), key),
                        adm == filter_admission(
                            *name_allowlist,
                            *name_blocklist,
                            *path_allowlist,
                            *path_blocklist,
                            *path_prefix,
                        ),
                        grows(old(self).admitted(), a1),
                        grows(a1, self.admitted()),
                        a1.contains_key(key),
                        a1[key] == adm,
                        !fetched_key(old(self).fetches(), key),
                        new_explained(*old(resolved), *resolved, self.decoded(), self.admitted(), old(self).fetches()),
                        f1 == old(self).fetches().push((url@, rev@, file@)),
                        (forall|j: int|
                            0 <= j < i ==> !passes_filter_spec(
                                (#[trigger] items[j]).0@,
                                items[j].1.path@,
                                na,
                                nb,
                                pa,
                                pb,
                            )) ==> *resolved == *old(resolved) && self.fetches() == f1,
                        forall|j: int|
                            0 <= j < i && passes_filter_spec(
                                (#[trigger] items[j]).0@,
                                items[j].1.path@,
                                na,
                                nb,
                                pa,
                                pb,
                            ) ==> resolved.has(items[j].0@),
                        decoded_fresh(old(self).decoded(), self.decoded(), old(self).fetches()),
                        walked_but(self.decoded(), self.admitted(), old(self).fetches(), self.fetches(), Some(key)),
                        covers_admitted(*resolved, self.decoded(), self.admitted(), old(self).fetches(), Some(key)),
                        forall|j: int|
                            0 <= j < i && passes_filter_spec(
                                (#[trigger] items[j]).0@,
                                items[j].1.path@,
                                na,
                                nb,
                                pa,
                                pb,
                            ) ==> walked_after(items[j].1, key, self.fetches()),
                {
                    let name = sub.deps.key_at(i);
                    let dep = sub.deps.value_at(i);
                    let pass = passes_filter(
                        name.as_str(),
                        dep.path.as_str(),
                        name_allowlist.as_ref(),
                        name_blocklist.as_ref(),
                        path_allowlist.as_ref(),
                        path_blocklist.as_ref(),
                    );
                    assert(pass == passes_filter_spec(name@, dep.path@, na, nb, pa, pb));
                    if pass {
                        let final_path = prefixed_path(path_prefix, dep.path.as_str());
                        let ghost r0 = *resolved;
                        let ghost f0 = self.fetches();
                        let ghost d0 = self.decoded();
                        let ghost a0 = self.admitted();
                        let ghost fp = final_path;
                        let res = self.merge_dep(name, dep, final_path, resolved);
                        proof {
                            lemma_keeps_entries_trans(*old(resolved), r0, *resolved);
                            lemma_fetched_key_grows(f0, self.fetches(), key);
                            lemma_decoded_fresh_trans(old(self).decoded(), d0, self.decoded(), old(self).fetches(), f0);
                            if res is Ok {
                                lemma_covers_step(
                                    r0,
                                    *resolved,
                                    d0,
                                    a0,
                                    self.decoded(),
                                    self.admitted(),
                                    old(self).fetches(),
                                    f0,
                                    Some(key),
                                );
                                lemma_walked_step(
                                    d0,
                                    a0,
                                    self.decoded(),
                                    self.admitted(),
                                    old(self).fetches(),
                                    f0,
                                    self.fetches(),
                                    Some(key),
                                );
                                lemma_walked_after_from(*dep, key, f0, self.fetches());
                                assert forall|j: int|
                                    0 <= j < i + 1 && passes_filter_spec(
                                        (#[trigger] items[j]).0@,
                                        items[j].1.path@,
                                        na,
                                        nb,
                                        pa,
                                        pb,
                                    ) implies walked_after(items[j].1, key, self.fetches()) by {
                                    if j < i {
                                        lemma_walked_after_grow(items[j].1, key, f0, self.fetches());
                                    }
                                }
                                if resolved.has(name@) && !r0.has(name@) {
                                    sub.deps.lemma_lookup_at(i as int);
                                    assert(self.decoded().contains_key(key));
                                    assert(self.decoded()[key] == sub);
                                    assert(self.admitted()[key] == adm);
                                    assert(fp@ == prefixed(adm.prefix, dep.path@));
                                    assert(explained_by(
                                        name@,
                                        resolved.lookup(name@).unwrap(),
                                        self.decoded(),
                                        self.admitted(),
                                        old(self).fetches(),
                                    ));
                                }
                                lemma_merge_step(
                                    *old(resolved),
                                    r0,
                                    *resolved,
                                    name@,
                                    d0,
                                    a0,
                                    self.decoded(),
                                    self.admitted(),
                                    old(self).fetches(),
                                    f0,
                                );
                            }
                        }
                        if let Err(e) = res {
                            return Err(e);
                        }
                        proof {
                            assert forall|j: int|
                                0 <= j < i + 1 && passes_filter_spec(
                                    (#[trigger] items[j]).0@,
                                    items[j].1.path@,
                                    na,
                                    nb,
                                    pa,
                                    pb,
                                ) implies resolved.has(items[j].0@) by {
                                if j < i {
                                    assert(r0.has(items[j].0@));
                                }
                            }
                        }
                    }
                }
                proof {
                    if none_admitted(sub, adm) {
                        assert forall|j: int| 0 <= j < n implies !passes_filter_spec(
                            (#[trigger] items[j]).0@,
                            items[j].1.path@,
                            na,
                            nb,
                            pa,
                            pb,
                        ) by {
                            sub.deps.lemma_lookup_at(j);
                            assert(sub.deps.has(items[j].0@));
                        }
                    }
                    assert forall|k: Seq<char>|
                        #[trigger] sub.deps.has(k) && passes_filter_spec(
                            k,
                            sub.deps.lookup(k).unwrap().path@,
                            na,
                            nb,
                            pa,
                            pb,
                        ) implies resolved.has(k) by {
                        let p = sub.deps.pos(k);
                        sub.deps.lemma_lookup_at(p);
                        assert(items[p].0@ == k);
                    }
                    assert forall|f: Seq<char>, k: Seq<char>|
                        self.decoded().contains_key(f) && self.admitted().contains_key(f) && !fetched_key(
                            old(self).fetches(),
                            f,
                        ) && None::<Seq<char>> != Some(f) && #[trigger] self.decoded()[f].deps.has(k) && admits(
                            self.admitted()[f],
                            k,
                            self.decoded()[f].deps.lookup(k).unwrap().path@,
                        ) implies walked_after(self.decoded()[f].deps.lookup(k).unwrap(), f, self.fetches()) by {
                        if f == key {
                            let p = sub.deps.pos(k);
                            sub.deps.lemma_lookup_at(p);
                        }
                    }
                    lemma_fresh_position(old(self).fetches(), self.fetches(), key);
                    assert forall|g: Seq<char>, k: Seq<char>|
                        #[trigger] declares_admitted(self.decoded(), self.admitted(), g, k) && !fetched_key(old(self).fetches(), g)
                            && None::<Seq<char>> != Some(g) implies resolved.has(k) by {
                        if g == key {
                            let j = sub.deps.pos(k);
                            sub.deps.lemma_lookup_at(j);
                            assert(items[j].0@ == k);
                        }
                    }
                }
                Ok(())
            },
        }
    }

    /// Fetches one sub-manifest, decodes it, and merges its dependencies.
    fn fetch_and_merge(
        &mut self,
        url: &str,
        rev: &str,
        path: &str,
        resolved: &mut NameMap<ResolvedDep>,
    ) -> (r: Result<(), ResolveError>)
        requires
            old(self).wf(),
        ensures
            final(self).wf(),
            progressed(old(self).fetches(), final(self).fetches()),
            keeps_entries(*old(resolved), *final(resolved)),
            grows(old(self).decoded(), final(self).decoded()),
            grows(old(self).admitted(), final(self).admitted()),
            r is Ok ==> new_explained(
                *old(resolved),
                *final(resolved),
                final(self).decoded(),
                final(self).admitted(),
                old(self).fetches(),
            ),
            r is Ok ==> final(self).admitted().contains_key(fetch_key(url@, rev@, path@))
                && final(self).admitted()[fetch_key(url@, rev@, path@)] == admit_all(),
            !final(self).decoded().contains_key(fetch_key(url@, rev@, path@)) ==> r is Err && *final(resolved)
                == *old(resolved),
            !final(self).decoded().contains_key(fetch_key(url@, rev@, path@)) && !fetched_key(
                old(self).fetches(),
                fetch_key(url@, rev@, path@),
            ) ==> (r matches Err(e) && {
                let k = fetch_key(url@, rev@, path@);
                &&& final(self).fetcher_replies().contains_key(k)
                &&& final(self).fetcher_replies()[k] matches Err(x) ==> e == x
                &&& final(self).fetcher_replies()[k] is Ok ==> final(self).decoder_replies().contains_key(k)
                    && lowered_reply(final(self).decoder_replies()[k], url@, rev@, path@, Err(e))
            }),
            fetched_key(final(self).fetches(), fetch_key(url@, rev@, path@)),
            fetched_key(old(self).fetches(), fetch_key(url@, rev@, path@)) ==> (r matches Err(
                ResolveError::CycleDetected(k),
            ) && k@ == fetch_key(url@, rev@, path@) && final(self).fetches() == old(self).fetches()
                && *final(resolved) == *old(resolved)),
            r is Ok ==> final(self).decoded().contains_key(fetch_key(url@, rev@, path@)) && merged_all(
                final(self).decoded()[fetch_key(url@, rev@, path@)],
                *final(resolved),
            ),
            decoded_fresh(old(self).decoded(), final(self).decoded(), old(self).fetches()),
            r is Ok ==> covers_admitted(*final(resolved), final(self).decoded(), final(self).admitted(), old(self).fetches(), None),
            r is Ok ==> walked_but(
                final(self).decoded(),
                final(self).admitted(),
                old(self).fetches(),
                final(self).fetches(),
                None,
            ),
            cycle_traced(r, final(self).fetches(), final(self).fetcher_replies()),
        decreases old(self).fetch_room(), 1int,
    {
        let ghost key = fetch_key(url@, rev@, path@);
        let sub = self.fetch_sub(url, rev, path, Ghost(admit_all()))?;
        let ghost d1 = self.decoded();
        let ghost a1 = self.admitted();
        proof {
            assert forall|g: Seq<char>, k: Seq<char>|
                #[trigger] declares_admitted(self.decoded(), self.admitted(), g, k) && !fetched_key(old(self).fetches(), g)
                    && Some(key) != Some(g) implies resolved.has(k) by {
                assert(old(self).decoded().contains_key(g));
            }
        }
        proof {
            assert forall|f: Seq<char>, k: Seq<char>|
                d1.contains_key(f) && a1.contains_key(f) && !fetched_key(old(self).fetches(), f) && Some(key) != Some(f)
                    && #[trigger] d1[f].deps.has(k) && admits(a1[f], k, d1[f].deps.lookup(k).unwrap().path@) implies walked_after(
                d1[f].deps.lookup(k).unwrap(),
                f,
                self.fetches(),
            ) by {
                assert(old(self).decoded().contains_key(f));
            }
        }
        let n = sub.deps.len();
        let ghost items = sub.deps.items();
        for i in 0..n
            invariant
                n == sub.deps.items().len(),
                items == sub.deps.items(),
                sub.deps.wf(),
                key == fetch_key(url@, rev@, path@),
                !fetched_key(old(self).fetches(), key),
                self.wf(),
                progressed(old(self).fetches(), self.fetches()),
                keeps_entries(*old(resolved), *resolved),
                self.seen@.len() > old(self).seen@.len(),
                self.fetches().len() > old(self).fetches().len(),
                grows(old(self).decoded(), d1),
                grows(d1, self.decoded()),
                d1.contains_key(key),
                d1[key] == sub,
                fetched_key(self.fetches(), key),
                grows(old(self).admitted(), a1),
                grows(a1, self.admitted()),
                a1.contains_key(key),
                a1[key] == admit_all(),
                new_explained(*old(resolved), *resolved, self.decoded(), self.admitted(), old(self).fetches()),
                forall|j: int| 0 <= j < i ==> resolved.has((#[trigger] items[j]).0@),
                decoded_fresh(old(self).decoded(), self.decoded(), old(self).fetches()),
                walked_but(self.decoded(), self.admitted(), old(self).fetches(), self.fetches(), Some(key)),
                covers_admitted(*resolved, self.decoded(), self.admitted(), old(self).fetches(), Some(key)),
                forall|j: int| 0 <= j < i ==> walked_after((#[trigger] items[j]).1, key, self.fetches()),
        {
            let name = sub.deps.key_at(i);
            let dep = sub.deps.value_at(i);
            let ghost r0 = *resolved;
            let ghost f0 = self.fetches();
            let ghost d0 = self.decoded();
            let ghost a0 = self.admitted();
            let res = self.merge_dep(name, dep, dep.path.clone(), resolved);
            proof {
                lemma_keeps_entries_trans(*old(resolved), r0, *resolved);
                lemma_fetched_key_grows(f0, self.fetches(), key);
                lemma_decoded_fresh_trans(old(self).decoded(), d0, self.decoded(), old(self).fetches(), f0);
                if res is Ok {
                    lemma_walked_step(d0, a0, self.decoded(), self.admitted(), old(self).fetches(), f0, self.fetches(), Some(key));
                    lemma_covers_step(r0, *resolved, d0, a0, self.decoded(), self.admitted(), old(self).fetches(), f0, Some(key));
                    lemma_walked_after_from(*dep, key, f0, self.fetches());
                    assert forall|j: int| 0 <= j < i + 1 implies walked_after((#[trigger] items[j]).1, key, self.fetches()) by {
                        if j < i {
                            lemma_walked_after_grow(items[j].1, key, f0, self.fetches());
                        }
                    }
                    if resolved.has(name@) && !r0.has(name@) {
                        sub.deps.lemma_lookup_at(i as int);
                        assert(self.decoded().contains_key(key));
                        assert(self.decoded()[key] == sub);
                        assert(self.admitted()[key] == admit_all());
                        assert(explained_by(
                            name@,
                            resolved.lookup(name@).unwrap(),
                            self.decoded(),
                            self.admitted(),
                            old(self).fetches(),
                        ));
                    }
                    lemma_merge_step(
                        *old(resolved),
                        r0,
                        *resolved,
                        name@,
                        d0,
                        a0,
                        self.decoded(),
                        self.admitted(),
                        old(self).fetches(),
                        f0,
                    );
                }
            }
            if let Err(e) = res {
                return Err(e);
            }
            proof {
                assert forall|j: int| 0 <= j < i + 1 implies resolved.has((#[trigger] items[j]).0@) by {
                    if j < i {
                        assert(r0.has(items[j].0@));
                    }
                }
            }
        }
        proof {
            assert forall|k: Seq<char>| #[trigger] sub.deps.has(k) implies resolved.has(k) by {
                let p = sub.deps.pos(k);
                sub.deps.lemma_lookup_at(p);
                assert(items[p].0@ == k);
            }
            assert forall|f: Seq<char>, k: Seq<char>|
                self.decoded().contains_key(f) && self.admitted().contains_key(f) && !fetched_key(old(self).fetches(), f)
                    && None::<Seq<char>> != Some(f) && #[trigger] self.decoded()[f].deps.has(k) && admits(
                    self.admitted()[f],
                    k,
                    self.decoded()[f].deps.lookup(k).unwrap().path@,
                ) implies walked_after(self.decoded()[f].deps.lookup(k).unwrap(), f, self.fetches()) by {
                if f == key {
                    let p = sub.deps.pos(k);
                    sub.deps.lemma_lookup_at(p);
                }
            }
            assert forall|g: Seq<char>, k: Seq<char>|
                #[trigger] declares_admitted(self.decoded(), self.admitted(), g, k) && !fetched_key(old(self).fetches(), g)
                    && None::<Seq<char>> != Some(g) implies resolved.has(k) by {
                if g == key {
                    let j = sub.deps.pos(k);
                    sub.deps.lemma_lookup_at(j);
                    assert(items[j].0@ == k);
                }
            }
        }
        Ok(())
    }

    /// Resolves an `UnresolvedManifest` into a flat `ResolvedManifest`: the
    /// self import first (when the manifest names its own repository), then
    /// each direct dependency in name order, each followed by its imports.
    /// A name keeps the first dependency seen under it.
    ///
    /// On success every entry is a direct dependency or comes from a
    /// sub-manifest fetched in this call, the entries held once the self
    /// import is merged (every name it claims among them) are kept as they
    /// are, over direct dependencies of the same name, and every import walked
    /// (the self import's, each direct dependency's, and each admitted
    /// dependency's) read its files in this call, after the sub-manifest
    /// that named it; no key is fetched twice. The steps of the walk (the
    /// self import, then each direct dependency claiming its name and
    /// walking its import, in name order) end at `step_marks()`, and the
    /// first step that meets a name decides its entry (`walk_order`,
    /// `direct_kept`).
    pub fn resolve(&mut self, manifest: &UnresolvedManifest) -> (r: Result<ResolvedManifest, ResolveError>)
        requires
            old(self).wf(),
        ensures
            final(self).wf(),
            progressed(old(self).fetches(), final(self).fetches()),
            no_repeated_fetch(final(self).fetches()),
            r matches Ok(rm) ==> forall|k: Seq<char>| #[trigger] manifest.deps.has(k) ==> rm.deps.has(k),
            r matches Ok(rm) ==> accounted(
                rm.deps,
                manifest.deps,
                final(self).decoded(),
                final(self).admitted(),
                old(self).fetches(),
            ),
            r matches Ok(rm) ==> (manifest.self_url is Some && manifest.self_revision is Some) ==> forall|
                k: Seq<char>,
            |
                #[trigger] import_claims(
                    manifest.self_import,
                    manifest.self_url->Some_0@,
                    manifest.self_revision->Some_0@,
                    final(self).decoded(),
                    k,
                ) ==> rm.deps.has(k) && explained_by(
                    k,
                    rm.deps.lookup(k).unwrap(),
                    final(self).decoded(),
                    final(self).admitted(),
                    old(self).fetches(),
                ),
            r matches Ok(rm) ==> walked_but(
                final(self).decoded(),
                final(self).admitted(),
                old(self).fetches(),
                final(self).fetches(),
                None,
            ),
            r matches Ok(rm) ==> forall|j: int|
                0 <= j < manifest.deps.items().len() ==> files_fetched_from(
                    (#[trigger] manifest.deps.items()[j]).1.import,
                    manifest.deps.items()[j].1.url@,
                    manifest.deps.items()[j].1.revision@,
                    final(self).fetches(),
                    old(self).fetches().len() as int,
                ),
            r matches Ok(rm) ==> (manifest.self_url is Some && manifest.self_revision is Some) ==> files_fetched_from(
                manifest.self_import,
                manifest.self_url->Some_0@,
                manifest.self_revision->Some_0@,
                final(self).fetches(),
                old(self).fetches().len() as int,
            ),
            r matches Ok(rm) ==> keeps_entries(final(self).self_imported(), rm.deps),
            r matches Ok(rm) ==> forall|k: Seq<char>| #[trigger] final(self).self_imported().has(k) ==> explained_by(
                k,
                final(self).self_imported().lookup(k).unwrap(),
                final(self).decoded(),
                final(self).admitted(),
                old(self).fetches(),
            ),
            r matches Ok(rm) ==> (manifest.self_url is Some && manifest.self_revision is Some) ==> forall|
                k: Seq<char>,
            |
                #[trigger] import_claims(
                    manifest.self_import,
                    manifest.self_url->Some_0@,
                    manifest.self_revision->Some_0@,
                    final(self).decoded(),
                    k,
                ) ==> final(self).self_imported().has(k),
            r matches Ok(rm) ==> (manifest.self_url is None || manifest.self_revision is None) ==> final(self).self_imported().items().len() == 0,
            r matches Ok(rm) ==> final(self).step_marks().len() == manifest.deps.items().len() + 1 && marks_ok(
                final(self).step_marks(),
                old(self).fetches(),
                final(self).fetches(),
            ),
            r matches Ok(rm) ==> walk_order(
                rm.deps,
                manifest.deps.items(),
                final(self).decoded(),
                final(self).admitted(),
                old(self).fetches(),
                final(self).fetches(),
                final(self).step_marks(),
            ),
            r matches Ok(rm) ==> direct_kept(
                rm.deps,
                manifest.deps.items(),
                final(self).decoded(),
                final(self).admitted(),
                old(self).fetches(),
                final(self).fetches(),
                final(self).step_marks(),
                manifest.deps.items().len() as int,
            ),
            r matches Ok(rm) ==> (manifest.self_url is Some && manifest.self_revision is Some) ==> files_between(
                manifest.self_import,
                manifest.self_url->Some_0@,
                manifest.self_revision->Some_0@,
                final(self).fetches(),
                old(self).fetches().len() as int,
                final(self).step_marks()[0],
            ),
            r matches Ok(rm) ==> forall|j: int|
                0 <= j < manifest.deps.items().len() ==> files_between(
                    (#[trigger] manifest.deps.items()[j]).1.import,
                    manifest.deps.items()[j].1.url@,
                    manifest.deps.items()[j].1.revision@,
                    final(self).fetches(),
                    final(self).step_marks()[j],
                    final(self).step_marks()[j + 1],
                ),
            is_flat(*manifest) ==> {
                &&& r matches Ok(rm)
                &&& final(self).fetches() == old(self).fetches()
                &&& forall|k: Seq<char>|
                    #![trigger rm.deps.has(k)]
                    #![trigger manifest.deps.has(k)]
                    rm.deps.has(k) == manifest.deps.has(k) && (rm.deps.has(k) ==> resolved_from(
                        manifest.deps.lookup(k).unwrap(),
                        rm.deps.lookup(k).unwrap(),
                    ))
            },
            cycle_traced(r, final(self).fetches(), final(self).fetcher_replies()),
    {
        let mut resolved: NameMap<ResolvedDep> = NameMap::new();
        let ghost empty = resolved;
        let ghost self_applies = manifest.self_url is Some && manifest.self_revision is Some;
        let ghost mut marks: Seq<int> = Seq::empty();
        let ghost d_start = self.decoded();
        let ghost a_start = self.admitted();
        let ghost items0 = manifest.deps.items();
        match (&manifest.self_url, &manifest.self_revision) {
            (Some(url), Some(rev)) => {
                self.resolve_import(&manifest.self_import, url.as_str(), rev.as_str(), &mut resolved)?;
                proof {
                    lemma_walk_phase(
                        empty,
                        resolved,
                        items0,
                        d_start,
                        a_start,
                        self.decoded(),
                        self.admitted(),
                        old(self).fetches(),
                        old(self).fetches(),
                        self.fetches(),
                        marks,
                        0,
                    );
                    marks = marks.push(self.fetches().len() as int);
                    lemma_files_between_from(manifest.self_import, url@, rev@, self.fetches(), old(self).fetches().len() as int);
                    assert forall|k: Seq<char>| #[trigger] resolved.has(k) implies explained_by(
                        k,
                        resolved.lookup(k).unwrap(),
                        self.decoded(),
                        self.admitted(),
                        old(self).fetches(),
                    ) by {
                        assert(!empty.has(k));
                    }
                }
            },
            _ => {
                proof {
                    assert forall|g: Seq<char>, k: Seq<char>|
                        #[trigger] declares_admitted(self.decoded(), self.admitted(), g, k) && !fetched_key(old(self).fetches(), g)
                            && None::<Seq<char>> != Some(g) implies resolved.has(k) by {
                        assert(old(self).decoded().contains_key(g));
                    }
                    lemma_walk_phase(
                        empty,
                        resolved,
                        items0,
                        d_start,
                        a_start,
                        self.decoded(),
                        self.admitted(),
                        old(self).fetches(),
                        old(self).fetches(),
                        self.fetches(),
                        marks,
                        0,
                    );
                    marks = marks.push(self.fetches().len() as int);
                }
            },
        }
        let ghost base = resolved;
        proof {
            assert(!self_applies ==> base.items().len() == 0);
            assert forall|k: Seq<char>| #[trigger] base.has(k) implies explained_by(
                k,
                base.lookup(k).unwrap(),
                self.decoded(),
                self.admitted(),
                old(self).fetches(),
            ) by {
                if !self_applies {
                    assert(base.items().len() == 0);
                }
            }
        }
        proof {
            if !self_applies {
                assert forall|f: Seq<char>, k: Seq<char>|
                    self.decoded().contains_key(f) && self.admitted().contains_key(f) && !fetched_key(old(self).fetches(), f)
                        && None::<Seq<char>> != Some(f) && #[trigger] self.decoded()[f].deps.has(k) && admits(
                        self.admitted()[f],
                        k,
                        self.decoded()[f].deps.lookup(k).unwrap().path@,
                    ) implies walked_after(self.decoded()[f].deps.lookup(k).unwrap(), f, self.fetches()) by {
                    assert(old(self).decoded().contains_key(f));
                }
            }
        }
        let ghost d_mid = self.decoded();
        let ghost a_mid = self.admitted();
        let ghost su = manifest.self_url->Some_0@;
        let ghost sr = manifest.self_revision->Some_0@;
        proof {
            assert(accounted(resolved, manifest.deps, self.decoded(), self.admitted(), old(self).fetches()));
        }
        let n = manifest.deps.len();
        let ghost items = manifest.deps.items();
        proof {
            assert forall|j1: int, j2: int|
                0 <= j1 < items.len() && 0 <= j2 < items.len() && j1 != j2 implies (#[trigger] items[j1]).0@
                != (#[trigger] items[j2]).0@ by {
                if items[j1].0@ == items[j2].0@ {
                    manifest.deps.lemma_unique(j1, j2);
                }
            }
        }
        for i in 0..n
            invariant
                forall|j1: int, j2: int|
                    0 <= j1 < items.len() && 0 <= j2 < items.len() && j1 != j2 ==> (#[trigger] items[j1]).0@
                        != (#[trigger] items[j2]).0@,
                marks.len() == i + 1,
                marks_ok(marks, old(self).fetches(), self.fetches()),
                walk_order(resolved, items, self.decoded(), self.admitted(), old(self).fetches(), self.fetches(), marks),
                entries_so_far(resolved, items, self.decoded(), self.admitted(), old(self).fetches(), self.fetches(), i as int),
                direct_kept(resolved, items, self.decoded(), self.admitted(), old(self).fetches(), self.fetches(), marks, i as int),
                self_applies ==> files_between(
                    manifest.self_import,
                    su,
                    sr,
                    self.fetches(),
                    old(self).fetches().len() as int,
                    marks[0],
                ),
                forall|j: int|
                    0 <= j < i ==> files_between(
                        (#[trigger] items[j]).1.import,
                        items[j].1.url@,
                        items[j].1.revision@,
                        self.fetches(),
                        marks[j],
                        marks[j + 1],
                    ),
                walked_but(self.decoded(), self.admitted(), old(self).fetches(), self.fetches(), None),
                forall|j: int|
                    0 <= j < i ==> files_fetched_from(
                        (#[trigger] items[j]).1.import,
                        items[j].1.url@,
                        items[j].1.revision@,
                        self.fetches(),
                        old(self).fetches().len() as int,
                    ),
                self_applies ==> files_fetched_from(
                    manifest.self_import,
                    su,
                    sr,
                    self.fetches(),
                    old(self).fetches().len() as int,
                ),
                n == manifest.deps.items().len(),
                items == manifest.deps.items(),
                manifest.deps.wf(),
                self.wf(),
                progressed(old(self).fetches(), self.fetches()),
                keeps_entries(base, resolved),
                forall|j: int| 0 <= j < i ==> #[trigger] resolved.has(items[j].0@),
                accounted(resolved, manifest.deps, self.decoded(), self.admitted(), old(self).fetches()),
                grows(d_mid, self.decoded()),
                grows(a_mid, self.admitted()),
                su == manifest.self_url->Some_0@,
                sr == manifest.self_revision->Some_0@,
                self_applies == (manifest.self_url is Some && manifest.self_revision is Some),
                self_applies ==> import_keys_decoded(manifest.self_import, su, sr, d_mid),
                self_applies ==> forall|k: Seq<char>|
                    #[trigger] import_claims(manifest.self_import, su, sr, d_mid, k) ==> base.has(k)
                        && explained_by(k, base.lookup(k).unwrap(), d_mid, a_mid, old(self).fetches()),
                is_flat(*manifest) ==> {
                    &&& self.fetches() == old(self).fetches()
                    &&& forall|k: Seq<char>|
                        #![trigger resolved.has(k)]
                        resolved.has(k) == (exists|j: int| 0 <= j < i && (#[trigger] items[j]).0@ == k)
                    &&& forall|j: int|
                        0 <= j < i ==> resolved_from(
                            (#[trigger] items[j]).1,
                            resolved.lookup(items[j].0@).unwrap(),
                        )
                },
                base.items().len() == 0 || !is_flat(*manifest),
        {
            let name = manifest.deps.key_at(i);
            let dep = manifest.deps.value_at(i);
            let ghost r0 = resolved;
            let ghost f0 = self.fetches();
            let entry = ResolvedDep {
                name: dep.name.clone(),
                url: dep.url.clone(),
                revision: dep.revision.clone(),
                path: dep.path.clone(),
            };
            let taken = !claim(&mut resolved, name, entry);
            let ghost r1 = resolved;
            let ghost d0 = self.decoded();
            let ghost a0 = self.admitted();
            proof {
                manifest.deps.lemma_lookup_at(i as int);
                assert forall|k: Seq<char>| k != items[i as int].0@ implies #[trigger] r1.has(k) == r0.has(k) by {
                    if !taken {
                        assert(r1.lookup(k) == r0.lookup(k));
                        if r1.has(k) != r0.has(k) {
                            if r1.has(k) {
                                assert(r1.lookup(k) is Some);
                            } else {
                                assert(r0.lookup(k) is Some);
                            }
                        }
                    }
                }
                lemma_walk_claim(r0, r1, items, i as int, d0, a0, old(self).fetches(), self.fetches(), marks);
                assert(accounted(r1, manifest.deps, d0, a0, old(self).fetches())) by {
                    assert forall|k: Seq<char>| #[trigger] r1.has(k) implies (manifest.deps.has(k) && resolved_from(
                        manifest.deps.lookup(k).unwrap(),
                        r1.lookup(k).unwrap(),
                    )) || explained_by(k, r1.lookup(k).unwrap(), d0, a0, old(self).fetches()) by {
                        if k == name@ && !taken {
                            manifest.deps.lemma_lookup_at(i as int);
                        } else {
                            assert(r0.has(k));
                            assert(r1.lookup(k) == r0.lookup(k));
                        }
                    }
                }
                assert(keeps_entries(r0, r1)) by {
                    assert forall|k: Seq<char>| #[trigger] r0.has(k) implies r1.has(k) && r1.lookup(k)
                        == r0.lookup(k) by {
                        if !taken {
                            assert(k != name@);
                        }
                    }
                }
                lemma_keeps_entries_trans(base, r0, r1);
                if is_flat(*manifest) {
                    assert(items[i as int].1.import == ImportSpec::NoImport);
                    assert(!taken) by {
                        if taken {
                            let j = choose|j: int| 0 <= j < i && (#[trigger] items[j]).0@ == name@;
                            manifest.deps.lemma_unique(j, i as int);
                        }
                    }
                    assert forall|k: Seq<char>| #![trigger r1.has(k)] r1.has(k) == (exists|j: int|
                        0 <= j < i + 1 && (#[trigger] items[j]).0@ == k) by {
                        if k != name@ {
                            assert(r1.lookup(k) == r0.lookup(k));
                            if r1.has(k) {
                                assert(r0.has(k));
                            } else {
                                assert(r1.lookup(k) is None);
                                if r0.has(k) {
                                    assert(r0.lookup(k) is Some);
                                }
                            }
                        } else {
                            assert(items[i as int].0@ == k);
                        }
                    }
                    assert forall|j: int| 0 <= j < i + 1 implies resolved_from(
                        (#[trigger] items[j]).1,
                        r1.lookup(items[j].0@).unwrap(),
                    ) by {
                        if j < i {
                            if items[j].0@ == name@ {
                                manifest.deps.lemma_unique(j, i as int);
                            }
                            assert(r1.lookup(items[j].0@) == r0.lookup(items[j].0@));
                        }
                    }
                }
            }
            let ghost f1 = self.fetches();
            let ghost d1 = self.decoded();
            let ghost a1 = self.admitted();
            self.resolve_import(&dep.import, dep.url.as_str(), dep.revision.as_str(), &mut resolved)?;
            proof {
                lemma_walk_phase(
                    r1,
                    resolved,
                    items,
                    d1,
                    a1,
                    self.decoded(),
                    self.admitted(),
                    old(self).fetches(),
                    f1,
                    self.fetches(),
                    marks,
                    i + 1,
                );
                let ghost marks0 = marks;
                marks = marks.push(self.fetches().len() as int);
                lemma_files_between_from(dep.import, dep.url@, dep.revision@, self.fetches(), f1.len() as int);
                assert forall|j: int| 0 <= j < i + 1 implies files_between(
                    (#[trigger] items[j]).1.import,
                    items[j].1.url@,
                    items[j].1.revision@,
                    self.fetches(),
                    marks[j],
                    marks[j + 1],
                ) by {
                    if j < i {
                        assert(marks[j] == marks0[j] && marks[j + 1] == marks0[j + 1]);
                        assert(marks0[0] <= marks0[j]);
                        lemma_files_between_grow(items[j].1.import, items[j].1.url@, items[j].1.revision@, f1, self.fetches(), marks0[j], marks0[j + 1]);
                    } else {
                        assert(marks[j] == marks0[marks0.len() - 1]);
                    }
                }
                if self_applies {
                    lemma_files_between_grow(manifest.self_import, su, sr, f1, self.fetches(), old(self).fetches().len() as int, marks[0]);
                }
                lemma_walked_step(d1, a1, self.decoded(), self.admitted(), old(self).fetches(), f1, self.fetches(), None);
                lemma_files_weaken(
                    dep.import,
                    dep.url@,
                    dep.revision@,
                    self.fetches(),
                    old(self).fetches().len() as int,
                    f1.len() as int,
                );
                assert forall|j: int| 0 <= j < i + 1 implies files_fetched_from(
                    (#[trigger] items[j]).1.import,
                    items[j].1.url@,
                    items[j].1.revision@,
                    self.fetches(),
                    old(self).fetches().len() as int,
                ) by {
                    if j < i {
                        lemma_files_grow(
                            items[j].1.import,
                            items[j].1.url@,
                            items[j].1.revision@,
                            f1,
                            self.fetches(),
                            old(self).fetches().len() as int,
                        );
                    }
                }
                if self_applies {
                    lemma_files_grow(manifest.self_import, su, sr, f1, self.fetches(), old(self).fetches().len() as int);
                }
                lemma_keeps_entries_trans(base, r1, resolved);
                lemma_accounted_step(
                    r1,
                    resolved,
                    manifest.deps,
                    d0,
                    a0,
                    self.decoded(),
                    self.admitted(),
                    old(self).fetches(),
                    f1,
                );
                assert forall|j: int| 0 <= j < i + 1 implies #[trigger] resolved.has(items[j].0@) by {
                    assert(r1.has(items[j].0@));
                }
            }
        }
        proof {
            if self_applies {
                assert forall|k: Seq<char>|
                    #[trigger] import_claims(manifest.self_import, su, sr, self.decoded(), k) implies resolved.has(k)
                        && explained_by(
                        k,
                        resolved.lookup(k).unwrap(),
                        self.decoded(),
                        self.admitted(),
                        old(self).fetches(),
                    ) by {
                    lemma_claims_back(manifest.self_import, su, sr, d_mid, self.decoded(), k);
                    assert(base.has(k));
                    lemma_explained_persists(
                        k,
                        base.lookup(k).unwrap(),
                        d_mid,
                        a_mid,
                        old(self).fetches(),
                        self.decoded(),
                        self.admitted(),
                        old(self).fetches(),
                    );
                }
            }
            assert forall|k: Seq<char>| #[trigger] manifest.deps.has(k) implies resolved.has(k) by {
                let j = manifest.deps.pos(k);
                manifest.deps.lemma_lookup_at(j);
                assert(resolved.has(items[j].0@));
            }
            if is_flat(*manifest) {
                assert forall|k: Seq<char>|
                    #![trigger resolved.has(k)]
                    #![trigger manifest.deps.has(k)]
                    resolved.has(k) == manifest.deps.has(k) && (resolved.has(k) ==> resolved_from(
                        manifest.deps.lookup(k).unwrap(),
                        resolved.lookup(k).unwrap(),
                    )) by {
                    if manifest.deps.has(k) {
                        let j = manifest.deps.pos(k);
                        manifest.deps.lemma_lookup_at(j);
                        assert(resolved_from(items[j].1, resolved.lookup(items[j].0@).unwrap()));
                    }
                    if resolved.has(k) {
                        let j = choose|j: int| 0 <= j < n && (#[trigger] items[j]).0@ == k;
                        manifest.deps.lemma_lookup_at(j);
                    }
                }
            }
            assert forall|k: Seq<char>| #[trigger] base.has(k) implies explained_by(
                k,
                base.lookup(k).unwrap(),
                self.decoded(),
                self.admitted(),
                old(self).fetches(),
            ) by {
                lemma_explained_persists(
                    k,
                    base.lookup(k).unwrap(),
                    d_mid,
                    a_mid,
                    old(self).fetches(),
                    self.decoded(),
                    self.admitted(),
                    old(self).fetches(),
                );
            }
            if self_applies {
                assert forall|k: Seq<char>|
                    #[trigger] import_claims(manifest.self_import, su, sr, self.decoded(), k) implies base.has(k) by {
                    lemma_claims_back(manifest.self_import, su, sr, d_mid, self.decoded(), k);
                }
            }
        }
        self.after_self = Ghost(base);
        self.walk_marks = Ghost(marks);
        Ok(ResolvedManifest { deps: resolved })
    }
}

} // verus!
