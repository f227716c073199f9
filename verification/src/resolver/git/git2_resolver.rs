//! The decisions of the libgit2-backed git resolver: how a revision names a
//! commit, which advertised reference a name picks, and where a checkout
//! is cached.
use vstd::prelude::*;

use crate::dep::{Git, ResolvedGit};
use crate::pattern::{replace_all, replace_spec};
use crate::text::{owned, push_str, str_eq};
use crate::url_ops::{spec_url_host, spec_url_path, url_host, url_path};

use super::github_resolver::{host_or_empty, is_full_sha, is_full_sha_spec, is_hex_digit};
use super::GitResolverError;

verus! {

// ── Object ids ────────────────────────────────────────────────────────

/// A hexadecimal digit in lower case.
pub open spec fn lower_hex(c: char) -> char {
    if 'A' <= c && c <= 'F' {
        ((c as u32) + 32) as char
    } else {
        c
    }
}

/// The text of the object id that `s` names (`git2::Oid::from_str`, then
/// `to_string`): one to 40 hexadecimal digits, in lower case, padded with
/// `0`s to 40; or `None` where `s` is empty, longer than 40, or holds
/// anything but hexadecimal digits.
pub open spec fn oid_text_spec(s: Seq<char>) -> Option<Seq<char>> {
    if 1 <= s.len() <= 40 && forall|i: int| 0 <= i < s.len() ==> is_hex_digit(#[trigger] s[i]) {
        Some(s.map_values(|c: char| lower_hex(c)) + Seq::new((40 - s.len()) as nat, |i: int| '0'))
    } else {
        None
    }
}

/// `git2::Oid::from_str(s)`, as text (`Oid::to_string`). The contract
/// states what libgit2's `git_oid_fromstrn` and `git_oid_fmt` do: the
/// length and digit checks, the zero fill of the digits not given, and the
/// lower-case rendering of all 40.
#[verifier::external_body]
pub fn oid_text(s: &str) -> (r: Option<String>)
    ensures
        match oid_text_spec(s@) {
            Some(t) => r matches Some(x) && x@ == t,
            None => r is None,
        },
{
    git2::Oid::from_str(s).ok().map(|oid| oid.to_string())
}

/// `source` pinned without asking the remote, where its revision is itself
/// a commit id: 40 hexadecimal digits, rendered in lower case. Any other
/// revision (a branch or tag, even one spelled in hexadecimal digits such as
/// `beef`) is left to the remote.
pub fn pinned_by_rev(source: &Git) -> (r: Option<ResolvedGit>)
    ensures
        is_full_sha_spec(source.rev@) ==> (r matches Some(rg) && rg.url == source.url && rg.rev == source.rev
            && rg.commit@ == oid_text_spec(source.rev@)->Some_0),
        !is_full_sha_spec(source.rev@) ==> r is None,
{
    if !is_full_sha(source.rev.as_str()) {
        return None;
    }
    match oid_text(source.rev.as_str()) {
        Some(commit) => Some(ResolvedGit::new(source.url.clone(), source.rev.clone(), commit)),
        None => None,
    }
}

// ── Advertised references ─────────────────────────────────────────────

/// A reference that a remote advertises: its full name
/// (`refs/heads/main`) and the object id it points to, as text.
#[derive(Debug)]
pub struct RemoteRef {
    pub name: String,
    pub oid: String,
}

/// Reference `i` is the first of `refs` with the full name `full`.
pub open spec fn is_first_ref(refs: Seq<RemoteRef>, full: Seq<char>, i: int) -> bool {
    &&& 0 <= i < refs.len()
    &&& refs[i].name@ == full
    &&& forall|j: int| 0 <= j < i ==> (#[trigger] refs[j]).name@ != full
}

/// The object id of the first reference of `refs` named `full`.
pub open spec fn first_ref_oid(refs: Seq<RemoteRef>, full: Seq<char>) -> Option<String> {
    if exists|i: int| is_first_ref(refs, full, i) {
        Some(refs[choose|i: int| is_first_ref(refs, full, i)].oid)
    } else {
        None
    }
}

/// The object id that `name` resolves to among `refs`: a peeled tag
/// (`refs/tags/{name}^{}`) first, then a tag (`refs/tags/{name}`), then a
/// branch (`refs/heads/{name}`).
pub open spec fn resolve_ref_spec(refs: Seq<RemoteRef>, name: Seq<char>) -> Option<String> {
    let tag = "refs/tags/"@ + name;
    match first_ref_oid(refs, tag + "^{}"@) {
        Some(o) => Some(o),
        None => match first_ref_oid(refs, tag) {
            Some(o) => Some(o),
            None => first_ref_oid(refs, "refs/heads/"@ + name),
        },
    }
}

/// The object id of the first of `refs` named `full`.
fn find_ref(refs: &Vec<RemoteRef>, full: &str) -> (r: Option<String>)
    ensures
        r == first_ref_oid(refs@, full@),
{
    let n = refs.len();
    for i in 0..n
        invariant
            n == refs@.len(),
            forall|j: int| 0 <= j < i ==> (#[trigger] refs@[j]).name@ != full@,
    {
        if str_eq(refs[i].name.as_str(), full) {
            proof {
                assert(is_first_ref(refs@, full@, i as int));
                let c = choose|k: int| is_first_ref(refs@, full@, k);
                if c < i {
                    assert(refs@[c].name@ != full@);
                } else if i < c {
                    assert(refs@[i as int].name@ != full@);
                }
            }
            return Some(refs[i].oid.clone());
        }
    }
    proof {
        if exists|k: int| is_first_ref(refs@, full@, k) {
            let c = choose|k: int| is_first_ref(refs@, full@, k);
            assert(refs@[c].name@ != full@);
        }
    }
    None
}

/// The object id that `name` resolves to among the references `refs`:
/// a peeled tag first, then a tag, then a branch.
pub fn resolve_ref(refs: &Vec<RemoteRef>, name: &str) -> (r: Option<String>)
    ensures
        r == resolve_ref_spec(refs@, name@),
{
    let mut tag_ref = owned("refs/tags/");
    push_str(&mut tag_ref, name);
    let mut peeled_tag_ref = tag_ref.clone();
    push_str(&mut peeled_tag_ref, "^{}");
    let mut branch_ref = owned("refs/heads/");
    push_str(&mut branch_ref, name);

    // 1. Prefer peeled tag
    if let Some(o) = find_ref(refs, peeled_tag_ref.as_str()) {
        return Some(o);
    }
    // 2. Then direct tag (lightweight)
    if let Some(o) = find_ref(refs, tag_ref.as_str()) {
        return Some(o);
    }
    // 3. Then branch
    find_ref(refs, branch_ref.as_str())
}

/// `source` pinned to the commit that its revision names among the
/// references the remote advertised, or an invalid-revision error.
pub fn resolved_from_refs(source: &Git, refs: &Vec<RemoteRef>) -> (r: Result<ResolvedGit, GitResolverError>)
    ensures
        match resolve_ref_spec(refs@, source.rev@) {
            Some(o) => r matches Ok(rg) && rg.url == source.url && rg.rev == source.rev && rg.commit == o,
            None => r matches Err(GitResolverError::InvalidRevError { repo, rev }) && repo == source.url
                && rev == source.rev,
        },
{
    match resolve_ref(refs, source.rev.as_str()) {
        Some(commit) => Ok(ResolvedGit::new(source.url.clone(), source.rev.clone(), commit)),
        None => Err(GitResolverError::InvalidRevError { repo: source.url.clone(), rev: source.rev.clone() }),
    }
}

/// The refspecs that fetch `rev` as a branch or as a tag.
pub fn named_refspecs(rev: &str) -> (r: (String, String))
    ensures
        r.0@ == "+refs/heads/"@ + rev@ + ":refs/remotes/origin/"@ + rev@,
        r.1@ == "+refs/tags/"@ + rev@ + ":refs/tags/"@ + rev@,
{
    let mut heads = owned("+refs/heads/");
    push_str(&mut heads, rev);
    push_str(&mut heads, ":refs/remotes/origin/");
    push_str(&mut heads, rev);
    let mut tags = owned("+refs/tags/");
    push_str(&mut tags, rev);
    push_str(&mut tags, ":refs/tags/");
    push_str(&mut tags, rev);
    (heads, tags)
}

// ── Cache directories ─────────────────────────────────────────────────

/// The path of the URL serialized as `url`, or the empty string.
pub open spec fn path_or_empty(url: Seq<char>) -> Seq<char> {
    match spec_url_path(url) {
        Some(p) => p,
        None => Seq::empty(),
    }
}

/// The directory name of a checkout of `url` identified by `id`:
/// `{host}_{path with / as _}_{id}`.
pub open spec fn checkout_dir_spec(url: Seq<char>, id: Seq<char>) -> Seq<char> {
    host_or_empty(url) + "_"@ + replace_spec(path_or_empty(url), "/"@, "_"@) + "_"@ + id
}

/// The directory name of a checkout of `url` identified by `id`.
pub fn checkout_dir_name(url: &str, id: &str) -> (r: String)
    ensures
        r@ == checkout_dir_spec(url@, id@),
{
    let mut r = match url_host(url) {
        Some(Some(h)) => h,
        _ => String::new(),
    };
    let path = match url_path(url) {
        Some(p) => p,
        None => String::new(),
    };
    proof {
        reveal_strlit("/");
    }
    let flat = replace_all(path.as_str(), "/", "_");
    push_str(&mut r, "_");
    push_str(&mut r, flat.as_str());
    push_str(&mut r, "_");
    push_str(&mut r, id);
    r
}

/// The cache directory name of the checkout of `url` at the object id
/// `oid` (given as text).
pub fn cached_name_resolver(url: &str, oid: &str) -> (r: String)
    ensures
        r@ == checkout_dir_spec(url@, oid@),
{
    checkout_dir_name(url, oid)
}

/// The directory name of a clone of `url` at the revision `rev`.
pub fn repo_dir_name(url: &str, rev: &str) -> (r: String)
    ensures
        r@ == checkout_dir_spec(url@, rev@),
{
    checkout_dir_name(url, rev)
}

} // verus!
