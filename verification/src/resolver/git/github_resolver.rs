//! The decisions of the GitHub-backed git resolver: which repositories it
//! serves, what it asks the GitHub API, how it reads the answers, and how it
//! finds files in a cached repository tarball.
use vstd::prelude::*;

use crate::dep::{Git, ResolvedGit};
use crate::name_map::NameMap;
use crate::paths::{components_spec, join_from, join_spec, path_components, path_join, spec_path_join};
use crate::pattern::{
    lemma_split_nonempty,
    occurs_at,
    occurs_at_exec,
    split_char,
    split_spec,
    tail,
    trim_char,
    trim_prefix,
    trim_prefix_spec,
    trim_spec,
    trim_suffix,
    trim_suffix_spec,
};
use crate::text::{lex_lt, owned, parse_u64, parse_u64_spec, push_str, str_eq};
use crate::url_ops::{spec_url_host, spec_url_path, url_host, url_path};

use super::GitResolverError;

verus! {

// ── Repository URLs ───────────────────────────────────────────────────

/// The host of the URL serialized as `url`, or the empty string.
pub open spec fn host_or_empty(url: Seq<char>) -> Seq<char> {
    match spec_url_host(url) {
        Some(Some(h)) => h,
        _ => Seq::empty(),
    }
}

/// The pieces of the path of the URL serialized as `url`, between slashes,
/// leading and trailing slashes left out.
pub open spec fn path_segments(url: Seq<char>) -> Seq<Seq<char>> {
    let p = match spec_url_path(url) {
        Some(p) => p,
        None => Seq::empty(),
    };
    split_spec(trim_spec(p, '/'), '/')
}

/// The owner and repository named by a `github.com` URL
/// (`https://github.com/owner/repo[.git]`), or the message of the error.
pub open spec fn parse_github_url_spec(url: Seq<char>) -> Result<(Seq<char>, Seq<char>), Seq<char>> {
    if host_or_empty(url) != "github.com"@ {
        Err("not a GitHub URL: "@ + url)
    } else if path_segments(url).len() < 2 {
        Err("cannot parse owner/repo from URL: "@ + url)
    } else {
        Ok((path_segments(url)[0], trim_suffix_spec(path_segments(url)[1], ".git"@)))
    }
}

/// Extract `(owner, repo)` from a `github.com` URL, serialized.
///
/// Accepts URLs like `https://github.com/owner/repo[.git]`.
pub fn parse_github_url(url: &str) -> (r: Result<(String, String), GitResolverError>)
    ensures
        match parse_github_url_spec(url@) {
            Ok((o, rp)) => r matches Ok((a, b)) && a@ == o && b@ == rp,
            Err(m) => r matches Err(GitResolverError::HttpError(msg)) && msg@ == m,
        },
{
    let host = match url_host(url) {
        Some(Some(h)) => h,
        _ => String::new(),
    };
    if !str_eq(host.as_str(), "github.com") {
        let mut msg = owned("not a GitHub URL: ");
        push_str(&mut msg, url);
        return Err(GitResolverError::HttpError(msg));
    }
    let path = match url_path(url) {
        Some(p) => p,
        None => String::new(),
    };
    let trimmed = trim_char(path.as_str(), '/');
    let segments = split_char(trimmed.as_str(), '/');
    if segments.len() < 2 {
        let mut msg = owned("cannot parse owner/repo from URL: ");
        push_str(&mut msg, url);
        return Err(GitResolverError::HttpError(msg));
    }
    let owner = segments[0].clone();
    let repo = trim_suffix(segments[1].as_str(), ".git");
    Ok((owner, repo))
}

/// The file name of the cached tarball of `owner/repo` at `commit`.
pub open spec fn tarball_name_spec(owner: Seq<char>, repo: Seq<char>, commit: Seq<char>) -> Seq<char> {
    owner + "_"@ + repo + "_"@ + commit + ".tar.gz"@
}

/// Filesystem-safe tarball cache path under `cache_dir` for a given URL +
/// commit: `{owner}_{repo}_{commit}.tar.gz`.
pub fn tarball_cache_path(cache_dir: &str, url: &str, commit: &str) -> (r: Result<String, GitResolverError>)
    ensures
        match parse_github_url_spec(url@) {
            Ok((o, rp)) => r matches Ok(p) && p@ == spec_path_join(cache_dir@, tarball_name_spec(o, rp, commit@)),
            Err(m) => r matches Err(GitResolverError::HttpError(msg)) && msg@ == m,
        },
{
    let (owner, repo) = parse_github_url(url)?;
    let mut name = owner;
    push_str(&mut name, "_");
    push_str(&mut name, repo.as_str());
    push_str(&mut name, "_");
    push_str(&mut name, commit);
    push_str(&mut name, ".tar.gz");
    Ok(path_join(cache_dir, name.as_str()))
}

/// The GitHub API URL `https://api.github.com/repos/{owner}/{repo}/{rest}`.
pub open spec fn repo_api_url(owner: Seq<char>, repo: Seq<char>, rest: Seq<char>) -> Seq<char> {
    "https://api.github.com/repos/"@ + owner + "/"@ + repo + "/"@ + rest
}

fn repo_api_url_exec(owner: &str, repo: &str, rest: &str) -> (r: String)
    ensures
        r@ == repo_api_url(owner@, repo@, rest@),
{
    let mut u = owned("https://api.github.com/repos/");
    push_str(&mut u, owner);
    push_str(&mut u, "/");
    push_str(&mut u, repo);
    push_str(&mut u, "/");
    push_str(&mut u, rest);
    u
}

/// The API URL that resolves `rev` of `owner/repo` to a commit:
/// `.../commits/{rev}`.
pub fn commits_api_url(owner: &str, repo: &str, rev: &str) -> (r: String)
    ensures
        r@ == repo_api_url(owner@, repo@, "commits/"@ + rev@),
{
    let mut rest = owned("commits/");
    push_str(&mut rest, rev);
    repo_api_url_exec(owner, repo, rest.as_str())
}

/// The API URL of the contents of `path` of `owner/repo` at `commit`:
/// `.../contents/{path}?ref={commit}`.
pub fn contents_api_url(owner: &str, repo: &str, path: &str, commit: &str) -> (r: String)
    ensures
        r@ == repo_api_url(owner@, repo@, "contents/"@ + path@ + "?ref="@ + commit@),
{
    let mut rest = owned("contents/");
    push_str(&mut rest, path);
    push_str(&mut rest, "?ref=");
    push_str(&mut rest, commit);
    repo_api_url_exec(owner, repo, rest.as_str())
}

/// The API URL of the tarball of `owner/repo` at `commit`:
/// `.../tarball/{commit}`.
pub fn tarball_api_url(owner: &str, repo: &str, commit: &str) -> (r: String)
    ensures
        r@ == repo_api_url(owner@, repo@, "tarball/"@ + commit@),
{
    let mut rest = owned("tarball/");
    push_str(&mut rest, commit);
    repo_api_url_exec(owner, repo, rest.as_str())
}

// ── Resolving revisions ───────────────────────────────────────────────

/// Whether `c` is an ASCII hexadecimal digit.
pub open spec fn is_hex_digit(c: char) -> bool {
    ('0' <= c && c <= '9') || ('a' <= c && c <= 'f') || ('A' <= c && c <= 'F')
}

/// Whether `rev` is a full commit id: 40 hexadecimal digits.
pub open spec fn is_full_sha_spec(rev: Seq<char>) -> bool {
    rev.len() == 40 && forall|i: int| 0 <= i < rev.len() ==> is_hex_digit(#[trigger] rev[i])
}

/// Whether `rev` is a full commit id: 40 hexadecimal digits. (Counting
/// bytes or characters is the same here: hexadecimal digits are ASCII.)
pub fn is_full_sha(rev: &str) -> (b: bool)
    ensures
        b == is_full_sha_spec(rev@),
{
    let n = rev.unicode_len();
    if n != 40 {
        return false;
    }
    let mut i: usize = 0;
    while i < n
        invariant
            n == rev@.len(),
            i <= n,
            forall|k: int| 0 <= k < i ==> is_hex_digit(#[trigger] rev@[k]),
        decreases n - i,
    {
        let c = rev.get_char(i);
        if !(('0' <= c && c <= '9') || ('a' <= c && c <= 'f') || ('A' <= c && c <= 'F')) {
            assert(!is_hex_digit(rev@[i as int]));
            return false;
        }
        i = i + 1;
    }
    true
}

/// What resolving a revision takes: nothing more when the revision is
/// already a commit id, else a query of the commits API.
#[derive(Debug)]
pub enum ResolvePlan {
    /// The revision is a full commit id and resolves to itself.
    Pinned(ResolvedGit),
    /// Ask this API URL.
    Query(String),
}

/// How to resolve `source`: a 40-digit hexadecimal revision resolves to
/// itself; any other needs a GitHub URL and a query of
/// `/repos/{owner}/{repo}/commits/{rev}`.
pub fn plan_resolve(source: &Git) -> (r: Result<ResolvePlan, GitResolverError>)
    ensures
        is_full_sha_spec(source.rev@) ==> (r matches Ok(ResolvePlan::Pinned(rg)) && rg.url == source.url
            && rg.rev == source.rev && rg.commit == source.rev),
        !is_full_sha_spec(source.rev@) ==> match parse_github_url_spec(source.url@) {
            Ok((o, rp)) => r matches Ok(ResolvePlan::Query(u)) && u@ == repo_api_url(o, rp, "commits/"@ + source.rev@),
            Err(m) => r matches Err(GitResolverError::HttpError(msg)) && msg@ == m,
        },
{
    if is_full_sha(source.rev.as_str()) {
        return Ok(
            ResolvePlan::Pinned(
                ResolvedGit::new(source.url.clone(), source.rev.clone(), source.rev.clone()),
            ),
        );
    }
    let (owner, repo) = parse_github_url(source.url.as_str())?;
    Ok(ResolvePlan::Query(commits_api_url(owner.as_str(), repo.as_str(), source.rev.as_str())))
}

/// The resolution of `source` to the commit id the API answered with, or,
/// where the answer named none, an invalid-revision error.
pub fn resolved_from_sha(source: &Git, sha: Option<String>) -> (r: Result<ResolvedGit, GitResolverError>)
    ensures
        sha matches Some(s) ==> r matches Ok(rg) && rg.url == source.url && rg.rev == source.rev
            && rg.commit == s,
        sha is None ==> (r matches Err(GitResolverError::InvalidRevError { repo, rev }) && repo
            == source.url && rev == source.rev),
{
    match sha {
        Some(s) => Ok(ResolvedGit::new(source.url.clone(), source.rev.clone(), s)),
        None => Err(GitResolverError::InvalidRevError { repo: source.url.clone(), rev: source.rev.clone() }),
    }
}

// ── Reading responses ─────────────────────────────────────────────────

/// What the resolver reads of an HTTP response: its status code, the
/// status as text (`404 Not Found`), and the headers that carry rate-limit
/// information, where present and readable as text.
#[derive(Debug)]
pub struct ResponseInfo {
    pub status: u16,
    pub status_text: String,
    pub retry_after: Option<String>,
    pub ratelimit_remaining: Option<String>,
    pub ratelimit_reset: Option<String>,
}

/// A header's value as a decimal `u64`, where it is present and one.
pub open spec fn header_u64(h: Option<String>) -> Option<u64> {
    match h {
        Some(s) => parse_u64_spec(s@),
        None => None,
    }
}

/// Seconds to wait when GitHub signals a rate limit, or `None` where the
/// response signals none. A 429 (secondary limit) says so in `retry-after`;
/// a 403 with `x-ratelimit-remaining: 0` (primary limit) gives in
/// `x-ratelimit-reset` the time, in seconds since the Unix epoch, when the
/// limit resets, and `now` is the current such time. Where the headers do
/// not tell, 60.
pub open spec fn rate_limit_spec(info: ResponseInfo, now: Option<u64>) -> Option<u64> {
    if info.status == 429 {
        Some(
            match header_u64(info.retry_after) {
                Some(v) => v,
                None => 60,
            },
        )
    } else if info.status == 403 && header_u64(info.ratelimit_remaining) == Some(0u64) {
        Some(
            match (header_u64(info.ratelimit_reset), now) {
                (Some(reset), Some(n)) => if reset >= n {
                    (reset - n) as u64
                } else {
                    0
                },
                _ => 60,
            },
        )
    } else {
        None
    }
}

/// Whether `e` is the rate-limit error for `secs` seconds.
pub open spec fn is_rate_limited_for(e: GitResolverError, secs: u64) -> bool {
    e matches GitResolverError::RateLimited { host, retry_after_secs } && host@ == "github.com"@
        && retry_after_secs == secs
}

fn header_value(h: &Option<String>) -> (r: Option<u64>)
    ensures
        r == header_u64(*h),
{
    match h {
        Some(s) => parse_u64(s.as_str()),
        None => None,
    }
}

/// Inspect a response for GitHub rate-limit signals.
///
/// GitHub returns 429 (Too Many Requests) for secondary rate limits and
/// 403 with `x-ratelimit-remaining: 0` for primary rate limits.
/// Returns `Some(RateLimited)` when either is detected.
pub fn check_rate_limit(info: &ResponseInfo, now: Option<u64>) -> (r: Option<GitResolverError>)
    ensures
        match rate_limit_spec(*info, now) {
            Some(secs) => r matches Some(e) && is_rate_limited_for(e, secs),
            None => r is None,
        },
{
    if info.status == 429 {
        let retry_after = match header_value(&info.retry_after) {
            Some(v) => v,
            None => 60,
        };
        return Some(GitResolverError::RateLimited { host: owned("github.com"), retry_after_secs: retry_after });
    }
    if info.status == 403 {
        let remaining = header_value(&info.ratelimit_remaining);
        if remaining == Some(0u64) {
            let retry_after = match (header_value(&info.ratelimit_reset), now) {
                (Some(reset), Some(n)) => reset.saturating_sub(n),
                _ => 60,
            };
            return Some(
                GitResolverError::RateLimited { host: owned("github.com"), retry_after_secs: retry_after },
            );
        }
    }
    None
}

/// Whether a status code reports success (2xx).
pub open spec fn is_success(status: u16) -> bool {
    200 <= status && status <= 299
}

/// `GitHub API returned {status} for {api_url}`.
pub open spec fn api_failure_message(status_text: Seq<char>, api_url: Seq<char>) -> Seq<char> {
    "GitHub API returned "@ + status_text + " for "@ + api_url
}

fn api_failure(info: &ResponseInfo, api_url: &str) -> (e: GitResolverError)
    ensures
        e matches GitResolverError::HttpError(m) && m@ == api_failure_message(info.status_text@, api_url@),
{
    let mut m = owned("GitHub API returned ");
    push_str(&mut m, info.status_text.as_str());
    push_str(&mut m, " for ");
    push_str(&mut m, api_url);
    GitResolverError::HttpError(m)
}

/// Whether the response is the answer to a successful request, and what
/// went wrong where it is not: after a check that the status is not
/// `missing` (which is checked by the caller), a rate limit, then any other
/// status than 2xx.
pub open spec fn after_missing(info: ResponseInfo, now: Option<u64>, api_url: Seq<char>, r: Result<(), GitResolverError>) -> bool {
    match rate_limit_spec(info, now) {
        Some(secs) => r matches Err(e) && is_rate_limited_for(e, secs),
        None => if is_success(info.status) {
            r is Ok
        } else {
            r matches Err(GitResolverError::HttpError(m)) && m@ == api_failure_message(info.status_text@, api_url)
        },
    }
}

fn rate_then_success(info: &ResponseInfo, now: Option<u64>, api_url: &str) -> (r: Result<(), GitResolverError>)
    ensures
        after_missing(*info, now, api_url@, r),
{
    match check_rate_limit(info, now) {
        Some(e) => Err(e),
        None => if 200 <= info.status && info.status <= 299 {
            Ok(())
        } else {
            Err(api_failure(info, api_url))
        },
    }
}

/// Reads the answer of the commits API to a query for `source`'s revision:
/// 404 and 422 say the revision does not exist, then rate limits, then any
/// other failure.
pub fn check_resolve_response(source: &Git, api_url: &str, info: &ResponseInfo, now: Option<u64>) -> (r: Result<(), GitResolverError>)
    ensures
        info.status == 404 || info.status == 422 ==> (r matches Err(
            GitResolverError::InvalidRevError { repo, rev },
        ) && repo == source.url && rev == source.rev),
        !(info.status == 404 || info.status == 422) ==> after_missing(*info, now, api_url@, r),
{
    if info.status == 404 || info.status == 422 {
        return Err(GitResolverError::InvalidRevError { repo: source.url.clone(), rev: source.rev.clone() });
    }
    rate_then_success(info, now, api_url)
}

/// Reads the answer of the contents API to a request for the file
/// `rel_path`: 404 says it does not exist, then rate limits, then any other
/// failure.
pub fn check_file_response(source: &ResolvedGit, rel_path: &str, api_url: &str, info: &ResponseInfo, now: Option<u64>) -> (r: Result<(), GitResolverError>)
    ensures
        info.status == 404 ==> (r matches Err(GitResolverError::MissingFileError { repo, rel_path: p })
            && repo == source.url && p@ == rel_path@),
        info.status != 404 ==> after_missing(*info, now, api_url@, r),
{
    if info.status == 404 {
        return Err(GitResolverError::MissingFileError { repo: source.url.clone(), rel_path: owned(rel_path) });
    }
    rate_then_success(info, now, api_url)
}

/// Reads the answer of the contents API to a request for the directory
/// `rel_path`: 404 says it does not exist, then rate limits, then any other
/// failure.
pub fn check_dir_response(source: &ResolvedGit, rel_path: &str, api_url: &str, info: &ResponseInfo, now: Option<u64>) -> (r: Result<(), GitResolverError>)
    ensures
        info.status == 404 ==> (r matches Err(GitResolverError::MissingDirectoryError { repo, rel_path: p })
            && repo == source.url && p@ == rel_path@),
        info.status != 404 ==> after_missing(*info, now, api_url@, r),
{
    if info.status == 404 {
        return Err(
            GitResolverError::MissingDirectoryError { repo: source.url.clone(), rel_path: owned(rel_path) },
        );
    }
    rate_then_success(info, now, api_url)
}

/// Reads the answer to a tarball download: rate limits, then any status
/// but 2xx.
pub fn check_tarball_response(info: &ResponseInfo, now: Option<u64>) -> (r: Result<(), GitResolverError>)
    ensures
        match rate_limit_spec(*info, now) {
            Some(secs) => r matches Err(e) && is_rate_limited_for(e, secs),
            None => if is_success(info.status) {
                r is Ok
            } else {
                r matches Err(GitResolverError::HttpError(m)) && m@ == "GitHub tarball download returned "@
                    + info.status_text@
            },
        },
{
    match check_rate_limit(info, now) {
        Some(e) => Err(e),
        None => if 200 <= info.status && info.status <= 299 {
            Ok(())
        } else {
            let mut m = owned("GitHub tarball download returned ");
            push_str(&mut m, info.status_text.as_str());
            Err(GitResolverError::HttpError(m))
        },
    }
}

// ── Reading tarballs ──────────────────────────────────────────────────

/// A repository-relative path without its leading `./`s.
pub open spec fn normalised_spec(rel_path: Seq<char>) -> Seq<char> {
    trim_prefix_spec(rel_path, "./"@)
}

/// `rel_path` without its leading `./`s.
pub fn normalise(rel_path: &str) -> (r: String)
    ensures
        r@ == normalised_spec(rel_path@),
{
    trim_prefix(rel_path, "./")
}

/// All components but the first.
pub open spec fn after_first<T>(s: Seq<T>) -> Seq<T> {
    if s.len() == 0 {
        s
    } else {
        s.skip(1)
    }
}

/// The path of a tarball entry without the top-level directory that GitHub
/// puts every entry under (`owner-repo-sha1234/`).
pub open spec fn strip_top_spec(entry: Seq<char>) -> Seq<char> {
    join_spec(after_first(components_spec(entry)), "/"@)
}

/// The path of a tarball entry without its top-level directory.
pub fn strip_top_dir(entry: &str) -> (r: String)
    ensures
        r@ == strip_top_spec(entry@),
{
    let comps = path_components(entry);
    let ghost cs = components_spec(entry@);
    assert(comps@.map_values(|s: String| s@) =~= cs);
    if comps.len() == 0 {
        return String::new();
    }
    let r = join_from(&comps, 1, "/");
    assert(comps@.skip(1).map_values(|s: String| s@) =~= cs.skip(1));
    r
}

/// Whether a tarball entry is the file `rel_path`: not a directory, and the
/// same path once its top-level directory is stripped (paths compare by
/// their components).
pub open spec fn entry_matches_spec(entry: Seq<char>, is_dir: bool, rel_path: Seq<char>) -> bool {
    !is_dir && after_first(components_spec(entry)) == components_spec(normalised_spec(rel_path))
}

/// Whether the tarball entry at `entry` (a directory where `is_dir`) is the
/// file `rel_path`.
pub fn entry_matches(entry: &str, is_dir: bool, rel_path: &str) -> (b: bool)
    ensures
        b == entry_matches_spec(entry@, is_dir, rel_path@),
{
    if is_dir {
        return false;
    }
    let ea = path_components(entry);
    let norm = normalise(rel_path);
    let rb = path_components(norm.as_str());
    let ghost a = components_spec(entry@);
    let ghost b = components_spec(norm@);
    let from: usize = if ea.len() == 0 {
        0
    } else {
        1
    };
    let ghost ta = after_first(a);
    assert(ta.len() == ea@.len() - from);
    if ea.len() - from != rb.len() {
        return false;
    }
    let n = rb.len();
    let mut i: usize = 0;
    while i < n
        invariant
            n == rb@.len(),
            from + n == ea@.len(),
            ta == after_first(a),
            ta.len() == n,
            a == components_spec(entry@),
            b == components_spec(norm@),
            norm@ == normalised_spec(rel_path@),
            ea@.len() == a.len(),
            rb@.len() == b.len(),
            from == 0 ==> a.len() == 0,
            from == 1 ==> a.len() > 0,
            forall|k: int| 0 <= k < ea@.len() ==> (#[trigger] ea@[k])@ == a[k],
            forall|k: int| 0 <= k < rb@.len() ==> (#[trigger] rb@[k])@ == b[k],
            forall|k: int| 0 <= k < i ==> ta[k] == b[k],
            i <= n,
        decreases n - i,
    {
        assert(ta[i as int] == a[from + i]);
        assert(ea@[from + i]@ == a[from + i]);
        assert(rb@[i as int]@ == b[i as int]);
        if !str_eq(ea[from + i].as_str(), rb[i].as_str()) {
            assert(ta[i as int] != b[i as int]);
            assert(ta != b);
            return false;
        }
        i = i + 1;
    }
    assert(ta =~= b);
    true
}

/// The prefix that entries of the directory `rel_path` start with: the
/// normalised path, ending in `/` unless it is empty.
pub open spec fn dir_prefix_spec(rel_path: Seq<char>) -> Seq<char> {
    let n = normalised_spec(rel_path);
    if n.len() == 0 || n.last() == '/' {
        n
    } else {
        n.push('/')
    }
}

/// Whether the tarball entry `entry` lies under `prefix` (or is the
/// directory itself).
pub open spec fn lies_under(entry: Seq<char>, prefix: Seq<char>) -> bool {
    occurs_at(strip_top_spec(entry), 0, prefix)
}

/// The name of the immediate child of `prefix` that `entry` lies in.
pub open spec fn child_name(entry: Seq<char>, prefix: Seq<char>) -> Seq<char> {
    split_spec(strip_top_spec(entry).skip(prefix.len() as int), '/')[0]
}

/// Whether `x` names an immediate child of `prefix` that some entry lies in.
pub open spec fn is_child(entries: Seq<String>, prefix: Seq<char>, x: Seq<char>) -> bool {
    exists|i: int|
        0 <= i < entries.len() && lies_under((#[trigger] entries[i])@, prefix) && child_name(entries[i]@, prefix) == x
            && x.len() > 0
}

/// Whether `v` lists, each once and in order, the immediate children of
/// `prefix` that `entries` lie in.
pub open spec fn lists_children(entries: Seq<String>, prefix: Seq<char>, v: Seq<String>) -> bool {
    &&& forall|a: int, b: int| 0 <= a < b < v.len() ==> lex_lt(#[trigger] v[a]@, #[trigger] v[b]@)
    &&& forall|x: Seq<char>|
        (exists|k: int| 0 <= k < v.len() && (#[trigger] v[k])@ == x) <==> is_child(entries, prefix, x)
}

/// List the immediate children of the directory `rel_path` in a tarball
/// whose entries have the paths `entries`: `None` where no entry lies under
/// it, else the names of its children, each once, in order.
pub fn list_dir_entries(entries: &Vec<String>, rel_path: &str) -> (r: Option<Vec<String>>)
    ensures
        r is Some <==> exists|i: int| 0 <= i < entries@.len() && lies_under(
            (#[trigger] entries@[i])@,
            dir_prefix_spec(rel_path@),
        ),
        r matches Some(v) ==> lists_children(entries@, dir_prefix_spec(rel_path@), v@),
{
    let norm = normalise(rel_path);
    let nlen = norm.as_str().unicode_len();
    let prefix = if nlen == 0 || norm.as_str().get_char(nlen - 1) == '/' {
        norm
    } else {
        let mut p = norm;
        push_str(&mut p, "/");
        proof {
            reveal_strlit("/");
        }
        p
    };
    let ghost pre = dir_prefix_spec(rel_path@);
    assert(prefix@ =~= pre);
    let plen = prefix.as_str().unicode_len();
    let mut names: NameMap<()> = NameMap::new();
    let mut found_any = false;
    let n = entries.len();
    for i in 0..n
        invariant
            n == entries@.len(),
            prefix@ == pre,
            plen == pre.len(),
            names.wf(),
            found_any <==> exists|j: int| 0 <= j < i && lies_under((#[trigger] entries@[j])@, pre),
            forall|x: Seq<char>| #[trigger] names.has(x) <==> is_child(entries@.take(i as int), pre, x),
    {
        let stripped = strip_top_dir(entries[i].as_str());
        let ghost before = names;
        proof {
            assert forall|x: Seq<char>| #[trigger] is_child(entries@.take(i as int), pre, x) == (exists|j: int|
                0 <= j < i && lies_under((#[trigger] entries@[j])@, pre) && child_name(entries@[j]@, pre) == x
                && x.len() > 0) by {
                if is_child(entries@.take(i as int), pre, x) {
                    let j = choose|j: int|
                        0 <= j < i && lies_under((#[trigger] entries@.take(i as int)[j])@, pre) && child_name(
                            entries@.take(i as int)[j]@,
                            pre,
                        ) == x && x.len() > 0;
                    assert(entries@.take(i as int)[j] == entries@[j]);
                }
                if exists|j: int|
                    0 <= j < i && lies_under((#[trigger] entries@[j])@, pre) && child_name(entries@[j]@, pre) == x
                        && x.len() > 0 {
                    let j = choose|j: int|
                        0 <= j < i && lies_under((#[trigger] entries@[j])@, pre) && child_name(entries@[j]@, pre)
                            == x && x.len() > 0;
                    assert(entries@.take(i as int)[j] == entries@[j]);
                }
            }
            assert forall|x: Seq<char>| #[trigger] is_child(entries@.take(i + 1), pre, x) == (exists|j: int|
                0 <= j < i + 1 && lies_under((#[trigger] entries@[j])@, pre) && child_name(entries@[j]@, pre)
                == x && x.len() > 0) by {
                if is_child(entries@.take(i + 1), pre, x) {
                    let j = choose|j: int|
                        0 <= j < i + 1 && lies_under((#[trigger] entries@.take(i + 1)[j])@, pre) && child_name(
                            entries@.take(i + 1)[j]@,
                            pre,
                        ) == x && x.len() > 0;
                    assert(entries@.take(i + 1)[j] == entries@[j]);
                }
                if exists|j: int|
                    0 <= j < i + 1 && lies_under((#[trigger] entries@[j])@, pre) && child_name(entries@[j]@, pre)
                        == x && x.len() > 0 {
                    let j = choose|j: int|
                        0 <= j < i + 1 && lies_under((#[trigger] entries@[j])@, pre) && child_name(
                            entries@[j]@,
                            pre,
                        ) == x && x.len() > 0;
                    assert(entries@.take(i + 1)[j] == entries@[j]);
                }
            }
        }
        if occurs_at_exec(stripped.as_str(), 0, prefix.as_str()) {
            found_any = true;
            let remainder = tail(stripped.as_str(), plen);
            let pieces = split_char(remainder, '/');
            proof {
                lemma_split_nonempty(remainder@, '/');
            }
            let name = &pieces[0];
            assert(name@ == child_name(entries@[i as int]@, pre));
            if !name.as_str().is_empty() {
                names.insert(name.clone(), ());
            }
            proof {
                assert forall|x: Seq<char>| #[trigger] names.has(x) <==> is_child(entries@.take(i + 1), pre, x) by {
                    if x != name@ || name@.len() == 0 {
                        if name@.len() > 0 {
                            assert(names.lookup(x) == before.lookup(x));
                        }
                        if names.has(x) {
                            assert(names.lookup(x) is Some);
                        }
                        if before.has(x) {
                            assert(before.lookup(x) is Some);
                        }
                    } else {
                        assert(names.lookup(x) is Some);
                    }
                }
            }
        } else {
            proof {
                assert(!lies_under(entries@[i as int]@, pre));
                assert forall|x: Seq<char>| #[trigger] names.has(x) <==> is_child(entries@.take(i + 1), pre, x) by {
                }
            }
        }
    }
    if !found_any {
        return None;
    }
    let count = names.len();
    let mut out: Vec<String> = Vec::new();
    for k in 0..count
        invariant
            count == names.items().len(),
            names.wf(),
            out@.len() == k,
            forall|j: int| 0 <= j < k ==> (#[trigger] out@[j])@ == names.items()[j].0@,
    {
        out.push(names.key_at(k).clone());
    }
    proof {
        assert(found_any);
        assert forall|a: int, b: int| 0 <= a < b < out@.len() implies lex_lt(#[trigger] out@[a]@, #[trigger] out@[b]@) by {
            assert(out@[a]@ == names.items()[a].0@);
            assert(out@[b]@ == names.items()[b].0@);
        }
        assert(entries@.take(n as int) =~= entries@);
        assert forall|x: Seq<char>|
            (exists|k: int| 0 <= k < out@.len() && (#[trigger] out@[k])@ == x) <==> is_child(entries@, pre, x) by {
            if exists|k: int| 0 <= k < out@.len() && (#[trigger] out@[k])@ == x {
                let k = choose|k: int| 0 <= k < out@.len() && (#[trigger] out@[k])@ == x;
                names.lemma_lookup_at(k);
                assert(names.has(x));
            }
            if is_child(entries@, pre, x) {
                assert(names.has(x));
                let p = names.pos(x);
                assert(out@[p]@ == x);
            }
        }
        assert(lists_children(entries@, pre, out@));
    }
    Some(out)
}

} // verus!
