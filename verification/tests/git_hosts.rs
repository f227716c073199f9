use east::dep::{Git, ResolvedGit};
use east::resolver::git::git2_resolver::{
    cached_name_resolver, named_refspecs, oid_text, pinned_by_rev, repo_dir_name, resolve_ref, resolved_from_refs,
    RemoteRef,
};
use east::resolver::git::github_resolver::{
    check_dir_response, check_file_response, check_rate_limit, check_resolve_response, check_tarball_response,
    commits_api_url, contents_api_url, entry_matches, is_full_sha, list_dir_entries, normalise, parse_github_url,
    plan_resolve, resolved_from_sha, strip_top_dir, tarball_api_url, tarball_cache_path, ResolvePlan, ResponseInfo,
};
use east::resolver::git::GitResolverError;
use east::resolver::ResolveError;

const ZEPHYR: &str = "https://github.com/zephyrproject-rtos/zephyr.git";

fn info(status: u16, text: &str) -> ResponseInfo {
    ResponseInfo {
        status,
        status_text: text.to_string(),
        retry_after: None,
        ratelimit_remaining: None,
        ratelimit_reset: None,
    }
}

fn resolved(url: &str, rev: &str, commit: &str) -> ResolvedGit {
    ResolvedGit::new(url.to_string(), rev.to_string(), commit.to_string())
}

#[test]
fn resolve_sha_passthrough() {
    let sha = "c1f2a9b6b04509953ccab078225d48477ce2a808";
    let git = Git { url: url::Url::parse(ZEPHYR).unwrap().to_string(), rev: sha.to_string() };
    let resolved = match plan_resolve(&git).unwrap() {
        ResolvePlan::Pinned(rg) => rg,
        ResolvePlan::Query(u) => panic!("expected no query, got {}", u),
    };
    assert_eq!(resolved.commit, sha);
}

#[test]
fn branch_resolution_queries_the_commits_api() {
    let git = Git { url: ZEPHYR.to_string(), rev: "main".to_string() };
    match plan_resolve(&git).unwrap() {
        ResolvePlan::Query(u) => {
            assert_eq!(u, "https://api.github.com/repos/zephyrproject-rtos/zephyr/commits/main")
        },
        ResolvePlan::Pinned(_) => panic!("a branch is not a commit id"),
    }
    let not_github = Git { url: "https://gitlab.com/a/b".to_string(), rev: "main".to_string() };
    assert!(matches!(plan_resolve(&not_github), Err(GitResolverError::HttpError(m))
        if m == "not a GitHub URL: https://gitlab.com/a/b"));
    let rg = resolved_from_sha(&git, Some("abc".into())).unwrap();
    assert_eq!((rg.url.as_str(), rg.rev.as_str(), rg.commit.as_str()), (ZEPHYR, "main", "abc"));
    assert!(matches!(resolved_from_sha(&git, None), Err(GitResolverError::InvalidRevError { rev, .. }) if rev == "main"));
}

#[test]
fn full_sha_needs_forty_hex_digits() {
    assert!(is_full_sha("c1f2a9b6b04509953ccab078225d48477ce2a808"));
    assert!(is_full_sha("C1F2A9B6B04509953CCAB078225D48477CE2A808"));
    assert!(!is_full_sha("c1f2a9b6"));
    assert!(!is_full_sha("g1f2a9b6b04509953ccab078225d48477ce2a808"));
    assert!(!is_full_sha("c1f2a9b6b04509953ccab078225d48477ce2a8080"));
}

#[test]
fn github_urls_name_owner_and_repo() {
    let (o, r) = parse_github_url(ZEPHYR).unwrap();
    assert_eq!((o.as_str(), r.as_str()), ("zephyrproject-rtos", "zephyr"));
    let (o, r) = parse_github_url("https://github.com/a/b/tree/main").unwrap();
    assert_eq!((o.as_str(), r.as_str()), ("a", "b"));
    assert!(matches!(parse_github_url("https://github.com/solo"), Err(GitResolverError::HttpError(m))
        if m == "cannot parse owner/repo from URL: https://github.com/solo"));
    assert!(matches!(parse_github_url("https://example.com/a/b"), Err(GitResolverError::HttpError(_))));
    assert_eq!(
        tarball_cache_path("/c", ZEPHYR, "abc").unwrap(),
        "/c/zephyrproject-rtos_zephyr_abc.tar.gz"
    );
    assert_eq!(tarball_api_url("o", "r", "abc"), "https://api.github.com/repos/o/r/tarball/abc");
    assert_eq!(
        contents_api_url("o", "r", "west.yml", "abc"),
        "https://api.github.com/repos/o/r/contents/west.yml?ref=abc"
    );
    assert_eq!(commits_api_url("o", "r", "v1"), "https://api.github.com/repos/o/r/commits/v1");
}

#[test]
fn rate_limits_are_recognised() {
    let mut i = info(429, "429 Too Many Requests");
    assert!(matches!(check_rate_limit(&i, None), Some(GitResolverError::RateLimited { host, retry_after_secs: 60 })
        if host == "github.com"));
    i.retry_after = Some("17".into());
    let e = check_rate_limit(&i, None).unwrap();
    assert!(e.is_rate_limited());
    assert_eq!(e.message(), "rate limited by github.com (retry after 17s)");

    let mut f = info(403, "403 Forbidden");
    assert!(check_rate_limit(&f, Some(100)).is_none());
    f.ratelimit_remaining = Some("0".into());
    f.ratelimit_reset = Some("160".into());
    assert!(matches!(check_rate_limit(&f, Some(100)), Some(GitResolverError::RateLimited { retry_after_secs: 60, .. })));
    f.ratelimit_reset = Some("175".into());
    assert!(matches!(check_rate_limit(&f, Some(100)), Some(GitResolverError::RateLimited { retry_after_secs: 75, .. })));
    assert!(matches!(check_rate_limit(&f, Some(200)), Some(GitResolverError::RateLimited { retry_after_secs: 0, .. })));
    assert!(matches!(check_rate_limit(&f, None), Some(GitResolverError::RateLimited { retry_after_secs: 60, .. })));
    f.ratelimit_remaining = Some("3".into());
    assert!(check_rate_limit(&f, Some(100)).is_none());
    assert!(check_rate_limit(&info(200, "200 OK"), None).is_none());
}

#[test]
fn responses_are_classified() {
    let git = Git { url: ZEPHYR.to_string(), rev: "nope".to_string() };
    let api = "https://api.github.com/repos/zephyrproject-rtos/zephyr/commits/nope";
    assert!(matches!(check_resolve_response(&git, api, &info(404, "404 Not Found"), None),
        Err(GitResolverError::InvalidRevError { .. })));
    assert!(matches!(check_resolve_response(&git, api, &info(422, "422 Unprocessable Entity"), None),
        Err(GitResolverError::InvalidRevError { .. })));
    assert!(check_resolve_response(&git, api, &info(200, "200 OK"), None).is_ok());
    let e = check_resolve_response(&git, api, &info(500, "500 Internal Server Error"), None).unwrap_err();
    assert_eq!(e.message(), format!("GitHub API returned 500 Internal Server Error for {}", api));

    let src = resolved(ZEPHYR, "main", "abc");
    let e = check_file_response(&src, "./west.yml", "u", &info(404, "404 Not Found"), None).unwrap_err();
    assert_eq!(e.message(), format!("could not find file './west.yml' in '{}'", ZEPHYR));
    let e = check_dir_response(&src, "scripts", "u", &info(404, "404 Not Found"), None).unwrap_err();
    assert_eq!(e.message(), format!("could not find directory 'scripts' in '{}'", ZEPHYR));
    assert!(check_dir_response(&src, "scripts", "u", &info(204, "204 No Content"), None).is_ok());
    let e = check_tarball_response(&info(502, "502 Bad Gateway"), None).unwrap_err();
    assert_eq!(e.message(), "GitHub tarball download returned 502 Bad Gateway");
    assert!(check_tarball_response(&info(200, "200 OK"), None).is_ok());
}

#[test]
fn tarball_entries_lose_their_top_directory() {
    assert_eq!(strip_top_dir("owner-repo-abc/scripts/west-commands.yml"), "scripts/west-commands.yml");
    assert_eq!(strip_top_dir("owner-repo-abc/"), "");
    assert_eq!(strip_top_dir(""), "");
    assert_eq!(normalise("././west.yml"), "west.yml");
    assert!(entry_matches("top/west.yml", false, "./west.yml"));
    assert!(entry_matches("top/a//b", false, "a/b"));
    assert!(!entry_matches("top/west.yml", true, "west.yml"));
    assert!(!entry_matches("top/sub/west.yml", false, "west.yml"));
}

#[test]
fn directory_listing_gives_sorted_children() {
    let entries: Vec<String> = [
        "top/",
        "top/scripts/",
        "top/scripts/west-commands.yml",
        "top/scripts/build/",
        "top/scripts/build/a.py",
        "top/scripts/zz.py",
        "top/west.yml",
    ]
    .iter()
    .map(|s| s.to_string())
    .collect();
    let listed = list_dir_entries(&entries, "./scripts").unwrap();
    assert_eq!(listed, vec!["build", "west-commands.yml", "zz.py"]);
    let root = list_dir_entries(&entries, "").unwrap();
    assert_eq!(root, vec!["scripts", "west.yml"]);
    assert_eq!(list_dir_entries(&entries, "missing"), None);
    assert_eq!(list_dir_entries(&entries, "scripts/build/").unwrap(), vec!["a.py"]);
}

#[test]
fn object_ids_follow_git2() {
    assert_eq!(oid_text("ABC").unwrap(), format!("abc{}", "0".repeat(37)));
    assert_eq!(oid_text("c1f2a9b6b04509953ccab078225d48477ce2a808").unwrap(), "c1f2a9b6b04509953ccab078225d48477ce2a808");
    assert_eq!(oid_text(""), None);
    assert_eq!(oid_text("main"), None);
    assert_eq!(oid_text("c1f2a9b6b04509953ccab078225d48477ce2a8080"), None);
    // A short hexadecimal revision may be a branch or tag: it is not pinned
    // by itself but left to the remote.
    assert!(pinned_by_rev(&Git { url: ZEPHYR.into(), rev: "deadbeef".into() }).is_none());
    assert!(pinned_by_rev(&Git { url: ZEPHYR.into(), rev: "beef".into() }).is_none());
    assert!(pinned_by_rev(&Git { url: ZEPHYR.into(), rev: "main".into() }).is_none());
    let git = Git { url: ZEPHYR.into(), rev: "C1F2A9B6B04509953CCAB078225D48477CE2A808".into() };
    let rg = pinned_by_rev(&git).unwrap();
    assert_eq!(rg.commit, "c1f2a9b6b04509953ccab078225d48477ce2a808");
    assert_eq!(rg.rev, "C1F2A9B6B04509953CCAB078225D48477CE2A808");
}

#[test]
fn references_prefer_peeled_tags_then_tags_then_branches() {
    let r = |n: &str, o: &str| RemoteRef { name: n.to_string(), oid: o.to_string() };
    let refs = vec![
        r("refs/heads/v1", "branch"),
        r("refs/tags/v1", "tag"),
        r("refs/tags/v1^{}", "peeled"),
        r("refs/heads/main", "main1"),
        r("refs/heads/main", "main2"),
    ];
    assert_eq!(resolve_ref(&refs, "v1"), Some("peeled".to_string()));
    let tags_only = vec![r("refs/heads/v1", "branch"), r("refs/tags/v1", "tag")];
    assert_eq!(resolve_ref(&tags_only, "v1"), Some("tag".to_string()));
    assert_eq!(resolve_ref(&refs, "main"), Some("main1".to_string()));
    assert_eq!(resolve_ref(&refs, "dev"), None);
    let git = Git { url: ZEPHYR.into(), rev: "dev".into() };
    let e = resolved_from_refs(&git, &refs).unwrap_err();
    assert_eq!(e.message(), format!("could not find reference 'dev' in '{}'", ZEPHYR));
    let git = Git { url: ZEPHYR.into(), rev: "main".into() };
    assert_eq!(resolved_from_refs(&git, &refs).unwrap().commit, "main1");
}

#[test]
fn cache_names_flatten_the_url() {
    assert_eq!(
        cached_name_resolver(ZEPHYR, "abc"),
        "github.com__zephyrproject-rtos_zephyr.git_abc"
    );
    assert_eq!(repo_dir_name("https://h.org/a/b", "main"), "h.org__a_b_main");
    let (heads, tags) = named_refspecs("v1");
    assert_eq!(heads, "+refs/heads/v1:refs/remotes/origin/v1");
    assert_eq!(tags, "+refs/tags/v1:refs/tags/v1");
}

#[test]
fn error_messages_follow_display() {
    let repo = "https://h/r".to_string();
    assert_eq!(GitResolverError::CloneError { repo: repo.clone() }.message(), "failed to clone repository 'https://h/r'");
    assert_eq!(GitResolverError::Git2Error("boom".into()).message(), "boom");
    assert_eq!(GitResolverError::HttpError("down".into()).message(), "down");
    let e = GitResolverError::MissingFileError { repo: repo.clone(), rel_path: "x".into() };
    assert!(!e.is_rate_limited());
    let wrapped = ResolveError::Git(e);
    assert_eq!(wrapped.message(), "git resolver error: could not find file 'x' in 'https://h/r'");
    let p = ResolveError::ParseError { url: "u".into(), rev: "r".into(), path: "p".into(), reason: "bad".into() };
    assert_eq!(p.message(), "failed to parse sub-manifest fetched from u @ r, path p: bad");
    assert_eq!(ResolveError::CycleDetected("k".into()).message(), "import cycle detected: k");
}
