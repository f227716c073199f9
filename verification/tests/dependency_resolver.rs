use std::collections::BTreeMap;

use east::dep::{Dep, Git, ImportSpec, Manifest, ResolvedGit, ResolvedSource, Source};
use east::name_map::NameMap;
use east::resolver::git::{GitResolver, GitResolverError};
use east::resolver::{filtered_dep_names, DependencyResolver, ManifestParser, ResolveError};

// ── Mock GitResolver ──────────────────────────────────────────────────

fn url(s: &str) -> String {
    url::Url::parse(s).unwrap().to_string()
}

/// A mock git resolver that serves pre-configured commits and file content.
struct MockGitResolver {
    /// Map of "url#rev" → commit SHA to return from resolve().
    commits: BTreeMap<String, String>,
    /// Map of "url#commit#path" → file content.
    files: BTreeMap<String, String>,
}

impl MockGitResolver {
    fn new() -> Self {
        Self { commits: BTreeMap::new(), files: BTreeMap::new() }
    }

    fn add_commit(&mut self, url: &str, rev: &str, commit: &str) {
        self.commits.insert(format!("{}#{}", url, rev), commit.to_string());
    }

    fn add_file(&mut self, url: &str, commit: &str, path: &str, content: &str) {
        self.files.insert(format!("{}#{}#{}", url, commit, path), content.to_string());
    }
}

impl GitResolver for MockGitResolver {
    fn resolve(&mut self, source: &Git) -> Result<ResolvedGit, GitResolverError> {
        let key = format!("{}#{}", source.url, source.rev);
        let commit = self.commits.get(&key).ok_or_else(|| GitResolverError::InvalidRevError {
            repo: source.url.clone(),
            rev: source.rev.clone(),
        })?;
        Ok(ResolvedGit { url: source.url.clone(), rev: source.rev.clone(), commit: commit.clone() })
    }

    fn fetch(&mut self, _source: &ResolvedGit, _path: &str) -> Result<(), GitResolverError> {
        Ok(())
    }

    fn fetch_file(&mut self, source: &ResolvedGit, rel_path: String) -> Result<String, GitResolverError> {
        let key = format!("{}#{}#{}", source.url, source.commit, rel_path);
        self.files
            .get(&key)
            .cloned()
            .ok_or_else(|| GitResolverError::MissingFileError { repo: source.url.clone(), rel_path })
    }

    fn list_dir(&mut self, _source: &ResolvedGit, _rel_path: String) -> Result<Vec<String>, GitResolverError> {
        Ok(Vec::new())
    }
}

// ── Mock ManifestParser ───────────────────────────────────────────────

/// Trivial parser that treats each non-empty line as:
/// `name url rev [import_path]`
struct SimpleParser;

impl ManifestParser for SimpleParser {
    fn parse(&self, content: &str) -> Result<Manifest, ResolveError> {
        let mut deps = NameMap::new();
        for line in content.lines() {
            let line = line.trim();
            if line.is_empty() || line.starts_with('#') {
                continue;
            }
            let parts: Vec<&str> = line.splitn(4, ' ').collect();
            if parts.len() < 3 {
                return Err(ResolveError::ParseError {
                    url: String::new(),
                    rev: String::new(),
                    path: String::new(),
                    reason: format!("bad line: {}", line),
                });
            }
            let name = parts[0];
            let parsed = url::Url::parse(parts[1]).map_err(|e| ResolveError::ParseError {
                url: String::new(),
                rev: String::new(),
                path: String::new(),
                reason: e.to_string(),
            })?;
            let rev = parts[2];
            let import = if parts.len() == 4 {
                ImportSpec::Path(parts[3].to_string())
            } else {
                ImportSpec::NoImport
            };
            let dep = Dep::new(name, name, Source::Git(Git::new(parsed.to_string(), rev))).with_import(import);
            deps.insert(name.to_string(), dep);
        }
        Ok(Manifest::new(deps))
    }
}

fn commit_of(source: &ResolvedSource) -> &str {
    match source {
        ResolvedSource::Git(g) => g.commit(),
    }
}

// ── Tests ─────────────────────────────────────────────────────────────

#[test]
fn flat_manifest_no_imports() {
    let mut git = MockGitResolver::new();
    git.add_commit("https://github.com/a/foo", "main", "aaa111");
    git.add_commit("https://github.com/a/bar", "v1.0", "bbb222");

    let mut resolver = DependencyResolver::new(git, SimpleParser);

    let mut deps = NameMap::new();
    deps.insert(
        "foo".into(),
        Dep::new("foo", "libs/foo", Source::Git(Git::new(url("https://github.com/a/foo"), "main"))),
    );
    deps.insert(
        "bar".into(),
        Dep::new("bar", "libs/bar", Source::Git(Git::new(url("https://github.com/a/bar"), "v1.0"))),
    );

    let manifest = Manifest::new(deps);
    let resolved = resolver.resolve(&manifest).unwrap();

    assert_eq!(resolved.len(), 2);
    assert_eq!(resolved.get("foo").unwrap().path(), "libs/foo");
    assert_eq!(commit_of(&resolved.get("foo").unwrap().source), "aaa111");
    assert_eq!(resolved.get("bar").unwrap().path(), "libs/bar");
    assert!(resolved.get("foo").unwrap().deps().is_empty());
}

#[test]
fn single_import_resolves_transitive_deps() {
    let mut git = MockGitResolver::new();
    git.add_commit("https://github.com/a/root", "main", "aaaa");
    git.add_commit("https://github.com/a/child1", "v1", "cccc");
    git.add_commit("https://github.com/a/child2", "v2", "dddd");

    // root's west.yml defines two children.
    git.add_file(
        "https://github.com/a/root",
        "aaaa",
        "west.yml",
        "child1 https://github.com/a/child1 v1\nchild2 https://github.com/a/child2 v2\n",
    );

    let mut resolver = DependencyResolver::new(git, SimpleParser);

    let mut deps = NameMap::new();
    deps.insert(
        "root".into(),
        Dep::new("root", "root", Source::Git(Git::new(url("https://github.com/a/root"), "main")))
            .with_import(ImportSpec::Path("west.yml".into())),
    );

    let manifest = Manifest::new(deps);
    let resolved = resolver.resolve(&manifest).unwrap();

    assert_eq!(resolved.len(), 3); // root + child1 + child2
    assert!(resolved.get("root").is_some());
    assert!(resolved.get("child1").is_some());
    assert!(resolved.get("child2").is_some());

    // root should list its imported deps.
    let root = resolved.get("root").unwrap();
    assert_eq!(root.deps(), &["child1", "child2"]);
}

#[test]
fn first_seen_wins() {
    let mut git = MockGitResolver::new();
    git.add_commit("https://github.com/a/root", "main", "aaaa");
    git.add_commit("https://github.com/a/shared", "v1", "1111");
    git.add_commit("https://github.com/a/shared", "v2", "2222");

    // root imports a sub-manifest that also defines "shared" at v2,
    // but "shared" was already in the initial manifest at v1.
    git.add_file("https://github.com/a/root", "aaaa", "west.yml", "shared https://github.com/a/shared v2\n");

    let mut resolver = DependencyResolver::new(git, SimpleParser);

    let mut deps = NameMap::new();
    // "shared" declared directly at v1.
    deps.insert(
        "shared".into(),
        Dep::new("shared", "libs/shared", Source::Git(Git::new(url("https://github.com/a/shared"), "v1"))),
    );
    // "root" imports a file that also declares "shared".
    deps.insert(
        "root".into(),
        Dep::new("root", "root", Source::Git(Git::new(url("https://github.com/a/root"), "main")))
            .with_import(ImportSpec::Path("west.yml".into())),
    );

    let manifest = Manifest::new(deps);
    let resolved = resolver.resolve(&manifest).unwrap();

    // "shared" should be at v1 (first-seen from the direct deps).
    let shared = resolved.get("shared").unwrap();
    assert_eq!(commit_of(&shared.source), "1111");
}

#[test]
fn cycle_detection() {
    let mut git = MockGitResolver::new();
    git.add_commit("https://github.com/a/root", "main", "aaaa");

    // root's west.yml imports itself → cycle.
    git.add_file(
        "https://github.com/a/root",
        "aaaa",
        "west.yml",
        "", // content doesn't matter — the fetch key cycle triggers first
    );
    // A manifest that re-imports the same file:
    git.add_file(
        "https://github.com/a/root",
        "aaaa",
        "west.yml",
        "child https://github.com/a/root main west.yml\n",
    );
    git.add_commit("https://github.com/a/root", "main", "aaaa");

    let mut resolver = DependencyResolver::new(git, SimpleParser);

    let mut deps = NameMap::new();
    deps.insert(
        "root".into(),
        Dep::new("root", "root", Source::Git(Git::new(url("https://github.com/a/root"), "main")))
            .with_import(ImportSpec::Path("west.yml".into())),
    );

    let manifest = Manifest::new(deps);
    let result = resolver.resolve(&manifest);

    assert!(result.is_err());
    let err = result.unwrap_err();
    assert!(matches!(err, ResolveError::CycleDetected(_)), "expected CycleDetected, got: {:?}", err);
}

#[test]
fn filtered_import_respects_allowlist() {
    let mut git = MockGitResolver::new();
    git.add_commit("https://github.com/a/root", "main", "aaaa");
    git.add_commit("https://github.com/a/keep", "v1", "1111");
    git.add_commit("https://github.com/a/skip", "v1", "2222");

    git.add_file(
        "https://github.com/a/root",
        "aaaa",
        "west.yml",
        "keep https://github.com/a/keep v1\nskip https://github.com/a/skip v1\n",
    );

    let mut resolver = DependencyResolver::new(git, SimpleParser);

    let mut deps = NameMap::new();
    deps.insert(
        "root".into(),
        Dep::new("root", "root", Source::Git(Git::new(url("https://github.com/a/root"), "main"))).with_import(
            ImportSpec::Filtered {
                path: "west.yml".into(),
                name_allowlist: Some(vec!["keep".into()]),
                name_blocklist: None,
                path_allowlist: None,
                path_blocklist: None,
                path_prefix: None,
            },
        ),
    );

    let manifest = Manifest::new(deps);
    let resolved = resolver.resolve(&manifest).unwrap();

    assert_eq!(resolved.len(), 2); // root + keep
    assert!(resolved.get("keep").is_some());
    assert!(resolved.get("skip").is_none());
}

#[test]
fn diamond_imports_converge() {
    // A diamond: root → {left, right}, both left and right import
    // the same sub-manifest from "shared" repo. The deps from that
    // sub-manifest should appear only once (first-seen-wins,
    // and the second fetch is skipped by first-seen on the dep name).
    let mut git = MockGitResolver::new();
    git.add_commit("https://github.com/a/root", "main", "rrrr");
    git.add_commit("https://github.com/a/left", "main", "llll");
    git.add_commit("https://github.com/a/right", "main", "riri");
    git.add_commit("https://github.com/a/bottom", "v1", "bbbb");

    // root's west.yml: left and right.
    git.add_file(
        "https://github.com/a/root",
        "rrrr",
        "west.yml",
        "left https://github.com/a/left main west.yml\nright https://github.com/a/right main west.yml\n",
    );
    // Both left and right point to "bottom".
    git.add_file("https://github.com/a/left", "llll", "west.yml", "bottom https://github.com/a/bottom v1\n");
    git.add_file("https://github.com/a/right", "riri", "west.yml", "bottom https://github.com/a/bottom v1\n");

    let mut resolver = DependencyResolver::new(git, SimpleParser);

    let mut deps = NameMap::new();
    deps.insert(
        "root".into(),
        Dep::new("root", "root", Source::Git(Git::new(url("https://github.com/a/root"), "main")))
            .with_import(ImportSpec::Path("west.yml".into())),
    );

    let manifest = Manifest::new(deps);
    let resolved = resolver.resolve(&manifest).unwrap();

    // root, left, right, bottom = 4.
    assert_eq!(resolved.len(), 4);
    assert!(resolved.get("bottom").is_some());
}

#[test]
fn filtered_dep_names_keeps_passing_names_in_order() {
    let mut deps = NameMap::new();
    for (name, path) in [("alpha", "libs/alpha"), ("beta", "libs/beta"), ("gamma", "ext/gamma")] {
        deps.insert(name.to_string(), Dep::new(name, path, Source::Git(Git::new(url("https://github.com/a/x"), "main"))));
    }
    let none = filtered_dep_names(&deps, None, None, None, None);
    assert_eq!(none, vec!["alpha".to_string(), "beta".to_string(), "gamma".to_string()]);

    let block = vec!["beta".to_string()];
    let allow_paths = vec!["libs/alpha".to_string(), "libs/beta".to_string()];
    let kept = filtered_dep_names(&deps, None, Some(&block), Some(&allow_paths), None);
    assert_eq!(kept, vec!["alpha".to_string()]);

    let allow = vec!["gamma".to_string(), "beta".to_string()];
    let kept = filtered_dep_names(&deps, Some(&allow), None, None, None);
    assert_eq!(kept, vec!["beta".to_string(), "gamma".to_string()]);
}

/// `SimpleParser`, plus a line `self url rev import_path` that makes the
/// manifest's own repository import `import_path`.
struct SelfImportParser;

impl ManifestParser for SelfImportParser {
    fn parse(&self, content: &str) -> Result<Manifest, ResolveError> {
        let mut rest = String::new();
        let mut self_dep = None;
        for line in content.lines() {
            let parts: Vec<&str> = line.trim().split(' ').collect();
            if parts.len() == 4 && parts[0] == "self" {
                let src = Source::Git(Git::new(url(parts[1]), parts[2]));
                self_dep = Some(Dep::new("self", ".", src).with_import(ImportSpec::Path(parts[3].to_string())));
            } else {
                rest.push_str(line);
                rest.push('\n');
            }
        }
        let m = SimpleParser.parse(&rest)?;
        Ok(match self_dep {
            Some(d) => m.with_self_dep(d),
            None => m,
        })
    }
}

#[test]
fn sub_manifest_self_import_names_come_first() {
    let mut git = MockGitResolver::new();
    git.add_commit("https://github.com/a/root", "main", "aaaa");
    git.add_commit("https://github.com/a/child0", "v0", "0000");
    git.add_commit("https://github.com/a/child1", "v1", "1111");
    git.add_file(
        "https://github.com/a/root",
        "aaaa",
        "west.yml",
        "self https://github.com/a/root main extra.yml\nchild1 https://github.com/a/child1 v1\n",
    );
    git.add_file("https://github.com/a/root", "aaaa", "extra.yml", "child0 https://github.com/a/child0 v0\n");

    let mut deps = NameMap::new();
    deps.insert(
        "root".into(),
        Dep::new("root", "root", Source::Git(Git::new(url("https://github.com/a/root"), "main")))
            .with_import(ImportSpec::Path("west.yml".into())),
    );
    let mut resolver = DependencyResolver::new(git, SelfImportParser);
    let resolved = resolver.resolve(&Manifest::new(deps)).unwrap();

    assert_eq!(resolved.len(), 3);
    assert_eq!(resolved.get("root").unwrap().deps(), &["child0", "child1"]);
    assert_eq!(commit_of(&resolved.get("child0").unwrap().source), "0000");
}

#[test]
fn self_import_beats_transitive_imports() {
    let mut git = MockGitResolver::new();
    git.add_commit("https://github.com/a/root", "main", "aaaa");
    git.add_commit("https://github.com/a/lib", "v1", "bbbb");
    git.add_commit("https://github.com/a/shared-self", "s1", "1111");
    git.add_commit("https://github.com/a/shared-lib", "s2", "2222");
    git.add_file("https://github.com/a/root", "aaaa", "self.yml", "shared https://github.com/a/shared-self s1\n");
    git.add_file("https://github.com/a/lib", "bbbb", "lib.yml", "shared https://github.com/a/shared-lib s2\n");

    let mut deps = NameMap::new();
    deps.insert(
        "lib".into(),
        Dep::new("lib", "lib", Source::Git(Git::new(url("https://github.com/a/lib"), "v1")))
            .with_import(ImportSpec::Path("lib.yml".into())),
    );
    let me = Dep::new("root", ".", Source::Git(Git::new(url("https://github.com/a/root"), "main")))
        .with_import(ImportSpec::Path("self.yml".into()));
    let manifest = Manifest::new(deps).with_self_dep(me);
    let mut resolver = DependencyResolver::new(git, SimpleParser);
    let resolved = resolver.resolve(&manifest).unwrap();

    assert_eq!(resolved.len(), 2);
    assert_eq!(commit_of(&resolved.get("shared").unwrap().source), "1111");
    assert_eq!(resolved.get("lib").unwrap().deps(), &["shared"]);
}
