use std::cell::RefCell;
use std::collections::BTreeMap;

use east::config::{Config, Module, Workspace};
use east::manifest::{ImportSpec, ResolvedDep, UnresolvedDep, UnresolvedManifest};
use east::name_map::NameMap;
use east::resolve::{claim, lower_reply, FetchRequest, ManifestDecoder, ManifestFetcher, ResolveError, Resolver};
use east::west::{Defaults, Import, Manifest, ManifestSelf, Project, West, WestError};

/// Serves files from memory, keyed by `url#rev#path`, and counts requests.
struct MemoryFetcher {
    files: BTreeMap<String, String>,
    requests: RefCell<Vec<String>>,
}

impl MemoryFetcher {
    fn new(files: &[(&str, &str, &str, &str)]) -> Self {
        let files = files.iter().map(|(u, r, p, c)| (format!("{}#{}#{}", u, r, p), c.to_string())).collect();
        Self { files, requests: RefCell::new(Vec::new()) }
    }
}

impl ManifestFetcher for MemoryFetcher {
    fn fetch(&self, request: &FetchRequest) -> Result<String, ResolveError> {
        let key = format!("{}#{}#{}", request.url, request.revision, request.path);
        self.requests.borrow_mut().push(key.clone());
        self.files.get(&key).cloned().ok_or(ResolveError::FetchFailed {
            url: request.url.clone(),
            rev: request.revision.clone(),
            path: request.path.clone(),
            reason: "no such file".into(),
        })
    }
}

/// Decodes lines `name url rev [import]` into the projects of a west manifest.
struct LineDecoder;

impl ManifestDecoder for LineDecoder {
    fn decode(&self, content: &str) -> Result<West, String> {
        let mut projects = Vec::new();
        for line in content.lines().filter(|l| !l.trim().is_empty()) {
            let parts: Vec<&str> = line.split_whitespace().collect();
            if parts.len() < 3 {
                return Err(format!("bad line: {}", line));
            }
            projects.push(Project {
                name: parts[0].into(),
                remote: None,
                repo_path: None,
                url: Some(parts[1].into()),
                path: None,
                revision: Some(parts[2].into()),
                import: match parts.get(3) {
                    Some(f) => Import::RelPath(f.to_string()),
                    None => Import::Bool(false),
                },
                groups: Vec::new(),
                west_commands: None,
            });
        }
        Ok(West {
            manifest: Manifest {
                defaults: Defaults::default(),
                remotes: Vec::new(),
                projects,
                manifest_self: ManifestSelf::default(),
                group_filter: Vec::new(),
            },
        })
    }
}

fn dep(name: &str, url: &str, rev: &str, import: ImportSpec) -> UnresolvedDep {
    UnresolvedDep { name: name.into(), url: url.into(), revision: rev.into(), path: name.into(), import }
}

fn manifest(deps: Vec<UnresolvedDep>) -> UnresolvedManifest {
    let mut map = NameMap::new();
    for d in deps {
        map.insert(d.name.clone(), d);
    }
    UnresolvedManifest { self_url: None, self_revision: None, self_import: ImportSpec::NoImport, deps: map }
}

#[test]
fn flat_manifest_resolves_without_fetching() {
    let fetcher = MemoryFetcher::new(&[]);
    let mut resolver = Resolver::new(fetcher, LineDecoder);
    let m = manifest(vec![
        dep("zephyr", "https://g/z", "main", ImportSpec::NoImport),
        dep("cmsis", "https://g/c", "v1", ImportSpec::NoImport),
    ]);
    let rm = resolver.resolve(&m).unwrap();
    assert_eq!(rm.deps.len(), 2);
    let z = rm.deps.get("zephyr").unwrap();
    assert_eq!((z.url.as_str(), z.revision.as_str(), z.path.as_str()), ("https://g/z", "main", "zephyr"));
}

#[test]
fn file_import_merges_first_seen() {
    let fetcher = MemoryFetcher::new(&[(
        "https://g/z",
        "main",
        "west.yml",
        "hal https://g/hal v1\nzephyr https://g/other v9\n",
    )]);
    let mut resolver = Resolver::new(fetcher, LineDecoder);
    let m = manifest(vec![dep("zephyr", "https://g/z", "main", ImportSpec::File("west.yml".into()))]);
    let rm = resolver.resolve(&m).unwrap();
    assert_eq!(rm.deps.len(), 2);
    assert_eq!(rm.deps.get("zephyr").unwrap().url, "https://g/z");
    assert_eq!(rm.deps.get("hal").unwrap().revision, "v1");
}

#[test]
fn filtered_import_applies_lists_and_prefix() {
    let fetcher = MemoryFetcher::new(&[(
        "https://g/z",
        "main",
        "west.yml",
        "keep https://g/keep v1\nskip https://g/skip v1\nalso https://g/also v2\n",
    )]);
    let mut resolver = Resolver::new(fetcher, LineDecoder);
    let import = ImportSpec::Filtered {
        file: "west.yml".into(),
        name_allowlist: None,
        name_blocklist: Some(vec!["skip".into()]),
        path_allowlist: None,
        path_blocklist: None,
        path_prefix: Some("modules".into()),
    };
    let m = manifest(vec![dep("zephyr", "https://g/z", "main", import)]);
    let rm = resolver.resolve(&m).unwrap();
    assert_eq!(rm.deps.len(), 3);
    assert!(rm.deps.get("skip").is_none());
    assert_eq!(rm.deps.get("keep").unwrap().path, "modules/keep");
    assert_eq!(rm.deps.get("also").unwrap().path, "modules/also");
}

#[test]
fn repeated_fetch_is_a_cycle() {
    let fetcher = MemoryFetcher::new(&[("https://g/z", "main", "west.yml", "again https://g/z main west.yml\n")]);
    let mut resolver = Resolver::new(fetcher, LineDecoder);
    let m = manifest(vec![dep("zephyr", "https://g/z", "main", ImportSpec::File("west.yml".into()))]);
    let err = resolver.resolve(&m).unwrap_err();
    assert!(matches!(&err, ResolveError::CycleDetected(k) if k == "https://g/z@main:west.yml"));
    assert_eq!(err.message(), "cycle detected: https://g/z@main:west.yml");
}

#[test]
fn fetch_and_parse_failures_surface() {
    let fetcher = MemoryFetcher::new(&[("https://g/z", "main", "bad.yml", "oops\n")]);
    let mut resolver = Resolver::new(fetcher, LineDecoder);
    let m = manifest(vec![dep("zephyr", "https://g/z", "main", ImportSpec::File("missing.yml".into()))]);
    let err = resolver.resolve(&m).unwrap_err();
    assert_eq!(err.message(), "fetch failed for https://g/z @ main, path missing.yml: no such file");

    let fetcher = MemoryFetcher::new(&[("https://g/z", "main", "bad.yml", "oops\n")]);
    let mut resolver = Resolver::new(fetcher, LineDecoder);
    let m = manifest(vec![dep("zephyr", "https://g/z", "main", ImportSpec::File("bad.yml".into()))]);
    let err = resolver.resolve(&m).unwrap_err();
    assert!(matches!(&err, ResolveError::ParseError { reason, .. } if reason == "bad line: oops"));
    assert_eq!(err.message(), "parse error in https://g/z @ main, path bad.yml: bad line: oops");

    let e = ResolveError::West(WestError::DefaultRemoteError("r".into()));
    assert_eq!(e.message(), "default remote 'r' does not exist");
}

#[test]
fn self_import_runs_first() {
    let fetcher = MemoryFetcher::new(&[("https://g/self", "main", "sub.yml", "zephyr https://g/fork v0\n")]);
    let mut resolver = Resolver::new(fetcher, LineDecoder);
    let mut m = manifest(vec![dep("zephyr", "https://g/z", "main", ImportSpec::NoImport)]);
    m.self_url = Some("https://g/self".into());
    m.self_revision = Some("main".into());
    m.self_import = ImportSpec::File("sub.yml".into());
    let rm = resolver.resolve(&m).unwrap();
    assert_eq!(rm.deps.get("zephyr").unwrap().url, "https://g/fork");
}

#[test]
fn lowered_east_toml_resolves_to_its_modules() {
    let mut modules = NameMap::new();
    modules.insert("zephyr".to_string(), Module::new("https://g/z".into(), "main".into(), ImportSpec::NoImport));
    modules.insert("hal".to_string(), Module::new("https://g/h".into(), "v2".into(), ImportSpec::NoImport));
    let cfg = Config { workspace: Workspace::new("ws", "0.1.0"), modules };
    // Every fetch would fail: resolving a flat manifest makes none.
    let mut resolver = Resolver::new(MemoryFetcher::new(&[]), LineDecoder);
    let rm = resolver.resolve(&cfg.into_unresolved()).unwrap();
    assert_eq!(rm.deps.len(), 2);
    let h = rm.deps.get("hal").unwrap();
    assert_eq!((h.name.as_str(), h.url.as_str(), h.revision.as_str(), h.path.as_str()), ("hal", "https://g/h", "v2", "hal"));
}

#[test]
fn claim_keeps_the_first_entry() {
    let entry = |path: &str| ResolvedDep {
        name: "zephyr".to_string(),
        url: "https://g.com/zephyr".to_string(),
        revision: "main".to_string(),
        path: path.to_string(),
    };
    let mut resolved = NameMap::new();
    assert!(claim(&mut resolved, &"zephyr".to_string(), entry("first")));
    assert!(!claim(&mut resolved, &"zephyr".to_string(), entry("second")));
    assert_eq!(resolved.get("zephyr").unwrap().path, "first");
    assert_eq!(resolved.len(), 1);
}

#[test]
fn resolve_import_keeps_entries_already_present() {
    let fetcher = MemoryFetcher::new(&[(
        "https://g/z",
        "main",
        "west.yml",
        "hal https://g/hal v1\ncmsis https://g/cmsis v2\n",
    )]);
    let mut resolver = Resolver::new(fetcher, LineDecoder);
    let mut resolved = NameMap::new();
    let mine = ResolvedDep {
        name: "hal".into(),
        url: "https://g/my-hal".into(),
        revision: "mine".into(),
        path: "hal".into(),
    };
    resolved.insert("hal".to_string(), mine);
    resolver
        .resolve_import(&ImportSpec::File("west.yml".into()), "https://g/z", "main", &mut resolved)
        .unwrap();
    assert_eq!(resolved.len(), 2);
    assert_eq!(resolved.get("hal").unwrap().url, "https://g/my-hal");
    assert_eq!(resolved.get("hal").unwrap().revision, "mine");
    assert_eq!(resolved.get("cmsis").unwrap().revision, "v2");
}

#[test]
fn earlier_import_beats_later_direct_dependency() {
    // `alpha` is walked first (name order); its import declares `beta`,
    // which beats the direct dependency `beta` claimed afterwards.
    let fetcher = MemoryFetcher::new(&[("https://g/a", "main", "west.yml", "beta https://g/imported-beta v7\n")]);
    let mut resolver = Resolver::new(fetcher, LineDecoder);
    let m = manifest(vec![
        dep("alpha", "https://g/a", "main", ImportSpec::File("west.yml".into())),
        dep("beta", "https://g/direct-beta", "v1", ImportSpec::NoImport),
    ]);
    let rm = resolver.resolve(&m).unwrap();
    assert_eq!(rm.deps.len(), 2);
    assert_eq!(rm.deps.get("beta").unwrap().url, "https://g/imported-beta");
    assert_eq!(rm.deps.get("beta").unwrap().revision, "v7");
}

#[test]
fn undecodable_sub_manifest_is_a_parse_error() {
    let fetcher = MemoryFetcher::new(&[("https://g/z", "main", "west.yml", "garbage\n")]);
    let mut resolver = Resolver::new(fetcher, LineDecoder);
    let m = manifest(vec![dep("zephyr", "https://g/z", "main", ImportSpec::File("west.yml".into()))]);
    match resolver.resolve(&m) {
        Err(ResolveError::ParseError { url, rev, path, reason }) => {
            assert_eq!((url.as_str(), rev.as_str(), path.as_str()), ("https://g/z", "main", "west.yml"));
            assert_eq!(reason, "bad line: garbage");
        },
        other => panic!("expected a parse error, got {:?}", other.map(|rm| rm.deps.len())),
    }
    match lower_reply(Err("broken".to_string()), "u", "r", "p") {
        Err(ResolveError::ParseError { url, rev, path, reason }) => {
            assert_eq!((url.as_str(), rev.as_str(), path.as_str(), reason.as_str()), ("u", "r", "p", "broken"));
        },
        _ => panic!("expected a parse error"),
    }
}
