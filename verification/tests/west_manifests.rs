use east::config::{Config, Module, Workspace};
use east::lock::{LockFile, LockedModule, Source as LockSource};
use east::lockfile::Lockfile;
use east::manifest::{ImportSpec, ResolvedDep, ResolvedManifest};
use east::name_map::NameMap;
use east::west::{
    default_mapping_file, default_revision, import_to_spec, one_or_seq_to_vec, Defaults, Import, Manifest,
    ManifestSelf, OneOrSeq, Project, Remote, West, WestError,
};

fn project(name: &str) -> Project {
    Project {
        name: name.to_string(),
        remote: None,
        repo_path: None,
        url: None,
        path: None,
        revision: None,
        import: Import::default(),
        groups: Vec::new(),
        west_commands: None,
    }
}

fn manifest(remotes: Vec<Remote>, default_remote: Option<&str>, projects: Vec<Project>) -> Manifest {
    Manifest {
        defaults: Defaults { remote: default_remote.map(|s| s.to_string()), revision: default_revision() },
        remotes,
        projects,
        manifest_self: ManifestSelf::default(),
        group_filter: Vec::new(),
    }
}

fn remote(name: &str, base: &str) -> Remote {
    Remote { name: name.to_string(), url_base: base.to_string() }
}

#[test]
fn defaults_are_master_and_west_yml() {
    assert_eq!(default_revision(), "master");
    assert_eq!(default_mapping_file(), "west.yml");
    let d = Defaults::default();
    assert_eq!(d.remote, None);
    assert_eq!(d.revision, "master");
    assert!(matches!(Import::default(), Import::Bool(false)));
    let s = ManifestSelf::default();
    assert!(s.path.is_none() && s.west_commands.is_none());
    assert!(matches!(s.import, Import::Bool(false)));
}

#[test]
fn one_or_seq_lists_values() {
    assert_eq!(one_or_seq_to_vec(&OneOrSeq::One("a".to_string())), vec!["a".to_string()]);
    assert_eq!(
        one_or_seq_to_vec(&OneOrSeq::List(vec!["a".to_string(), "b".to_string()])),
        vec!["a".to_string(), "b".to_string()]
    );
}

#[test]
fn remote_lookup_takes_the_first_match() {
    let m = manifest(
        vec![remote("up", "https://one.org/"), remote("up", "https://two.org/"), remote("other", "https://x.org/")],
        None,
        vec![],
    );
    assert_eq!(m.remote("up").unwrap().url_base, "https://one.org/");
    assert_eq!(m.remote("other").unwrap().url_base, "https://x.org/");
    assert!(m.remote("missing").is_none());
}

#[test]
fn validate_builds_modules_from_projects() {
    let mut zephyr = project("zephyr");
    zephyr.revision = Some("v3.5.0".to_string());
    let mut hal = project("hal_nordic");
    hal.repo_path = Some("hal-nordic".to_string());
    let mut own = project("own");
    own.url = Some("https://example.com/own.git".to_string());
    own.revision = Some("main".to_string());
    let west = West {
        manifest: manifest(
            vec![remote("upstream", "https://github.com/zephyrproject-rtos/")],
            Some("upstream"),
            vec![zephyr, hal, own],
        ),
    };
    let cfg = west.validate().unwrap();
    assert_eq!(cfg.workspace().name(), "");
    assert_eq!(cfg.workspace().version(), "0.0.0+east");
    assert_eq!(cfg.modules().len(), 3);
    let z = cfg.modules().get("zephyr").unwrap();
    assert_eq!(z.git(), "https://github.com/zephyrproject-rtos/zephyr");
    assert_eq!(z.rev(), "v3.5.0");
    assert!(matches!(z.import, ImportSpec::NoImport));
    let h = cfg.modules().get("hal_nordic").unwrap();
    assert_eq!(h.git(), "https://github.com/zephyrproject-rtos/hal-nordic");
    assert_eq!(h.rev(), "master");
    let o = cfg.modules().get("own").unwrap();
    assert_eq!(o.git(), "https://example.com/own.git");
    assert!(cfg.has_module("zephyr"));
    assert!(!cfg.has_module("cmsis"));
}

#[test]
fn validate_rejects_url_and_remote_together() {
    let mut p = project("p");
    p.url = Some("https://a.org/p".to_string());
    p.remote = Some("r".to_string());
    let err = West { manifest: manifest(vec![remote("r", "https://a.org/")], None, vec![p]) }
        .validate()
        .unwrap_err();
    assert!(matches!(&err, WestError::InvalidPrjError { prj, msg }
        if prj == "p" && msg == "cannot have a url and a remote"));
    assert_eq!(err.message(), "invalid west project 'p': cannot have a url and a remote");
}

#[test]
fn validate_rejects_a_project_without_source() {
    let err = West { manifest: manifest(vec![], None, vec![project("p")]) }.validate().unwrap_err();
    assert_eq!(err.message(), "invalid west project 'p': a url or remote must be specified");
}

#[test]
fn validate_rejects_an_unknown_remote() {
    let err = West { manifest: manifest(vec![], Some("nowhere"), vec![project("p")]) }.validate().unwrap_err();
    assert!(matches!(&err, WestError::DefaultRemoteError(r) if r == "nowhere"));
    assert_eq!(err.message(), "default remote 'nowhere' does not exist");
}

#[test]
fn validate_rejects_an_unjoinable_url() {
    let err = West { manifest: manifest(vec![remote("m", "mailto:a@b.org")], Some("m"), vec![project("p")]) }
        .validate()
        .unwrap_err();
    assert!(matches!(&err, WestError::BadUrlJoin { url, joinee } if url == "mailto:a@b.org" && joinee == "p"));
    assert_eq!(err.message(), "unable to join 'p' onto url 'mailto:a@b.org'");
}

#[test]
fn validate_rejects_duplicate_projects() {
    let west = West {
        manifest: manifest(vec![remote("r", "https://a.org/")], Some("r"), vec![project("p"), project("q"), project("p")]),
    };
    let err = west.validate().unwrap_err();
    assert!(matches!(&err, WestError::DuplicatePrjError { prj } if prj == "p"));
    assert_eq!(err.message(), "multiple projects with the name 'p' were found");
}

#[test]
fn imports_lower_into_specs() {
    assert!(matches!(import_to_spec(&Import::Bool(false)), ImportSpec::NoImport));
    assert!(matches!(import_to_spec(&Import::Bool(true)), ImportSpec::File(f) if f == "west.yml"));
    assert!(matches!(import_to_spec(&Import::RelPath("sub.yml".into())), ImportSpec::File(f) if f == "sub.yml"));
    assert!(matches!(import_to_spec(&Import::List(vec!["a.yml".into(), "b.yml".into()])),
        ImportSpec::Files(v) if v == vec!["a.yml".to_string(), "b.yml".to_string()]));
    let mapping = Import::Mapping {
        file: "west.yml".into(),
        name_allow_list: Some(OneOrSeq::One("keep".into())),
        path_allow_list: None,
        name_block_list: Some(OneOrSeq::List(vec!["x".into(), "y".into()])),
        path_block_list: None,
        path_prefix: Some("modules".into()),
    };
    match import_to_spec(&mapping) {
        ImportSpec::Filtered { file, name_allowlist, name_blocklist, path_allowlist, path_blocklist, path_prefix } => {
            assert_eq!(file, "west.yml");
            assert_eq!(name_allowlist, Some(vec!["keep".to_string()]));
            assert_eq!(name_blocklist, Some(vec!["x".to_string(), "y".to_string()]));
            assert_eq!(path_allowlist, None);
            assert_eq!(path_blocklist, None);
            assert_eq!(path_prefix, Some("modules".to_string()));
        },
        other => panic!("unexpected {:?}", other),
    }
}

#[test]
fn west_lowers_into_unresolved_manifest() {
    let mut a = project("a");
    a.path = Some("modules/a".into());
    a.import = Import::Bool(true);
    let mut b = project("b");
    b.revision = Some("v1".into());
    let mut b2 = project("b");
    b2.revision = Some("v2".into());
    let mut west = West { manifest: manifest(vec![remote("r", "https://h.org/")], Some("r"), vec![a, b, b2]) };
    west.manifest.manifest_self.import = Import::RelPath("sub.yml".into());
    let um = west.into_unresolved(Some("https://h.org/self".into()), Some("main".into())).unwrap();
    assert_eq!(um.self_url.as_deref(), Some("https://h.org/self"));
    assert_eq!(um.self_revision.as_deref(), Some("main"));
    assert!(matches!(&um.self_import, ImportSpec::File(f) if f == "sub.yml"));
    assert_eq!(um.deps.len(), 2);
    let da = um.deps.get("a").unwrap();
    assert_eq!(da.url, "https://h.org/a");
    assert_eq!(da.revision, "master");
    assert_eq!(da.path, "modules/a");
    assert!(matches!(&da.import, ImportSpec::File(f) if f == "west.yml"));
    // A later project with the same name replaces the earlier one.
    let db = um.deps.get("b").unwrap();
    assert_eq!(db.revision, "v2");
    assert_eq!(db.path, "b");
    assert!(matches!(da.import, ImportSpec::File(_)));
}

#[test]
fn config_lowers_into_a_flat_manifest() {
    let mut modules = NameMap::new();
    modules.insert("zephyr".to_string(), Module::new("https://g.com/z".into(), "main".into(), ImportSpec::NoImport));
    modules.insert("cmsis".to_string(), Module::new("https://g.com/c".into(), "v1".into(), ImportSpec::NoImport));
    let cfg = Config { workspace: Workspace::new("ws", "1.2.3"), modules };
    let um = cfg.into_unresolved();
    assert!(um.self_url.is_none() && um.self_revision.is_none());
    assert!(matches!(um.self_import, ImportSpec::NoImport));
    assert_eq!(um.deps.key_at(0), "cmsis");
    let c = um.deps.value_at(0);
    assert_eq!((c.name.as_str(), c.url.as_str(), c.revision.as_str(), c.path.as_str()), ("cmsis", "https://g.com/c", "v1", "cmsis"));
    assert!(matches!(c.import, ImportSpec::NoImport));
    assert_eq!(um.deps.value_at(1).path, "zephyr");
}

#[test]
fn lockfile_locks_each_resolved_dependency() {
    let mut deps = NameMap::new();
    for (n, u, r, p) in [("b", "https://h/b", "v2", "libs/b"), ("a", "https://h/a", "v1", "libs/a")] {
        deps.insert(n.to_string(), ResolvedDep { name: n.into(), url: u.into(), revision: r.into(), path: p.into() });
    }
    let lock = Lockfile::from_resolved(ResolvedManifest { deps });
    assert_eq!(lock.deps.len(), 2);
    assert_eq!(lock.deps.key_at(0), "a");
    let a = lock.deps.get("a").unwrap();
    assert_eq!((a.git.as_str(), a.rev.as_str(), a.path.as_str()), ("https://h/a", "v1", "libs/a"));
    let b = lock.deps.get("b").unwrap();
    assert_eq!(b.path, "libs/b");
}

#[test]
fn locked_module_pins_a_module() {
    let m = Module::new("https://g.com/z".into(), "main".into(), ImportSpec::NoImport);
    let l = LockedModule::pinned("zephyr", &m, "c0ffee".into());
    assert_eq!(l.name, "zephyr");
    match &l.source {
        LockSource::Git(g) => {
            assert_eq!((g.url.as_str(), g.rev.as_str(), g.commit.as_str()), ("https://g.com/z", "main", "c0ffee"));
            assert!(g.dependencies.is_empty());
        },
    }
    let lf = LockFile::new("0.1.0".into(), vec![l]);
    assert_eq!(lf.version, "0.1.0");
    assert_eq!(lf.modules.len(), 1);
}
