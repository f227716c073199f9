# east

An experimental workspace manager for multi-repository projects: it reads
`east.toml` (or a west.yml manifest), resolves imported sub-manifests into a
flat set of dependencies pinned to commits, and writes a lock file.

The library under `src/` is verified with Verus: every public function
carries a contract. The resolvers' contracts say what each resolved entry is
made of (a direct dependency, or a dependency of a sub-manifest fetched in
that call and admitted by the import that fetched it); that a name keeps the
dependency first stored under it (`claim` states this rule for one
insertion) and that, over the steps of the walk, the first step to meet a
name decides its entry; that every import they walk reads its files in that
call and after the sub-manifest that named it, if any; and that no import
file is fetched twice. `app/` holds the command line and everything that
talks to the disk, to git or to the network, and hands the library plain
values.

- `src/name_map.rs` — maps keyed by name, kept in name order.
- `src/dep.rs`, `src/resolver.rs`, `src/resolver/git*` — the dependency
  resolver over a git host, and the decisions of its GitHub and libgit2
  backends.
- `src/west.rs`, `src/config.rs`, `src/manifest.rs`, `src/resolve.rs` — the
  west.yml and east.toml frontends and import resolution over them.
- `src/lock.rs`, `src/lockfile.rs`, `src/fetch_git2.rs` — lock files and the
  manifest cache.
- `src/text.rs`, `src/pattern.rs`, `src/paths.rs`, `src/url_ops.rs` — string,
  path and URL operations with specifications.
