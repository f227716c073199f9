//! The interface to git hosting that the dependency resolver works through,
//! and its errors.
use vstd::prelude::*;

use crate::dep::{Git, ResolvedGit};
use crate::text::{decimal, owned, push_str, u64_to_decimal};

pub mod git2_resolver;
pub mod github_resolver;

verus! {

/// What can go wrong while talking to a git host.
#[derive(Debug)]
pub enum GitResolverError {
    CloneError { repo: String },
    /// An error reported by libgit2, by its message.
    Git2Error(String),
    HttpError(String),
    RateLimited { host: String, retry_after_secs: u64 },
    MissingFileError { repo: String, rel_path: String },
    MissingDirectoryError { repo: String, rel_path: String },
    InvalidRevError { repo: String, rev: String },
}

/// The human-readable message of an error.
pub open spec fn git_error_message(e: GitResolverError) -> Seq<char> {
    match e {
        GitResolverError::CloneError { repo } => "failed to clone repository '"@ + repo@ + "'"@,
        GitResolverError::Git2Error(msg) => msg@,
        GitResolverError::HttpError(msg) => msg@,
        GitResolverError::RateLimited { host, retry_after_secs } => "rate limited by "@ + host@
            + " (retry after "@ + decimal(retry_after_secs as nat) + "s)"@,
        GitResolverError::MissingFileError { repo, rel_path } => "could not find file '"@
            + rel_path@ + "' in '"@ + repo@ + "'"@,
        GitResolverError::MissingDirectoryError { repo, rel_path } => "could not find directory '"@
            + rel_path@ + "' in '"@ + repo@ + "'"@,
        GitResolverError::InvalidRevError { repo, rev } => "could not find reference '"@ + rev@
            + "' in '"@ + repo@ + "'"@,
    }
}

impl GitResolverError {
    /// Returns `true` if this error indicates a rate limit was hit,
    /// signalling the caller should fall back to an alternative resolver.
    pub fn is_rate_limited(&self) -> (b: bool)
        ensures
            b == (self is RateLimited),
    {
        match self {
            GitResolverError::RateLimited { .. } => true,
            _ => false,
        }
    }

    /// The human-readable message of this error.
    pub fn message(&self) -> (m: String)
        ensures
            m@ == git_error_message(*self),
    {
        match self {
            GitResolverError::CloneError { repo } => {
                let mut m = owned("failed to clone repository '");
                push_str(&mut m, repo.as_str());
                push_str(&mut m, "'");
                m
            },
            GitResolverError::Git2Error(msg) => msg.clone(),
            GitResolverError::HttpError(msg) => msg.clone(),
            GitResolverError::RateLimited { host, retry_after_secs } => {
                let mut m = owned("rate limited by ");
                push_str(&mut m, host.as_str());
                push_str(&mut m, " (retry after ");
                let secs = u64_to_decimal(*retry_after_secs);
                push_str(&mut m, secs.as_str());
                push_str(&mut m, "s)");
                m
            },
            GitResolverError::MissingFileError { repo, rel_path } => {
                let mut m = owned("could not find file '");
                push_str(&mut m, rel_path.as_str());
                push_str(&mut m, "' in '");
                push_str(&mut m, repo.as_str());
                push_str(&mut m, "'");
                m
            },
            GitResolverError::MissingDirectoryError { repo, rel_path } => {
                let mut m = owned("could not find directory '");
                push_str(&mut m, rel_path.as_str());
                push_str(&mut m, "' in '");
                push_str(&mut m, repo.as_str());
                push_str(&mut m, "'");
                m
            },
            GitResolverError::InvalidRevError { repo, rev } => {
                let mut m = owned("could not find reference '");
                push_str(&mut m, rev.as_str());
                push_str(&mut m, "' in '");
                push_str(&mut m, repo.as_str());
                push_str(&mut m, "'");
                m
            },
        }
    }
}

/// Access to git repositories: pinning revisions to commits and reading
/// files and directories at a commit. Implemented by the users of the
/// resolver (over libgit2, over the GitHub API, or in memory).
pub trait GitResolver {
    /// Pins `source`'s revision to a commit.
    fn resolve(&mut self, source: &Git) -> Result<ResolvedGit, GitResolverError>;

    /// Materializes the repository at the pinned commit under `path`.
    fn fetch(&mut self, source: &ResolvedGit, path: &str) -> Result<(), GitResolverError>;

    /// The contents of the file `rel_path` at the pinned commit.
    fn fetch_file(&mut self, source: &ResolvedGit, rel_path: String) -> Result<
        String,
        GitResolverError,
    >;

    /// The names of the entries of the directory `rel_path` at the pinned commit.
    fn list_dir(&mut self, source: &ResolvedGit, rel_path: String) -> Result<
        Vec<String>,
        GitResolverError,
    >;
}

} // verus!
