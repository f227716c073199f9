//! Where fetched manifest repositories are cached on disk.
use vstd::prelude::*;

use crate::paths::{path_join, spec_path_join};
use crate::pattern::{lemma_replace_keeps_absent, lemma_replace_removes, replace_all, replace_spec};
use crate::text::owned;

verus! {

/// A URL turned into a file name: `://`, then every `/`, then every `:`
/// replaced by `_`.
pub open spec fn sanitized_spec(url: Seq<char>) -> Seq<char> {
    replace_spec(replace_spec(replace_spec(url, "://"@, "_"@), "/"@, "_"@), ":"@, "_"@)
}

/// `url` as a file name (see `sanitized_spec`); it holds no `/` and no `:`.
pub fn sanitize_url(url: &str) -> (r: String)
    ensures
        r@ == sanitized_spec(url@),
        !r@.contains('/'),
        !r@.contains(':'),
{
    proof {
        reveal_strlit("_");
        reveal_strlit("/");
        reveal_strlit(":");
        reveal_strlit("://");
    }
    let a = replace_all(url, "://", "_");
    let b = replace_all(a.as_str(), "/", "_");
    let c = replace_all(b.as_str(), ":", "_");
    proof {
        assert("/"@ =~= seq!['/']);
        assert(":"@ =~= seq![':']);
        assert(!"_"@.contains('/'));
        assert(!"_"@.contains(':'));
        lemma_replace_removes(a@, '/', "_"@);
        lemma_replace_keeps_absent(b@, ":"@, "_"@, '/');
        lemma_replace_removes(b@, ':', "_"@);
    }
    c
}

/// Fetches manifest files by cloning/opening bare repos into a cache
/// directory.
#[derive(Debug)]
pub struct Git2Fetcher {
    pub cache_dir: String,
}

impl Git2Fetcher {
    pub fn new(cache_dir: &str) -> (f: Self)
        ensures
            f.cache_dir@ == cache_dir@,
    {
        Git2Fetcher { cache_dir: owned(cache_dir) }
    }

    /// The directory that caches the repository at `url`: the URL as a file
    /// name, under the cache directory.
    pub fn repo_cache_path(&self, url: &str) -> (p: String)
        ensures
            p@ == spec_path_join(self.cache_dir@, sanitized_spec(url@)),
    {
        let name = sanitize_url(url);
        path_join(self.cache_dir.as_str(), name.as_str())
    }
}

} // verus!
