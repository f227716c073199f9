//! Filesystem paths, held as strings, and the two operations on them that
//! the library takes from `std::path`.
use vstd::prelude::*;

use crate::pattern::split_spec;
use crate::text::{owned, push_str};

verus! {

/// The text of `base` with `seg` adjoined (`std::path::Path::join`).
pub uninterp spec fn spec_path_join(base: Seq<char>, seg: Seq<char>) -> Seq<char>;

/// `Path::new(base).join(seg)`, as a string. The result is named: how
/// `join` places separators is described by its documentation only through
/// examples. What is stated is what the documentation says in words: an
/// absolute `seg` (on Unix, one that starts with `/`) replaces `base`. Both
/// arguments are strings, so the result is one too. The contract is stated
/// for Unix paths.
#[verifier::external_body]
pub fn path_join(base: &str, seg: &str) -> (r: String)
    ensures
        r@ == spec_path_join(base@, seg@),
        seg@.len() > 0 && seg@[0] == '/' ==> r@ == seg@,
{
    std::path::Path::new(base).join(seg).to_string_lossy().into_owned()
}

/// The text of the components of `path`, as the documentation of
/// `std::path::Path::components` describes them on Unix: a root `/` where
/// the path starts with `/`, else a current directory `.` where the path is
/// `.` or starts with `./`; then the pieces between separators, with empty
/// pieces (repeated or trailing separators) and `.` pieces left out.
pub open spec fn components_spec(path: Seq<char>) -> Seq<Seq<char>> {
    let lead: Seq<Seq<char>> = if path.len() > 0 && path[0] == '/' {
        seq![seq!['/']]
    } else if path == seq!['.'] || (path.len() >= 2 && path[0] == '.' && path[1] == '/') {
        seq![seq!['.']]
    } else {
        Seq::empty()
    };
    lead + split_spec(path, '/').filter(|p: Seq<char>| p.len() > 0 && p != seq!['.'])
}

/// The text of each component of `path` (`Path::components`, each
/// component by `Component::as_os_str`), on Unix. What the contract claims
/// is the normalization that the documentation of `components` states; the
/// contract is stated for Unix paths.
#[verifier::external_body]
pub fn path_components(path: &str) -> (r: Vec<String>)
    ensures
        r@.len() == components_spec(path@).len(),
        forall|i: int| 0 <= i < r@.len() ==> (#[trigger] r@[i])@ == components_spec(path@)[i],
{
    std::path::Path::new(path).components().map(|c| c.as_os_str().to_string_lossy().into_owned()).collect()
}

/// The pieces of `parts` joined by `sep`.
pub open spec fn join_spec(parts: Seq<Seq<char>>, sep: Seq<char>) -> Seq<char>
    decreases parts.len(),
{
    if parts.len() == 0 {
        Seq::empty()
    } else if parts.len() == 1 {
        parts[0]
    } else {
        join_spec(parts.drop_last(), sep) + sep + parts.last()
    }
}

/// The strings `parts[from..]` joined by `sep`.
pub fn join_from(parts: &Vec<String>, from: usize, sep: &str) -> (r: String)
    requires
        from <= parts@.len(),
    ensures
        r@ == join_spec(parts@.skip(from as int).map_values(|s: String| s@), sep@),
{
    let n = parts.len();
    let mut r = String::new();
    let mut i: usize = from;
    let ghost views = parts@.map_values(|s: String| s@);
    assert(views.subrange(from as int, from as int) =~= Seq::<Seq<char>>::empty());
    while i < n
        invariant
            n == parts@.len(),
            from <= i <= n,
            views == parts@.map_values(|s: String| s@),
            r@ == join_spec(views.subrange(from as int, i as int), sep@),
        decreases n - i,
    {
        let ghost before = views.subrange(from as int, i as int);
        assert(views.subrange(from as int, i + 1).drop_last() =~= before);
        if i > from {
            push_str(&mut r, sep);
        }
        push_str(&mut r, parts[i].as_str());
        proof {
            if i == from {
                assert(r@ =~= views[i as int]);
            }
        }
        i = i + 1;
    }
    assert(views.subrange(from as int, n as int) =~= parts@.skip(from as int).map_values(|s: String| s@));
    r
}

} // verus!
