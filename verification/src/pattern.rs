//! Pattern operations on strings (replacing, trimming, splitting), each
//! specified over `Seq<char>` as the `str` method of the same purpose
//! behaves.
use vstd::prelude::*;

use crate::text::{owned, push_str};

verus! {

/// Whether `p` occurs in `s` at position `i`.
pub open spec fn occurs_at(s: Seq<char>, i: int, p: Seq<char>) -> bool {
    0 <= i && i + p.len() <= s.len() && s.subrange(i, i + p.len()) == p
}

/// `s` with each occurrence of the non-empty `from` replaced by `to`,
/// occurrences taken from the left without overlap (`str::replace`).
pub open spec fn replace_spec(s: Seq<char>, from: Seq<char>, to: Seq<char>) -> Seq<char>
    decreases s.len(),
{
    if from.len() == 0 || s.len() < from.len() {
        s
    } else if occurs_at(s, 0, from) {
        to + replace_spec(s.skip(from.len() as int), from, to)
    } else {
        seq![s[0]] + replace_spec(s.drop_first(), from, to)
    }
}

/// Whether `p` occurs in `s` at position `i`.
pub fn occurs_at_exec(s: &str, i: usize, p: &str) -> (b: bool)
    requires
        i <= s@.len(),
    ensures
        b == occurs_at(s@, i as int, p@),
{
    let n = s.unicode_len();
    let m = p.unicode_len();
    if m > n - i {
        return false;
    }
    let mut j: usize = 0;
    while j < m
        invariant
            n == s@.len(),
            m == p@.len(),
            i + m <= n,
            j <= m,
            forall|k: int| 0 <= k < j ==> s@[i + k] == p@[k],
        decreases m - j,
    {
        if s.get_char(i + j) != p.get_char(j) {
            assert(s@.subrange(i as int, i + m)[j as int] != p@[j as int]);
            return false;
        }
        j = j + 1;
    }
    assert(s@.subrange(i as int, i + m) =~= p@);
    true
}

/// `s` with each occurrence of `from` replaced by `to` (`str::replace`).
pub fn replace_all(s: &str, from: &str, to: &str) -> (r: String)
    requires
        from@.len() > 0,
    ensures
        r@ == replace_spec(s@, from@, to@),
{
    let n = s.unicode_len();
    let m = from.unicode_len();
    let mut out = String::new();
    let mut i: usize = 0;
    assert(s@.skip(0) =~= s@);
    assert(out@ + s@ =~= s@);
    while i < n
        invariant
            n == s@.len(),
            m == from@.len(),
            m > 0,
            i <= n,
            out@ + replace_spec(s@.skip(i as int), from@, to@) == replace_spec(s@, from@, to@),
        decreases n - i,
    {
        let ghost rest = s@.skip(i as int);
        let ghost out0 = out@;
        if occurs_at_exec(s, i, from) {
            assert(rest.len() >= m);
            assert(rest.subrange(0, m as int) =~= s@.subrange(i as int, i + m));
            assert(rest.skip(m as int) =~= s@.skip(i + m));
            push_str(&mut out, to);
            assert(out@ + replace_spec(s@.skip(i + m), from@, to@) =~= out0 + replace_spec(rest, from@, to@));
            i = i + m;
        } else {
            let c = s.substring_char(i, i + 1);
            proof {
                if rest.len() >= m {
                    assert(rest.subrange(0, m as int) =~= s@.subrange(i as int, i + m));
                }
                assert(rest.drop_first() =~= s@.skip(i + 1));
                assert(c@ =~= seq![rest[0]]);
            }
            push_str(&mut out, c);
            assert(out@ + replace_spec(s@.skip(i + 1), from@, to@) =~= out0 + replace_spec(rest, from@, to@));
            i = i + 1;
        }
    }
    assert(s@.skip(n as int) =~= Seq::<char>::empty());
    assert(out@ + Seq::<char>::empty() =~= out@);
    out
}

/// A character that `to` does not hold is absent after replacing in a
/// string without it.
pub proof fn lemma_replace_keeps_absent(s: Seq<char>, from: Seq<char>, to: Seq<char>, x: char)
    requires
        !s.contains(x),
        !to.contains(x),
    ensures
        !replace_spec(s, from, to).contains(x),
    decreases s.len(),
{
    let r = replace_spec(s, from, to);
    if from.len() == 0 || s.len() < from.len() {
    } else if occurs_at(s, 0, from) {
        let rest = s.skip(from.len() as int);
        assert forall|i: int| 0 <= i < rest.len() implies rest[i] != x by {
            assert(rest[i] == s[i + from.len()]);
        }
        lemma_replace_keeps_absent(rest, from, to, x);
        assert forall|i: int| 0 <= i < r.len() implies r[i] != x by {
            if i < to.len() {
                assert(r[i] == to[i]);
            } else {
                assert(r[i] == replace_spec(rest, from, to)[i - to.len()]);
            }
        }
    } else {
        let rest = s.drop_first();
        assert forall|i: int| 0 <= i < rest.len() implies rest[i] != x by {
            assert(rest[i] == s[i + 1]);
        }
        lemma_replace_keeps_absent(rest, from, to, x);
        assert forall|i: int| 0 <= i < r.len() implies r[i] != x by {
            if i == 0 {
                assert(r[0] == s[0]);
            } else {
                assert(r[i] == replace_spec(rest, from, to)[i - 1]);
            }
        }
    }
}

/// Replacing the one-character pattern `c` by a string without `c` leaves
/// no `c`.
pub proof fn lemma_replace_removes(s: Seq<char>, c: char, to: Seq<char>)
    requires
        !to.contains(c),
    ensures
        !replace_spec(s, seq![c], to).contains(c),
    decreases s.len(),
{
    let from = seq![c];
    let r = replace_spec(s, from, to);
    if s.len() < 1 {
    } else if occurs_at(s, 0, from) {
        let rest = s.skip(1);
        lemma_replace_removes(rest, c, to);
        assert forall|i: int| 0 <= i < r.len() implies r[i] != c by {
            if i < to.len() {
                assert(r[i] == to[i]);
            } else {
                assert(r[i] == replace_spec(rest, from, to)[i - to.len()]);
            }
        }
    } else {
        let rest = s.drop_first();
        assert(s.subrange(0, 1) =~= seq![s[0]]);
        lemma_replace_removes(rest, c, to);
        assert forall|i: int| 0 <= i < r.len() implies r[i] != c by {
            if i == 0 {
                assert(r[0] == s[0]);
            } else {
                assert(r[i] == replace_spec(rest, from, to)[i - 1]);
            }
        }
    }
}

/// `s` without its leading characters `c` (`str::trim_start_matches`).
pub open spec fn trim_start_spec(s: Seq<char>, c: char) -> Seq<char>
    decreases s.len(),
{
    if s.len() > 0 && s[0] == c {
        trim_start_spec(s.drop_first(), c)
    } else {
        s
    }
}

/// `s` without its trailing characters `c` (`str::trim_end_matches`).
pub open spec fn trim_end_spec(s: Seq<char>, c: char) -> Seq<char>
    decreases s.len(),
{
    if s.len() > 0 && s.last() == c {
        trim_end_spec(s.drop_last(), c)
    } else {
        s
    }
}

/// `s` without its leading and trailing characters `c` (`str::trim_matches`).
pub open spec fn trim_spec(s: Seq<char>, c: char) -> Seq<char> {
    trim_end_spec(trim_start_spec(s, c), c)
}

/// `s` without the repeated prefix `p` (`str::trim_start_matches` with a
/// string pattern).
pub open spec fn trim_prefix_spec(s: Seq<char>, p: Seq<char>) -> Seq<char>
    decreases s.len(),
{
    if p.len() > 0 && occurs_at(s, 0, p) {
        trim_prefix_spec(s.skip(p.len() as int), p)
    } else {
        s
    }
}

/// `s` without the repeated suffix `p` (`str::trim_end_matches` with a
/// string pattern).
pub open spec fn trim_suffix_spec(s: Seq<char>, p: Seq<char>) -> Seq<char>
    decreases s.len(),
{
    if p.len() > 0 && occurs_at(s, s.len() - p.len(), p) {
        trim_suffix_spec(s.take(s.len() - p.len()), p)
    } else {
        s
    }
}

/// The part of `s` from `i` on.
pub fn tail(s: &str, i: usize) -> (r: &str)
    requires
        i <= s@.len(),
    ensures
        r@ == s@.skip(i as int),
{
    let n = s.unicode_len();
    let r = s.substring_char(i, n);
    assert(r@ =~= s@.skip(i as int));
    r
}

/// The part of `s` before `i`.
pub fn head(s: &str, i: usize) -> (r: &str)
    requires
        i <= s@.len(),
    ensures
        r@ == s@.take(i as int),
{
    let r = s.substring_char(0, i);
    assert(r@ =~= s@.take(i as int));
    r
}

/// `s` without its leading and trailing characters `c` (`str::trim_matches`).
pub fn trim_char(s: &str, c: char) -> (r: String)
    ensures
        r@ == trim_spec(s@, c),
{
    let n = s.unicode_len();
    let mut i: usize = 0;
    assert(s@.skip(0) =~= s@);
    while i < n && s.get_char(i) == c
        invariant
            n == s@.len(),
            i <= n,
            trim_start_spec(s@.skip(i as int), c) == trim_start_spec(s@, c),
        decreases n - i,
    {
        assert(s@.skip(i as int).drop_first() =~= s@.skip(i + 1));
        i = i + 1;
    }
    let ghost start = s@.skip(i as int);
    assert(trim_start_spec(start, c) == start);
    let mut j: usize = n;
    while j > i && s.get_char(j - 1) == c
        invariant
            n == s@.len(),
            i <= j <= n,
            start == s@.skip(i as int),
            trim_end_spec(s@.subrange(i as int, j as int), c) == trim_end_spec(start, c),
        decreases j - i,
    {
        assert(s@.subrange(i as int, j as int).drop_last() =~= s@.subrange(i as int, j - 1));
        j = j - 1;
    }
    let r = s.substring_char(i, j);
    proof {
        if j == n {
            assert(s@.subrange(i as int, n as int) =~= start);
        }
    }
    owned(r)
}

/// `s` without the repeated prefix `p` (`str::trim_start_matches`).
pub fn trim_prefix(s: &str, p: &str) -> (r: String)
    ensures
        r@ == trim_prefix_spec(s@, p@),
{
    let n = s.unicode_len();
    let m = p.unicode_len();
    if m == 0 {
        return owned(s);
    }
    let mut i: usize = 0;
    assert(s@.skip(0) =~= s@);
    while i <= n && occurs_at_exec(s, i, p)
        invariant
            n == s@.len(),
            m == p@.len(),
            m > 0,
            i <= n,
            trim_prefix_spec(s@.skip(i as int), p@) == trim_prefix_spec(s@, p@),
        decreases n - i,
    {
        assert(s@.skip(i as int).subrange(0, m as int) =~= s@.subrange(i as int, i + m));
        assert(s@.skip(i as int).skip(m as int) =~= s@.skip(i + m));
        i = i + m;
    }
    proof {
        let rest = s@.skip(i as int);
        if rest.len() >= m {
            assert(rest.subrange(0, m as int) =~= s@.subrange(i as int, i + m));
        }
    }
    owned(tail(s, i))
}

/// `s` without the repeated suffix `p` (`str::trim_end_matches`).
pub fn trim_suffix(s: &str, p: &str) -> (r: String)
    ensures
        r@ == trim_suffix_spec(s@, p@),
{
    let n = s.unicode_len();
    let m = p.unicode_len();
    if m == 0 {
        return owned(s);
    }
    let mut j: usize = n;
    assert(s@.take(n as int) =~= s@);
    while j >= m && occurs_at_exec(s, j - m, p)
        invariant
            n == s@.len(),
            m == p@.len(),
            m > 0,
            j <= n,
            trim_suffix_spec(s@.take(j as int), p@) == trim_suffix_spec(s@, p@),
        decreases j,
    {
        let ghost pre = s@.take(j as int);
        assert(pre.subrange(j - m, j as int) =~= s@.subrange(j - m, j as int));
        assert(pre.take(j - m) =~= s@.take(j - m));
        j = j - m;
    }
    proof {
        let pre = s@.take(j as int);
        if j >= m {
            assert(pre.subrange(j - m, j as int) =~= s@.subrange(j - m, j as int));
        }
        assert(s@.take(n as int) =~= s@);
    }
    owned(head(s, j))
}

/// The pieces of `s` between the characters `c` (`str::split` with a char
/// pattern): one more piece than there are `c`s.
pub open spec fn split_spec(s: Seq<char>, c: char) -> Seq<Seq<char>>
    decreases s.len(),
{
    if s.len() == 0 {
        seq![Seq::<char>::empty()]
    } else {
        let init = split_spec(s.drop_last(), c);
        if s.last() == c {
            init.push(Seq::<char>::empty())
        } else {
            init.update(init.len() - 1, init.last().push(s.last()))
        }
    }
}

/// `split_spec` always gives at least one piece.
pub proof fn lemma_split_nonempty(s: Seq<char>, c: char)
    ensures
        split_spec(s, c).len() >= 1,
    decreases s.len(),
{
    if s.len() > 0 {
        lemma_split_nonempty(s.drop_last(), c);
    }
}

/// The pieces of `s` between the characters `c` (`str::split`).
pub fn split_char(s: &str, c: char) -> (r: Vec<String>)
    ensures
        r@.len() == split_spec(s@, c).len(),
        forall|i: int| 0 <= i < r@.len() ==> (#[trigger] r@[i])@ == split_spec(s@, c)[i],
{
    let n = s.unicode_len();
    let mut done: Vec<String> = Vec::new();
    let mut start: usize = 0;
    let mut i: usize = 0;
    while i < n
        invariant
            n == s@.len(),
            start <= i <= n,
            done@.len() + 1 == split_spec(s@.take(i as int), c).len(),
            forall|k: int| 0 <= k < done@.len() ==> (#[trigger] done@[k])@ == split_spec(s@.take(i as int), c)[k],
            split_spec(s@.take(i as int), c).last() == s@.subrange(start as int, i as int),
        decreases n - i,
    {
        proof {
            lemma_split_nonempty(s@.take(i as int), c);
            assert(s@.take(i + 1).drop_last() =~= s@.take(i as int));
        }
        if s.get_char(i) == c {
            let piece = s.substring_char(start, i);
            done.push(owned(piece));
            start = i + 1;
            i = i + 1;
            proof {
                assert(s@.subrange(start as int, i as int) =~= Seq::<char>::empty());
            }
        } else {
            proof {
                assert(s@.subrange(start as int, i + 1) =~= s@.subrange(start as int, i as int).push(s@[i as int]));
            }
            i = i + 1;
        }
    }
    let last = s.substring_char(start, n);
    done.push(owned(last));
    proof {
        assert(s@.take(n as int) =~= s@);
    }
    done
}

} // verus!
