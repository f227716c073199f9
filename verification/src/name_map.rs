//! A map from names to values that keeps its entries in the order of their
//! names, as a `BTreeMap<String, V>` iterates them.
use vstd::prelude::*;

use crate::text::{lex_lt, lemma_lex_lt_irreflexive, lemma_lex_lt_total, lemma_lex_lt_transitive, str_eq, str_lt};

verus! {

/// Whether the names of `e` strictly increase.
pub open spec fn names_increase<V>(e: Seq<(String, V)>) -> bool {
    forall|i: int, j: int| 0 <= i < j < e.len() ==> lex_lt(#[trigger] e[i].0@, #[trigger] e[j].0@)
}

/// Entries keyed by name, sorted by name, each name at most once.
#[derive(Debug)]
pub struct NameMap<V> {
    entries: Vec<(String, V)>,
}

impl<V> NameMap<V> {
    #[verifier::type_invariant]
    spec fn names_sorted(self) -> bool {
        names_increase(self.entries@)
    }

    /// The entries in iteration order.
    pub closed spec fn items(self) -> Seq<(String, V)> {
        self.entries@
    }

    /// The map is well formed: names strictly increase.
    pub open spec fn wf(self) -> bool {
        names_increase(self.items())
    }

    /// Whether some entry has name `k`.
    pub open spec fn has(self, k: Seq<char>) -> bool {
        has_entry(self.items(), k)
    }

    /// The position of the entry named `k`, when there is one.
    pub open spec fn pos(self, k: Seq<char>) -> int {
        entry_index(self.items(), k)
    }

    /// The value stored under `k`.
    pub open spec fn lookup(self, k: Seq<char>) -> Option<V> {
        if self.has(k) {
            Some(self.items()[self.pos(k)].1)
        } else {
            None
        }
    }

    /// The names in iteration order.
    pub open spec fn names(self) -> Seq<Seq<char>> {
        self.items().map_values(|e: (String, V)| e.0@)
    }

    /// Two entries with the same name are the same entry.
    pub proof fn lemma_unique(self, i: int, j: int)
        requires
            self.wf(),
            0 <= i < self.items().len(),
            0 <= j < self.items().len(),
            self.items()[i].0@ == self.items()[j].0@,
        ensures
            i == j,
    {
        if i < j {
            lemma_lex_lt_irreflexive(self.items()[i].0@);
        } else if j < i {
            lemma_lex_lt_irreflexive(self.items()[j].0@);
        }
    }

    /// The entry at position `i` is what `lookup` gives for its name.
    pub proof fn lemma_lookup_at(self, i: int)
        requires
            self.wf(),
            0 <= i < self.items().len(),
        ensures
            self.has(self.items()[i].0@),
            self.pos(self.items()[i].0@) == i,
            self.lookup(self.items()[i].0@) == Some(self.items()[i].1),
    {
        let k = self.items()[i].0@;
        assert(self.has(k));
        let p = self.pos(k);
        self.lemma_unique(i, p);
    }

    /// An empty map.
    pub fn new() -> (m: Self)
        ensures
            m.wf(),
            m.items() == Seq::<(String, V)>::empty(),
    {
        NameMap { entries: Vec::new() }
    }

    /// The number of entries.
    pub fn len(&self) -> (n: usize)
        ensures
            n == self.items().len(),
            self.wf(),
    {
        proof {
            use_type_invariant(self);
        }
        self.entries.len()
    }

    /// Whether the map has no entries.
    pub fn is_empty(&self) -> (b: bool)
        ensures
            self.wf(),
            b == (self.items().len() == 0),
    {
        proof {
            use_type_invariant(self);
        }
        self.entries.len() == 0
    }

    /// The name of the entry at position `i`.
    pub fn key_at(&self, i: usize) -> (k: &String)
        requires
            i < self.items().len(),
        ensures
            self.wf(),
            *k == self.items()[i as int].0,
    {
        proof {
            use_type_invariant(self);
        }
        &self.entries[i].0
    }

    /// The value of the entry at position `i`.
    pub fn value_at(&self, i: usize) -> (v: &V)
        requires
            i < self.items().len(),
        ensures
            self.wf(),
            *v == self.items()[i as int].1,
    {
        proof {
            use_type_invariant(self);
        }
        &self.entries[i].1
    }

    /// The position of the entry named `k`.
    pub fn find(&self, k: &str) -> (r: Option<usize>)
        ensures
            self.wf(),
            r is None <==> !self.has(k@),
            r matches Some(i) ==> i < self.items().len() && self.items()[i as int].0@ == k@
                && self.pos(k@) == i,
    {
        proof {
            use_type_invariant(self);
        }
        let n = self.entries.len();
        let mut i: usize = 0;
        while i < n
            invariant
                n == self.items().len(),
                i <= n,
                self.wf(),
                forall|j: int| 0 <= j < i ==> (#[trigger] self.items()[j]).0@ != k@,
            decreases n - i,
        {
            if str_eq(self.entries[i].0.as_str(), k) {
                proof {
                    self.lemma_lookup_at(i as int);
                }
                return Some(i);
            }
            i = i + 1;
        }
        None
    }

    /// Whether an entry is named `k`.
    pub fn contains_key(&self, k: &str) -> (b: bool)
        ensures
            self.wf(),
            b == self.has(k@),
    {
        self.find(k).is_some()
    }

    /// The value stored under `k`.
    pub fn get(&self, k: &str) -> (r: Option<&V>)
        ensures
            self.wf(),
            r is Some == self.has(k@),
            r matches Some(v) ==> self.lookup(k@) == Some(*v),
    {
        match self.find(k) {
            Some(i) => Some(&self.entries[i].1),
            None => None,
        }
    }

    /// Stores `v` under `k`, keeping the entries sorted; gives back the value
    /// that `k` held before, as `BTreeMap::insert` does.
    pub fn insert(&mut self, k: String, v: V) -> (old_v: Option<V>)
        ensures
            final(self).wf(),
            old_v == old(self).lookup(k@),
            final(self).lookup(k@) == Some(v),
            forall|k2: Seq<char>| k2 != k@ ==> #[trigger] final(self).lookup(k2) == old(self).lookup(k2),
            final(self).items().len() == old(self).items().len() + (if old(self).has(k@) { 0int } else { 1int }),
    {
        proof {
            use_type_invariant(&*self);
        }
        let n = self.entries.len();
        let mut i: usize = 0;
        while i < n && str_lt(self.entries[i].0.as_str(), k.as_str())
            invariant
                n == self.items().len(),
                i <= n,
                self.wf(),
                forall|j: int| 0 <= j < i ==> lex_lt(#[trigger] self.items()[j].0@, k@),
            decreases n - i,
        {
            i = i + 1;
        }
        let ghost before = self.items();
        if i < n && str_eq(self.entries[i].0.as_str(), k.as_str()) {
            let mut entries = Vec::new();
            std::mem::swap(&mut entries, &mut self.entries);
            let (name, old_value) = entries.remove(i);
            entries.insert(i, (name, v));
            proof {
                let after = entries@;
                assert(after =~= before.update(i as int, (before[i as int].0, v)));
                assert(names_increase(after));
            }
            self.entries = entries;
            proof {
                let after = self.items();
                assert(after =~= before.update(i as int, (before[i as int].0, v)));
                old(self).lemma_lookup_at(i as int);
                assert(self.wf());
                self.lemma_lookup_at(i as int);
                assert forall|k2: Seq<char>| k2 != k@ implies #[trigger] self.lookup(k2) == old(self).lookup(k2) by {
                    lemma_lookup_update(before, after, i as int, k2);
                    self.lemma_lookup_is_before_lookup(k2);
                    old(self).lemma_lookup_is_before_lookup(k2);
                }
            }
            Some(old_value)
        } else {
            proof {
                if i < n {
                    lemma_lex_lt_total(k@, before[i as int].0@);
                }
                assert forall|j: int| i <= j < before.len() implies lex_lt(k@, (#[trigger] before[j]).0@) by {
                    if j > i {
                        lemma_lex_lt_transitive(k@, before[i as int].0@, before[j].0@);
                    }
                }
                assert forall|j: int| 0 <= j < before.len() implies (#[trigger] before[j]).0@ != k@ by {
                    lemma_lex_lt_irreflexive(k@);
                }
            }
            let mut entries = Vec::new();
            std::mem::swap(&mut entries, &mut self.entries);
            entries.insert(i, (k, v));
            proof {
                let after = entries@;
                assert(after =~= before.insert(i as int, (k, v)));
                assert(names_increase(after)) by {
                    assert forall|a: int, b: int| 0 <= a < b < after.len() implies lex_lt(
                        #[trigger] after[a].0@,
                        #[trigger] after[b].0@,
                    ) by {
                        if a < i && b > i {
                            assert(lex_lt(before[a].0@, k@));
                            assert(lex_lt(k@, before[b - 1].0@));
                            lemma_lex_lt_transitive(after[a].0@, k@, after[b].0@);
                        } else if a == i && b > i {
                            assert(lex_lt(k@, before[b - 1].0@));
                        } else if a < i && b == i {
                            assert(lex_lt(before[a].0@, k@));
                        } else if a > i {
                            assert(lex_lt(before[a - 1].0@, before[b - 1].0@));
                        }
                    }
                }
            }
            self.entries = entries;
            proof {
                let after = self.items();
                self.lemma_lookup_at(i as int);
                assert forall|k2: Seq<char>| k2 != k@ implies #[trigger] self.lookup(k2) == old(self).lookup(k2) by {
                    lemma_lookup_insert(before, after, i as int, k, v, k2);
                    self.lemma_lookup_is_before_lookup(k2);
                    old(self).lemma_lookup_is_before_lookup(k2);
                }
                assert(!old(self).has(k@));
            }
            None
        }
    }

    /// Appends an entry whose name comes after every name already present.
    pub fn push_last(&mut self, k: String, v: V)
        requires
            forall|j: int| 0 <= j < old(self).items().len() ==> lex_lt(#[trigger] old(self).items()[j].0@, k@),
        ensures
            final(self).wf(),
            final(self).items() == old(self).items().push((k, v)),
    {
        proof {
            use_type_invariant(&*self);
        }
        let mut entries = Vec::new();
        std::mem::swap(&mut entries, &mut self.entries);
        entries.push((k, v));
        proof {
            let after = entries@;
            assert(after =~= old(self).items().push((k, v)));
            assert forall|a: int, b: int| 0 <= a < b < after.len() implies lex_lt(
                #[trigger] after[a].0@,
                #[trigger] after[b].0@,
            ) by {
                if b < after.len() - 1 {
                    assert(after[a] == old(self).items()[a]);
                    assert(after[b] == old(self).items()[b]);
                }
            }
        }
        self.entries = entries;
    }

    /// Replaces the value at position `i`, keeping every name; gives back
    /// the value it held.
    pub fn replace_at(&mut self, i: usize, v: V) -> (old_v: V)
        requires
            i < old(self).items().len(),
        ensures
            final(self).wf(),
            old_v == old(self).items()[i as int].1,
            final(self).items() == old(self).items().update(i as int, (old(self).items()[i as int].0, v)),
    {
        proof {
            use_type_invariant(&*self);
        }
        let mut entries = Vec::new();
        std::mem::swap(&mut entries, &mut self.entries);
        let (name, old_value) = entries.remove(i);
        entries.insert(i, (name, v));
        assert(entries@ =~= old(self).items().update(i as int, (old(self).items()[i as int].0, v)));
        assert(names_increase(entries@));
        self.entries = entries;
        assert(self.items() =~= old(self).items().update(i as int, (old(self).items()[i as int].0, v)));
        old_value
    }
}

/// Whether some entry of `e` is named `k`.
pub open spec fn has_entry<V>(e: Seq<(String, V)>, k: Seq<char>) -> bool {
    exists|j: int| 0 <= j < e.len() && (#[trigger] e[j]).0@ == k
}

/// A position of an entry of `e` named `k`, when there is one.
pub open spec fn entry_index<V>(e: Seq<(String, V)>, k: Seq<char>) -> int {
    choose|j: int| 0 <= j < e.len() && (#[trigger] e[j]).0@ == k
}

/// `lookup` over a raw sequence of entries.
pub open spec fn before_lookup<V>(e: Seq<(String, V)>, k: Seq<char>) -> Option<V> {
    if has_entry(e, k) {
        Some(e[entry_index(e, k)].1)
    } else {
        None
    }
}

proof fn lemma_seq_lookup_unique<V>(e: Seq<(String, V)>, k: Seq<char>, i: int)
    requires
        names_increase(e),
        0 <= i < e.len(),
        e[i].0@ == k,
    ensures
        before_lookup(e, k) == Some(e[i].1),
{
    assert(has_entry(e, k));
    let p = entry_index(e, k);
    assert(e[p].0@ == k);
    if p < i {
        assert(lex_lt(e[p].0@, e[i].0@));
        lemma_lex_lt_irreflexive(k);
    } else if i < p {
        assert(lex_lt(e[i].0@, e[p].0@));
        lemma_lex_lt_irreflexive(k);
    }

}

proof fn lemma_lookup_update<V>(before: Seq<(String, V)>, after: Seq<(String, V)>, i: int, k2: Seq<char>)
    requires
        names_increase(before),
        0 <= i < before.len(),
        after.len() == before.len(),
        forall|j: int| 0 <= j < after.len() ==> (#[trigger] after[j]).0@ == before[j].0@,
        forall|j: int| 0 <= j < after.len() && j != i ==> #[trigger] after[j] == before[j],
        k2 != before[i].0@,
    ensures
        before_lookup(after, k2) == before_lookup(before, k2),
{
    assert(names_increase(after));
    if has_entry(before, k2) {
        let j = entry_index(before, k2);
        lemma_seq_lookup_unique(before, k2, j);
        lemma_seq_lookup_unique(after, k2, j);
    } else {
        assert forall|j: int| 0 <= j < after.len() implies (#[trigger] after[j]).0@ != k2 by {
            assert(before[j].0@ != k2);
        }
    }
}

proof fn lemma_lookup_insert<V>(
    before: Seq<(String, V)>,
    after: Seq<(String, V)>,
    i: int,
    k: String,
    v: V,
    k2: Seq<char>,
)
    requires
        names_increase(before),
        names_increase(after),
        0 <= i <= before.len(),
        after == before.insert(i, (k, v)),
        k2 != k@,
    ensures
        before_lookup(after, k2) == before_lookup(before, k2),
{
    if has_entry(before, k2) {
        let j = entry_index(before, k2);
        lemma_seq_lookup_unique(before, k2, j);
        if j < i {
            lemma_seq_lookup_unique(after, k2, j);
        } else {
            assert(after[j + 1] == before[j]);
            lemma_seq_lookup_unique(after, k2, j + 1);
        }
    } else {
        assert forall|j: int| 0 <= j < after.len() implies (#[trigger] after[j]).0@ != k2 by {
            if j < i {
                assert(after[j] == before[j]);
            } else if j > i {
                assert(after[j] == before[j - 1]);
            }
        }
    }
}

impl<V> NameMap<V> {
    /// `lookup` agrees with `before_lookup` over the entries.
    pub proof fn lemma_lookup_is_before_lookup(self, k: Seq<char>)
        requires
            self.wf(),
        ensures
            self.lookup(k) == before_lookup(self.items(), k),
    {
        if self.has(k) {
            let p = self.pos(k);
            lemma_seq_lookup_unique(self.items(), k, p);
        }
    }
}

} // verus!
