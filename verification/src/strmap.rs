//! A map from strings to values that keeps its entries sorted by key, as a
//! `BTreeMap<String, V>` iterates.

use vstd::prelude::*;

use crate::text::{lemma_seq_lt_asymmetric, lemma_seq_lt_irreflexive, lemma_seq_lt_total, lemma_seq_lt_transitive, seq_lt, string_lt};

verus! {

/// Keys strictly increase along the entries.
pub open spec fn sorted_keys<V>(e: Seq<(String, V)>) -> bool {
    forall|i: int, j: int| 0 <= i < j < e.len() ==> seq_lt(#[trigger] e[i].0@, #[trigger] e[j].0@)
}

/// The value stored under `k`, if any.
pub open spec fn lookup<V>(e: Seq<(String, V)>, k: Seq<char>) -> Option<V> {
    if exists|i: int| 0 <= i < e.len() && e[i].0@ == k {
        Some(e[choose|i: int| 0 <= i < e.len() && e[i].0@ == k].1)
    } else {
        None
    }
}

/// Sorted string-keyed map.
#[derive(Debug, Clone)]
pub struct StrMap<V> {
    entries: Vec<(String, V)>,
}

impl<V> StrMap<V> {
    /// The entries in key order.
    pub closed spec fn pairs(&self) -> Seq<(String, V)> {
        self.entries@
    }

    /// Keys strictly increase.
    pub closed spec fn wf(&self) -> bool {
        sorted_keys(self.entries@)
    }

    /// A well-formed map's keys strictly increase.
    pub proof fn lemma_sorted(&self)
        requires
            self.wf(),
        ensures
            sorted_keys(self.pairs()),
    {
    }

    /// The empty map.
    pub fn new() -> (r: Self)
        ensures
            r.wf(),
            r.pairs().len() == 0,
    {
        StrMap { entries: Vec::new() }
    }

    /// Number of entries.
    pub fn len(&self) -> (r: usize)
        ensures
            r == self.pairs().len(),
    {
        self.entries.len()
    }

    /// The entries in key order.
    pub fn entries(&self) -> (r: &[(String, V)])
        ensures
            r@ == self.pairs(),
    {
        self.entries.as_slice()
    }

    /// The value under `key`.
    pub fn get(&self, key: &str) -> (r: Option<&V>)
        requires
            self.wf(),
        ensures
            match r {
                Some(v) => lookup(self.pairs(), key@) == Some(*v),
                None => lookup(self.pairs(), key@) is None,
            },
    {
        let mut i: usize = 0;
        while i < self.entries.len()
            invariant
                i <= self.entries@.len(),
                sorted_keys(self.entries@),
                forall|k: int| 0 <= k < i ==> self.entries@[k].0@ != key@,
            decreases self.entries@.len() - i,
        {
            if crate::text::str_eq(self.entries[i].0.as_str(), key) {
                proof {
                    lemma_unique_key(self.entries@, i as int);
                }
                return Some(&self.entries[i].1);
            }
            i += 1;
        }
        None
    }

    /// Stores `value` under `key`, replacing what was there.
    pub fn insert(&mut self, key: String, value: V)
        requires
            old(self).wf(),
        ensures
            final(self).wf(),
            forall|k: Seq<char>|
                #[trigger] lookup(final(self).pairs(), k) == if k == key@ {
                    Some(value)
                } else {
                    lookup(old(self).pairs(), k)
                },
            final(self).pairs().len() == old(self).pairs().len() + (if lookup(
                old(self).pairs(),
                key@,
            ) is Some {
                0int
            } else {
                1int
            }),
    {
        let ghost e0 = self.entries@;
        let mut i: usize = 0;
        while i < self.entries.len() && string_lt(&self.entries[i].0, &key)
            invariant
                i <= self.entries@.len(),
                self.entries@ == e0,
                sorted_keys(e0),
                forall|k: int| 0 <= k < i ==> seq_lt(#[trigger] e0[k].0@, key@),
            decreases self.entries@.len() - i,
        {
            i += 1;
        }
        if i < self.entries.len() && crate::text::str_eq(self.entries[i].0.as_str(), key.as_str()) {
            let ghost k0 = key@;
            self.entries.set(i, (key, value));
            proof {
                let e1 = self.entries@;
                assert(e1 == e0.update(i as int, e1[i as int]));
                assert(sorted_keys(e1)) by {
                    assert forall|a: int, b: int| 0 <= a < b < e1.len() implies seq_lt(
                        #[trigger] e1[a].0@,
                        #[trigger] e1[b].0@,
                    ) by {
                        assert(e1[a].0@ == e0[a].0@);
                        assert(e1[b].0@ == e0[b].0@);
                    }
                }
                lemma_unique_key(e0, i as int);
                lemma_unique_key(e1, i as int);
                assert forall|k: Seq<char>|
                    #[trigger] lookup(e1, k) == if k == k0 {
                        Some(value)
                    } else {
                        lookup(e0, k)
                    } by {
                    if k != k0 {
                        if exists|j: int| 0 <= j < e0.len() && e0[j].0@ == k {
                            let j = choose|j: int| 0 <= j < e0.len() && e0[j].0@ == k;
                            lemma_unique_key(e0, j);
                            lemma_unique_key(e1, j);
                        } else {
                            if exists|j: int| 0 <= j < e1.len() && e1[j].0@ == k {
                                let j = choose|j: int| 0 <= j < e1.len() && e1[j].0@ == k;
                                assert(e0[j].0@ == k);
                            }
                        }
                    }
                }
            }
        } else {
            let ghost k0 = key@;
            proof {
                assert forall|k: int| i <= k < e0.len() implies seq_lt(key@, #[trigger] e0[k].0@) by {
                    lemma_seq_lt_total(e0[i as int].0@, key@);
                    if k > i {
                        lemma_seq_lt_transitive(key@, e0[i as int].0@, e0[k].0@);
                    }
                }
                if exists|j: int| 0 <= j < e0.len() && e0[j].0@ == k0 {
                    let j = choose|j: int| 0 <= j < e0.len() && e0[j].0@ == k0;
                    if j < i {
                        lemma_seq_lt_irreflexive(k0);
                    } else {
                        lemma_seq_lt_irreflexive(k0);
                    }
                }
            }
            self.entries.insert(i, (key, value));
            proof {
                let e1 = self.entries@;
                assert(e1 == e0.insert(i as int, e1[i as int]));
                assert(sorted_keys(e1)) by {
                    assert forall|a: int, b: int| 0 <= a < b < e1.len() implies seq_lt(
                        #[trigger] e1[a].0@,
                        #[trigger] e1[b].0@,
                    ) by {
                        if b < i {
                            assert(e1[a] == e0[a]);
                            assert(e1[b] == e0[b]);
                        } else if a < i && b == i {
                        } else if a == i {
                            assert(e1[b] == e0[b - 1]);
                        } else if a < i && b > i {
                            assert(e1[b] == e0[b - 1]);
                        } else {
                            assert(e1[a] == e0[a - 1]);
                            assert(e1[b] == e0[b - 1]);
                        }
                    }
                }
                lemma_unique_key(e1, i as int);
                assert forall|k: Seq<char>|
                    #[trigger] lookup(e1, k) == if k == k0 {
                        Some(value)
                    } else {
                        lookup(e0, k)
                    } by {
                    if k != k0 {
                        if exists|j: int| 0 <= j < e0.len() && e0[j].0@ == k {
                            let j = choose|j: int| 0 <= j < e0.len() && e0[j].0@ == k;
                            lemma_unique_key(e0, j);
                            let j1 = if j < i { j } else { j + 1 };
                            assert(e1[j1] == e0[j]);
                            lemma_unique_key(e1, j1);
                        } else {
                            if exists|j: int| 0 <= j < e1.len() && e1[j].0@ == k {
                                let j = choose|j: int| 0 <= j < e1.len() && e1[j].0@ == k;
                                if j < i {
                                    assert(e0[j] == e1[j]);
                                } else if j > i {
                                    assert(e0[j - 1] == e1[j]);
                                }
                            }
                        }
                    }
                }
            }
        }
    }
}

/// In sorted entries the key at `i` occurs nowhere else, so `lookup` finds
/// the value at `i`.
pub proof fn lemma_unique_key<V>(e: Seq<(String, V)>, i: int)
    requires
        sorted_keys(e),
        0 <= i < e.len(),
    ensures
        lookup(e, e[i].0@) == Some(e[i].1),
        forall|j: int| 0 <= j < e.len() && j != i ==> e[j].0@ != e[i].0@,
{
    assert forall|j: int| 0 <= j < e.len() && j != i implies e[j].0@ != e[i].0@ by {
        if j < i {
            lemma_seq_lt_irreflexive(e[i].0@);
        } else {
            lemma_seq_lt_irreflexive(e[i].0@);
        }
    }
}

} // verus!
